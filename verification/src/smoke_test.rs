//! The echo service: everything a client sends is sent back to it once the
//! client has finished sending.

use vstd::prelude::*;
use crate::lines::append_bytes;

verus! {

/// One client connection: everything received so far.
pub struct EchoSession {
    received: Vec<u8>,
}

impl EchoSession {
    /// The bytes received so far, in order.
    pub closed spec fn received(&self) -> Seq<u8> {
        self.received@
    }

    /// A connection with nothing received.
    pub fn new() -> (s: Self)
        ensures
            s.received() == Seq::<u8>::empty(),
    {
        EchoSession { received: Vec::new() }
    }

    /// Takes in bytes received from the client.
    pub fn receive(&mut self, data: &[u8])
        ensures
            final(self).received() == old(self).received() + data@,
    {
        append_bytes(&mut self.received, data);
    }

    /// The bytes sent back once the client has finished: exactly what it
    /// sent, in order.
    pub fn reply(&self) -> (echo: Vec<u8>)
        ensures
            echo@ == self.received(),
    {
        self.received.clone()
    }
}

} // verus!

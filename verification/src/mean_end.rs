//! The price-history service: clients send 9-byte frames, each either an
//! insertion of a timestamped price or a query for the mean price over a
//! closed time window; every query is answered with a 4-byte mean.

use vstd::prelude::*;
use std::collections::HashMap;
use vstd::std_specs::iter::IteratorSpec;
use crate::lines::{append_bytes, take_prefix};

verus! {

/// Length of one frame on the wire.
pub const FRAME_LEN: usize = 9;

/// The byte `I` that opens an insertion frame.
pub const INSERT_TAG: u8 = 73u8;

/// The byte `Q` that opens a query frame.
pub const QUERY_TAG: u8 = 81u8;

/// Four bytes read as an unsigned big-endian number.
pub open spec fn be_unsigned(b: Seq<u8>) -> int {
    b[0] * 0x100_0000 + b[1] * 0x1_0000 + b[2] * 0x100 + b[3]
}

/// Four bytes read as a big-endian two's-complement 32-bit integer.
pub open spec fn be_i32(b: Seq<u8>) -> int {
    let u = be_unsigned(b);
    if u >= 0x8000_0000 {
        u - 0x1_0000_0000
    } else {
        u
    }
}

/// The four big-endian two's-complement bytes of a 32-bit integer.
pub open spec fn i32_be_bytes(v: int) -> Seq<u8> {
    let u = if v < 0 {
        v + 0x1_0000_0000
    } else {
        v
    };
    seq![
        (u / 0x100_0000) as u8,
        ((u / 0x1_0000) % 0x100) as u8,
        ((u / 0x100) % 0x100) as u8,
        (u % 0x100) as u8,
    ]
}

proof fn lemma_digits(u: int)
    requires
        0 <= u < 0x1_0000_0000,
    ensures
        0 <= u / 0x100_0000 < 0x100,
        0 <= (u / 0x1_0000) % 0x100 < 0x100,
        0 <= (u / 0x100) % 0x100 < 0x100,
        0 <= u % 0x100 < 0x100,
        (u / 0x100_0000) * 0x100_0000 + ((u / 0x1_0000) % 0x100) * 0x1_0000 + ((u / 0x100)
            % 0x100) * 0x100 + u % 0x100 == u,
{
    assert(0 <= u / 0x100_0000 < 0x100) by (nonlinear_arith)
        requires
            0 <= u < 0x1_0000_0000,
    ;
    assert((u / 0x100_0000) * 0x100_0000 + ((u / 0x1_0000) % 0x100) * 0x1_0000 + ((u / 0x100)
        % 0x100) * 0x100 + u % 0x100 == u) by (nonlinear_arith)
        requires
            0 <= u < 0x1_0000_0000,
    ;
}

proof fn lemma_digits_of(b0: int, b1: int, b2: int, b3: int)
    requires
        0 <= b0 < 0x100,
        0 <= b1 < 0x100,
        0 <= b2 < 0x100,
        0 <= b3 < 0x100,
    ensures
        ({
            let u = b0 * 0x100_0000 + b1 * 0x1_0000 + b2 * 0x100 + b3;
            &&& 0 <= u < 0x1_0000_0000
            &&& u / 0x100_0000 == b0
            &&& (u / 0x1_0000) % 0x100 == b1
            &&& (u / 0x100) % 0x100 == b2
            &&& u % 0x100 == b3
        }),
{
    let u = b0 * 0x100_0000 + b1 * 0x1_0000 + b2 * 0x100 + b3;
    assert(u / 0x100_0000 == b0) by (nonlinear_arith)
        requires
            u == b0 * 0x100_0000 + b1 * 0x1_0000 + b2 * 0x100 + b3,
            0 <= b0 < 0x100,
            0 <= b1 < 0x100,
            0 <= b2 < 0x100,
            0 <= b3 < 0x100,
    ;
    assert((u / 0x1_0000) % 0x100 == b1) by (nonlinear_arith)
        requires
            u == b0 * 0x100_0000 + b1 * 0x1_0000 + b2 * 0x100 + b3,
            0 <= b0 < 0x100,
            0 <= b1 < 0x100,
            0 <= b2 < 0x100,
            0 <= b3 < 0x100,
    ;
    assert((u / 0x100) % 0x100 == b2) by (nonlinear_arith)
        requires
            u == b0 * 0x100_0000 + b1 * 0x1_0000 + b2 * 0x100 + b3,
            0 <= b0 < 0x100,
            0 <= b1 < 0x100,
            0 <= b2 < 0x100,
            0 <= b3 < 0x100,
    ;
    assert(u % 0x100 == b3) by (nonlinear_arith)
        requires
            u == b0 * 0x100_0000 + b1 * 0x1_0000 + b2 * 0x100 + b3,
            0 <= b0 < 0x100,
            0 <= b1 < 0x100,
            0 <= b2 < 0x100,
            0 <= b3 < 0x100,
    ;
}

/// Reading back the bytes written for `v` gives `v`.
pub proof fn lemma_i32_bytes_roundtrip(v: i32)
    ensures
        i32_be_bytes(v as int).len() == 4,
        be_i32(i32_be_bytes(v as int)) == v,
{
    let u = if v < 0 {
        v + 0x1_0000_0000
    } else {
        v as int
    };
    lemma_digits(u);
}

/// Writing the integer that four bytes encode gives back those four bytes.
pub proof fn lemma_bytes_i32_roundtrip(b: Seq<u8>)
    requires
        b.len() == 4,
    ensures
        i32_minimum() <= be_i32(b) <= i32_maximum(),
        i32_be_bytes(be_i32(b)) == b,
{
    lemma_digits_of(b[0] as int, b[1] as int, b[2] as int, b[3] as int);
    let u = be_unsigned(b);
    let w = i32_be_bytes(be_i32(b));
    assert(w[0] == b[0]);
    assert(w[1] == b[1]);
    assert(w[2] == b[2]);
    assert(w[3] == b[3]);
    assert(w =~= b);
}

/// Smallest value of an `i32`.
pub open spec fn i32_minimum() -> int {
    -0x8000_0000
}

/// Largest value of an `i32`.
pub open spec fn i32_maximum() -> int {
    0x7fff_ffff
}

/// Reads the big-endian `i32` stored at `bytes[at..at + 4]`.
pub fn decode_i32_be(bytes: &[u8], at: usize) -> (v: i32)
    requires
        at + 4 <= bytes@.len(),
    ensures
        v == be_i32(bytes@.subrange(at as int, at + 4)),
{
    let ghost b = bytes@.subrange(at as int, at + 4);
    proof {
        lemma_digits_of(b[0] as int, b[1] as int, b[2] as int, b[3] as int);
    }
    let u: i64 = (bytes[at] as i64) * 0x100_0000 + (bytes[at + 1] as i64) * 0x1_0000 + (bytes[at
        + 2] as i64) * 0x100 + (bytes[at + 3] as i64);
    assert(u == be_unsigned(b));
    if u >= 0x8000_0000 {
        (u - 0x1_0000_0000) as i32
    } else {
        u as i32
    }
}

/// The four big-endian bytes of `v`.
pub fn encode_i32_be(v: i32) -> (bytes: Vec<u8>)
    ensures
        bytes@ == i32_be_bytes(v as int),
{
    let u: u32 = if v < 0 {
        (v as i64 + 0x1_0000_0000) as u32
    } else {
        v as u32
    };
    proof {
        lemma_digits(u as int);
    }
    let mut bytes: Vec<u8> = Vec::new();
    bytes.push((u / 0x100_0000) as u8);
    bytes.push(((u / 0x1_0000) % 0x100) as u8);
    bytes.push(((u / 0x100) % 0x100) as u8);
    bytes.push((u % 0x100) as u8);
    assert(bytes@ =~= i32_be_bytes(v as int));
    bytes
}

/// One decoded frame.
#[derive(Clone, Copy, Debug, PartialEq, Eq, Structural)]
pub enum Message {
    /// Record `price` at `timestamp`.
    Insert { timestamp: i32, price: i32 },
    /// Ask for the mean price over `mintime ..= maxtime`.
    Query { mintime: i32, maxtime: i32 },
    /// A frame with any other first byte; it is ignored.
    Unknown,
}

/// What the frame `frame` (nine bytes) means.
pub open spec fn frame_message(frame: Seq<u8>) -> Message {
    if frame[0] == INSERT_TAG {
        Message::Insert {
            timestamp: be_i32(frame.subrange(1, 5)) as i32,
            price: be_i32(frame.subrange(5, 9)) as i32,
        }
    } else if frame[0] == QUERY_TAG {
        Message::Query {
            mintime: be_i32(frame.subrange(1, 5)) as i32,
            maxtime: be_i32(frame.subrange(5, 9)) as i32,
        }
    } else {
        Message::Unknown
    }
}

/// Decodes the frame stored at `bytes[at..at + 9]`.
pub fn decode_message(bytes: &[u8], at: usize) -> (m: Message)
    requires
        at + FRAME_LEN <= bytes@.len(),
    ensures
        m == frame_message(bytes@.subrange(at as int, at + FRAME_LEN)),
{
    let ghost frame = bytes@.subrange(at as int, at + FRAME_LEN);
    assert(bytes@.len() == bytes.len());
    let first = decode_i32_be(bytes, at + 1);
    let second = decode_i32_be(bytes, at + 5);
    assert(bytes@.subrange(at + 1, at + 5) =~= frame.subrange(1, 5));
    assert(bytes@.subrange(at + 5, at + 9) =~= frame.subrange(5, 9));
    if bytes[at] == INSERT_TAG {
        Message::Insert { timestamp: first, price: second }
    } else if bytes[at] == QUERY_TAG {
        Message::Query { mintime: first, maxtime: second }
    } else {
        Message::Unknown
    }
}

/// The timestamps of `m` that lie in `mintime ..= maxtime`.
pub open spec fn window_keys(m: Map<i32, i32>, mintime: i32, maxtime: i32) -> Set<i32> {
    m.dom().filter(|k: i32| mintime <= k && k <= maxtime)
}

/// Adds the price recorded in `m` at a timestamp to a running total.
pub open spec fn add_price(m: Map<i32, i32>) -> spec_fn(int, i32) -> int {
    |acc: int, k: i32| acc + m[k]
}

/// Sum of the prices recorded in `m` within `mintime ..= maxtime`.
pub open spec fn window_sum(m: Map<i32, i32>, mintime: i32, maxtime: i32) -> int {
    window_keys(m, mintime, maxtime).fold(0int, add_price(m))
}

/// Number of prices recorded in `m` within `mintime ..= maxtime`.
pub open spec fn window_count(m: Map<i32, i32>, mintime: i32, maxtime: i32) -> nat {
    window_keys(m, mintime, maxtime).len()
}

/// Integer division rounding toward zero, as `/` does on Rust integers.
pub open spec fn trunc_div(a: int, b: int) -> int {
    if a >= 0 {
        a / b
    } else {
        -((-a) / b)
    }
}

/// A mean of `n` values of `i32`, rounded toward zero, is itself an `i32`.
proof fn lemma_trunc_div_bounds(sum: int, n: int)
    requires
        n > 0,
        -0x8000_0000 * n <= sum <= 0x7fff_ffff * n,
    ensures
        -0x8000_0000 <= trunc_div(sum, n) <= 0x7fff_ffff,
{
    if sum >= 0 {
        assert(0 <= sum / n <= 0x7fff_ffff) by (nonlinear_arith)
            requires
                n > 0,
                0 <= sum <= 0x7fff_ffff * n,
        ;
    } else {
        assert(0 <= (-sum) / n <= 0x8000_0000) by (nonlinear_arith)
            requires
                n > 0,
                0 < -sum <= 0x8000_0000 * n,
        ;
    }
}

/// The answer to a query: the mean of the prices in the window, rounded
/// toward zero, or 0 when the window holds no price.
pub open spec fn window_mean(m: Map<i32, i32>, mintime: i32, maxtime: i32) -> int {
    let n = window_count(m, mintime, maxtime);
    if n == 0 {
        0
    } else {
        trunc_div(window_sum(m, mintime, maxtime), n as int)
    }
}

/// The prices a client has recorded, by timestamp.
pub struct PriceHistory {
    prices: HashMap<i32, i32>,
}

impl View for PriceHistory {
    type V = Map<i32, i32>;

    closed spec fn view(&self) -> Map<i32, i32> {
        self.prices@
    }
}

impl PriceHistory {
    /// An empty history.
    pub fn new() -> (h: Self)
        ensures
            h@ == Map::<i32, i32>::empty(),
    {
        broadcast use vstd::std_specs::hash::group_hash_axioms;

        PriceHistory { prices: HashMap::new() }
    }

    /// Records `price` at `timestamp`, replacing a price recorded there before.
    pub fn insert(&mut self, timestamp: i32, price: i32)
        ensures
            final(self)@ == old(self)@.insert(timestamp, price),
    {
        broadcast use vstd::std_specs::hash::group_hash_axioms;

        self.prices.insert(timestamp, price);
    }

    /// The mean price over `mintime ..= maxtime`, rounded toward zero; 0 when
    /// no price lies in the window.
    pub fn mean(&self, mintime: i32, maxtime: i32) -> (r: i32)
        ensures
            r == window_mean(self@, mintime, maxtime),
    {
        broadcast use vstd::std_specs::hash::group_hash_axioms;

        let ghost m = self.prices@;
        let total = self.prices.len();
        let iter = self.prices.iter();
        let ghost pairs = iter.remaining();
        assert(pairs.len() == m.dom().len());
        let mut sum: i128 = 0;
        let mut count: usize = 0;
        let ghost mut seen: Set<i32> = Set::empty();
        proof {
            vstd::set::fold::lemma_fold_empty(0int, add_price(m));
        }
        for (k, v) in it: iter
            invariant
                it.seq() == pairs,
                pairs.no_duplicates(),
                pairs.len() == total,
                forall|i: int|
                    #![trigger pairs[i]]
                    0 <= i < pairs.len() ==> m.contains_key(*pairs[i].0) && m[*pairs[i].0]
                        == *pairs[i].1,
                seen.finite(),
                forall|k: i32|
                    seen.contains(k) <==> (exists|j: int|
                        0 <= j < it.index() && *pairs[j].0 == k && mintime <= k <= maxtime),
                count == seen.len(),
                count <= it.index(),
                sum == seen.fold(0int, add_price(m)),
                -0x8000_0000 * count <= sum <= 0x7fff_ffff * count,
        {
            if mintime <= *k && *k <= maxtime {
                proof {
                    assert(!seen.contains(*k)) by {
                        if seen.contains(*k) {
                            let j = choose|j: int|
                                0 <= j < it.index() && *pairs[j].0 == *k && mintime <= *k <= maxtime;
                            assert(pairs[j] == pairs[it.index()]);
                        }
                    }
                    vstd::set::fold::lemma_fold_insert(seen, 0int, add_price(m), *k);
                    seen = seen.insert(*k);
                }
                sum = sum + *v as i128;
                count = count + 1;
            }
        }
        assert(seen =~= window_keys(m, mintime, maxtime));
        if count == 0 {
            0
        } else {
            let n: i128 = count as i128;
            proof {
                lemma_trunc_div_bounds(sum as int, n as int);
            }
            let q: i128 = if sum >= 0 {
                sum / n
            } else {
                -((-sum) / n)
            };
            q as i32
        }
    }
}

/// The effect of one frame on the history: the history after it, and the
/// bytes sent in answer (four for a query, none otherwise).
pub open spec fn apply_frame(m: Map<i32, i32>, frame: Seq<u8>) -> (Map<i32, i32>, Seq<u8>) {
    match frame_message(frame) {
        Message::Insert { timestamp, price } => (m.insert(timestamp, price), Seq::empty()),
        Message::Query { mintime, maxtime } => (m, i32_be_bytes(window_mean(m, mintime, maxtime))),
        Message::Unknown => (m, Seq::empty()),
    }
}

/// The `k`-th frame of `bytes`.
pub open spec fn frame_at(bytes: Seq<u8>, k: int) -> Seq<u8> {
    bytes.subrange(9 * k, 9 * k + 9)
}

/// The history and the answer bytes after the first `n` frames of `bytes`,
/// taken in order, starting from the history `m`.
pub open spec fn run_frames(m: Map<i32, i32>, bytes: Seq<u8>, n: nat) -> (Map<i32, i32>, Seq<u8>)
    decreases n,
{
    if n == 0 {
        (m, Seq::empty())
    } else {
        let (m1, out1) = run_frames(m, bytes, (n - 1) as nat);
        let (m2, out2) = apply_frame(m1, frame_at(bytes, n - 1));
        (m2, out1 + out2)
    }
}

/// Number of whole frames in `bytes`.
pub open spec fn whole_frames(bytes: Seq<u8>) -> nat {
    bytes.len() / 9
}

/// The bytes after the last whole frame of `bytes`.
pub open spec fn partial_frame(bytes: Seq<u8>) -> Seq<u8> {
    bytes.subrange(9 * whole_frames(bytes) as int, bytes.len() as int)
}

/// Receiving `data` with the history `m` and the unfinished frame `pending`:
/// the history after the frames completed, the answers sent, and the new
/// unfinished frame.
pub open spec fn feed(m: Map<i32, i32>, pending: Seq<u8>, data: Seq<u8>) -> (
    Map<i32, i32>,
    Seq<u8>,
    Seq<u8>,
) {
    let all = pending + data;
    let (m1, out) = run_frames(m, all, whole_frames(all));
    (m1, out, partial_frame(all))
}

/// Receiving the reads `reads` one after the other, starting from the
/// history `m` and the unfinished frame `pending`: the final history, all the
/// answers sent, in order, and the final unfinished frame.
pub open spec fn feed_reads(m: Map<i32, i32>, pending: Seq<u8>, reads: Seq<Seq<u8>>) -> (
    Map<i32, i32>,
    Seq<u8>,
    Seq<u8>,
)
    decreases reads.len(),
{
    if reads.len() == 0 {
        (m, Seq::empty(), pending)
    } else {
        let (m1, out1, p1) = feed_reads(m, pending, reads.drop_last());
        let (m2, out2, p2) = feed(m1, p1, reads.last());
        (m2, out1 + out2, p2)
    }
}

/// The reads `reads` one after the other, as one byte stream.
pub open spec fn concat_reads(reads: Seq<Seq<u8>>) -> Seq<u8>
    decreases reads.len(),
{
    if reads.len() == 0 {
        Seq::empty()
    } else {
        concat_reads(reads.drop_last()) + reads.last()
    }
}

/// One client connection: the bytes of a frame not yet complete, and the
/// prices recorded so far.
pub struct MeanSession {
    pending: Vec<u8>,
    history: PriceHistory,
}

impl MeanSession {
    /// The bytes received that do not yet make a whole frame.
    pub closed spec fn pending(&self) -> Seq<u8> {
        self.pending@
    }

    /// The prices recorded on this connection.
    pub closed spec fn history(&self) -> Map<i32, i32> {
        self.history@
    }

    /// The well-formedness of a session: fewer than nine bytes wait.
    pub open spec fn wf(&self) -> bool {
        self.pending().len() < 9
    }

    /// A fresh connection.
    pub fn new() -> (s: Self)
        ensures
            s.wf(),
            s.pending() == Seq::<u8>::empty(),
            s.history() == Map::<i32, i32>::empty(),
    {
        MeanSession { pending: Vec::new(), history: PriceHistory::new() }
    }

    /// Takes in bytes received from the client: every frame that they
    /// complete is applied in order, and the answers to the queries among
    /// them are returned, concatenated.
    pub fn receive(&mut self, data: &[u8]) -> (answers: Vec<u8>)
        requires
            old(self).wf(),
        ensures
            final(self).wf(),
            (final(self).history(), answers@, final(self).pending()) == feed(
                old(self).history(),
                old(self).pending(),
                data@,
            ),
    {
        let ghost m0 = self.history@;
        append_bytes(&mut self.pending, data);
        let ghost all = self.pending@;
        let n: usize = self.pending.len() / FRAME_LEN;
        let mut answers: Vec<u8> = Vec::new();
        let mut i: usize = 0;
        while i < n
            invariant
                self.pending@ == all,
                n == all.len() / 9,
                all.len() <= usize::MAX,
                i <= n,
                (self.history@, answers@) == run_frames(m0, all, i as nat),
            decreases n - i,
        {
            let at = i * FRAME_LEN;
            assert(all.subrange(at as int, at + FRAME_LEN) == frame_at(all, i as int));
            match decode_message(self.pending.as_slice(), at) {
                Message::Insert { timestamp, price } => {
                    self.history.insert(timestamp, price);
                },
                Message::Query { mintime, maxtime } => {
                    let mean = self.history.mean(mintime, maxtime);
                    let bytes = encode_i32_be(mean);
                    append_bytes(&mut answers, bytes.as_slice());
                },
                Message::Unknown => {},
            }
            i = i + 1;
        }
        let _done = take_prefix(&mut self.pending, n * FRAME_LEN);
        answers
    }

    /// The bytes that the connection sends back when the client closes it:
    /// the incomplete frame left over.
    pub fn remainder(&self) -> (rest: Vec<u8>)
        ensures
            rest@ == self.pending(),
    {
        self.pending.clone()
    }
}

proof fn lemma_run_frames_prefix(m: Map<i32, i32>, x: Seq<u8>, y: Seq<u8>, n: nat)
    requires
        x.len() >= 9 * (n as int),
        y.len() >= 9 * (n as int),
        x.subrange(0, 9 * (n as int)) == y.subrange(0, 9 * (n as int)),
    ensures
        run_frames(m, x, n) == run_frames(m, y, n),
    decreases n,
{
    if n > 0 {
        let k = (n - 1) as nat;
        assert(x.subrange(0, 9 * (k as int)) =~= x.subrange(0, 9 * (n as int)).subrange(0, 9 * (k as int)));
        assert(y.subrange(0, 9 * (k as int)) =~= y.subrange(0, 9 * (n as int)).subrange(0, 9 * (k as int)));
        lemma_run_frames_prefix(m, x, y, k);
        assert(frame_at(x, k as int) =~= x.subrange(0, 9 * (n as int)).subrange(9 * (k as int), 9 * (n as int)));
        assert(frame_at(y, k as int) =~= y.subrange(0, 9 * (n as int)).subrange(9 * (k as int), 9 * (n as int)));
    }
}

proof fn lemma_run_frames_split(m: Map<i32, i32>, x: Seq<u8>, j: nat, k: nat)
    requires
        x.len() >= 9 * (j + k),
    ensures
        ({
            let (m1, out1) = run_frames(m, x, j);
            let (m2, out2) = run_frames(m1, x.subrange(9 * (j as int), x.len() as int), k);
            run_frames(m, x, j + k) == (m2, out1 + out2)
        }),
    decreases k,
{
    let (m1, out1) = run_frames(m, x, j);
    let rest = x.subrange(9 * (j as int), x.len() as int);
    if k == 0 {
        assert(out1 + Seq::<u8>::empty() =~= out1);
    } else {
        let k1 = (k - 1) as nat;
        lemma_run_frames_split(m, x, j, k1);
        let (m2, out2) = run_frames(m1, rest, k1);
        assert(frame_at(x, (j + k1) as int) =~= frame_at(rest, k1 as int));
        let (m3, out3) = apply_frame(m2, frame_at(rest, k1 as int));
        assert(out1 + out2 + out3 =~= out1 + (out2 + out3));
    }
}

/// Splitting the byte stream anywhere changes nothing: receiving `a` and then
/// `b` leaves the connection in the state that receiving `a + b` at once
/// does, and sends the same bytes.
pub proof fn lemma_receive_split(m: Map<i32, i32>, pending: Seq<u8>, a: Seq<u8>, b: Seq<u8>)
    requires
        pending.len() < 9,
    ensures
        ({
            let all1 = pending + a;
            let (m1, out1) = run_frames(m, all1, whole_frames(all1));
            let all2 = partial_frame(all1) + b;
            let (m2, out2) = run_frames(m1, all2, whole_frames(all2));
            let all = pending + (a + b);
            &&& run_frames(m, all, whole_frames(all)) == (m2, out1 + out2)
            &&& partial_frame(all) == partial_frame(all2)
        }),
{
    let all1 = pending + a;
    let j = whole_frames(all1);
    let (m1, out1) = run_frames(m, all1, j);
    let all2 = partial_frame(all1) + b;
    let k = whole_frames(all2);
    let all = pending + (a + b);
    assert(all =~= all1 + b);
    assert(9 * (j as int) <= all1.len()) by (nonlinear_arith)
        requires
            j == all1.len() / 9,
    ;
    assert(all1.len() - 9 * (j as int) < 9) by (nonlinear_arith)
        requires
            j == all1.len() / 9,
    ;
    assert(all.subrange(9 * (j as int), all.len() as int) =~= all2);
    assert(all.len() == 9 * (j as int) + all2.len());
    assert(whole_frames(all) == j + k) by (nonlinear_arith)
        requires
            all.len() == 9 * (j as int) + all2.len(),
            k == all2.len() / 9,
    ;
    assert(all.subrange(0, 9 * (j as int)) =~= all1.subrange(0, 9 * (j as int)));
    lemma_run_frames_prefix(m, all, all1, j);
    lemma_run_frames_split(m, all, j, k);
    assert(9 * (k as int) <= all2.len()) by (nonlinear_arith)
        requires
            k == all2.len() / 9,
    ;
    assert(partial_frame(all) =~= partial_frame(all2));
}

/// A query whose window holds exactly one recorded timestamp is answered
/// with the price recorded there.
pub proof fn lemma_single_price_mean(m: Map<i32, i32>, timestamp: i32, mintime: i32, maxtime: i32)
    requires
        m.contains_key(timestamp),
        mintime <= timestamp <= maxtime,
        forall|k: i32| m.contains_key(k) && mintime <= k <= maxtime ==> k == timestamp,
    ensures
        window_mean(m, mintime, maxtime) == m[timestamp],
{
    let keys = window_keys(m, mintime, maxtime);
    assert(keys =~= Set::<i32>::empty().insert(timestamp));
    vstd::set::fold::lemma_fold_empty(0int, add_price(m));
    vstd::set::fold::lemma_fold_insert(Set::<i32>::empty(), 0int, add_price(m), timestamp);
    assert(keys.len() == 1);
}

/// However the byte stream is cut into reads, the connection ends in the
/// same state and sends the same bytes as when the whole stream arrives in
/// one read.
pub proof fn lemma_feed_reads(m: Map<i32, i32>, pending: Seq<u8>, reads: Seq<Seq<u8>>)
    requires
        pending.len() < 9,
    ensures
        feed_reads(m, pending, reads) == feed(m, pending, concat_reads(reads)),
    decreases reads.len(),
{
    if reads.len() == 0 {
        assert(pending + Seq::<u8>::empty() =~= pending);
        assert(run_frames(m, pending, whole_frames(pending)) == (m, Seq::<u8>::empty())) by {
            assert(whole_frames(pending) == 0);
        }
        assert(partial_frame(pending) =~= pending);
    } else {
        let prefix = concat_reads(reads.drop_last());
        lemma_feed_reads(m, pending, reads.drop_last());
        lemma_receive_split(m, pending, prefix, reads.last());
    }
}

/// The timestamps in a query's window are exactly the recorded timestamps
/// `t` with `mintime <= t <= maxtime`, whatever prices they hold.
pub proof fn lemma_window_members(m: Map<i32, i32>, mintime: i32, maxtime: i32, t: i32)
    ensures
        window_keys(m, mintime, maxtime).contains(t) <==> (m.contains_key(t) && mintime <= t
            <= maxtime),
{
}

/// The count behind a query's mean is the number of recorded timestamps in
/// its window.
pub proof fn lemma_window_count(m: Map<i32, i32>, mintime: i32, maxtime: i32)
    ensures
        window_count(m, mintime, maxtime) == Set::new(
            |t: i32| m.contains_key(t) && mintime <= t <= maxtime,
        ).len(),
{
    assert(window_keys(m, mintime, maxtime) =~= Set::new(
        |t: i32| m.contains_key(t) && mintime <= t <= maxtime,
    ));
}

proof fn lemma_fold_agree(s: Set<i32>, f: spec_fn(int, i32) -> int, g: spec_fn(int, i32) -> int)
    requires
        s.finite(),
        vstd::set::fold::is_fun_commutative(f),
        vstd::set::fold::is_fun_commutative(g),
        forall|acc: int, k: i32| s.contains(k) ==> #[trigger] f(acc, k) == #[trigger] g(acc, k),
    ensures
        s.fold(0int, f) == s.fold(0int, g),
    decreases s.len(),
{
    if s.len() == 0 {
        assert(s =~= Set::<i32>::empty());
        vstd::set::fold::lemma_fold_empty(0int, f);
        vstd::set::fold::lemma_fold_empty(0int, g);
    } else {
        let a = s.choose();
        let r = s.remove(a);
        assert(r.insert(a) =~= s);
        lemma_fold_agree(r, f, g);
        vstd::set::fold::lemma_fold_insert(r, 0int, f, a);
        vstd::set::fold::lemma_fold_insert(r, 0int, g, a);
    }
}

/// With nothing recorded, a window holds no price, sums to 0 and is
/// answered 0.
pub proof fn lemma_window_empty(mintime: i32, maxtime: i32)
    ensures
        window_count(Map::<i32, i32>::empty(), mintime, maxtime) == 0,
        window_sum(Map::<i32, i32>::empty(), mintime, maxtime) == 0,
        window_mean(Map::<i32, i32>::empty(), mintime, maxtime) == 0,
{
    let m = Map::<i32, i32>::empty();
    assert(window_keys(m, mintime, maxtime) =~= Set::<i32>::empty());
    vstd::set::fold::lemma_fold_empty(0int, add_price(m));
}

/// Recording `price` at `timestamp` changes a window's count and sum as
/// follows: inside the window, a new timestamp adds one price, and a
/// timestamp already recorded has its old price replaced; outside the
/// window, nothing changes.
pub proof fn lemma_window_insert(
    m: Map<i32, i32>,
    mintime: i32,
    maxtime: i32,
    timestamp: i32,
    price: i32,
)
    requires
        m.dom().finite(),
    ensures
        ({
            let m2 = m.insert(timestamp, price);
            if mintime <= timestamp <= maxtime {
                if m.contains_key(timestamp) {
                    &&& window_count(m2, mintime, maxtime) == window_count(m, mintime, maxtime)
                    &&& window_sum(m2, mintime, maxtime) == window_sum(m, mintime, maxtime)
                        - m[timestamp] + price
                } else {
                    &&& window_count(m2, mintime, maxtime) == window_count(m, mintime, maxtime)
                        + 1
                    &&& window_sum(m2, mintime, maxtime) == window_sum(m, mintime, maxtime)
                        + price
                }
            } else {
                &&& window_count(m2, mintime, maxtime) == window_count(m, mintime, maxtime)
                &&& window_sum(m2, mintime, maxtime) == window_sum(m, mintime, maxtime)
            }
        }),
{
    let m2 = m.insert(timestamp, price);
    let w = window_keys(m, mintime, maxtime);
    let w2 = window_keys(m2, mintime, maxtime);
    let f = add_price(m);
    let g = add_price(m2);
    assert(w.subset_of(m.dom()));
    vstd::set_lib::lemma_len_subset(w, m.dom());
    if mintime <= timestamp <= maxtime {
        let r = w.remove(timestamp);
        assert(r.subset_of(w));
        vstd::set_lib::lemma_len_subset(r, w);
        lemma_fold_agree(r, f, g);
        assert(w2 =~= r.insert(timestamp));
        vstd::set::fold::lemma_fold_insert(r, 0int, g, timestamp);
        if m.contains_key(timestamp) {
            assert(w =~= r.insert(timestamp));
            vstd::set::fold::lemma_fold_insert(r, 0int, f, timestamp);
        } else {
            assert(r =~= w);
        }
    } else {
        assert(w2 =~= w);
        lemma_fold_agree(w, f, g);
    }
}

/// A query is answered with the mean of its window rounded toward zero:
/// with `n` prices summing to `s`, the answer `q` has `q * n <= s < q * n + n`
/// when `s >= 0` and `q * n - n < s <= q * n` when `s < 0`; an empty window,
/// as any window with `mintime > maxtime` is, is answered 0.
pub proof fn lemma_window_mean(m: Map<i32, i32>, mintime: i32, maxtime: i32)
    ensures
        ({
            let n = window_count(m, mintime, maxtime) as int;
            let s = window_sum(m, mintime, maxtime);
            let q = window_mean(m, mintime, maxtime);
            &&& n == 0 ==> q == 0
            &&& (n > 0 && s >= 0) ==> q * n <= s < q * n + n
            &&& (n > 0 && s < 0) ==> q * n - n < s <= q * n
            &&& mintime > maxtime ==> n == 0 && q == 0
        }),
{
    let n = window_count(m, mintime, maxtime) as int;
    let s = window_sum(m, mintime, maxtime);
    if mintime > maxtime {
        assert(window_keys(m, mintime, maxtime) =~= Set::<i32>::empty());
    }
    if n > 0 {
        if s >= 0 {
            assert((s / n) * n <= s < (s / n) * n + n) by (nonlinear_arith)
                requires
                    n > 0,
                    s >= 0,
            ;
        } else {
            let t = -s;
            assert((t / n) * n <= t < (t / n) * n + n) by (nonlinear_arith)
                requires
                    n > 0,
                    t > 0,
            ;
            assert((-(t / n)) * n == -((t / n) * n)) by (nonlinear_arith);
        }
    }
}

/// The signed value of the big-endian bytes `f[at..at + 4]`.
proof fn lemma_frame_field(f: Seq<u8>, at: int)
    requires
        0 <= at,
        at + 4 <= f.len(),
    ensures
        ({
            let u = f[at] as int * 16777216 + f[at + 1] as int * 65536 + f[at + 2] as int * 256
                + f[at + 3] as int;
            be_i32(f.subrange(at, at + 4)) == if u >= 2147483648 {
                u - 4294967296
            } else {
                u
            }
        }),
        i32_minimum() <= be_i32(f.subrange(at, at + 4)) <= i32_maximum(),
{
    lemma_bytes_i32_roundtrip(f.subrange(at, at + 4));
}

/// A frame opening with `Q` asks for the window from the big-endian integer
/// in its bytes 1 to 4 to the one in its bytes 5 to 8, in that order; when
/// the first is greater, the answer is the four bytes of 0 and nothing is
/// recorded.
pub proof fn lemma_query_frame(m: Map<i32, i32>, f: Seq<u8>)
    requires
        f.len() == 9,
        f[0] == QUERY_TAG,
    ensures
        ({
            let u1 = f[1] as int * 16777216 + f[2] as int * 65536 + f[3] as int * 256 + f[4] as int;
            let u2 = f[5] as int * 16777216 + f[6] as int * 65536 + f[7] as int * 256 + f[8] as int;
            let lo = if u1 >= 2147483648 {
                u1 - 4294967296
            } else {
                u1
            };
            let hi = if u2 >= 2147483648 {
                u2 - 4294967296
            } else {
                u2
            };
            &&& frame_message(f) matches Message::Query { mintime, maxtime } && mintime == lo
                && maxtime == hi
            &&& apply_frame(m, f).0 == m
            &&& lo > hi ==> apply_frame(m, f).1 == seq![0u8, 0u8, 0u8, 0u8]
        }),
{
    lemma_frame_field(f, 1);
    lemma_frame_field(f, 5);
    if let Message::Query { mintime, maxtime } = frame_message(f) {
        lemma_window_mean(m, mintime, maxtime);
        assert(i32_be_bytes(0) =~= seq![0u8, 0u8, 0u8, 0u8]);
    }
}

/// A frame opening with `I` records the big-endian integer in its bytes 5
/// to 8 as the price at the one in its bytes 1 to 4: that timestamp then maps
/// to that price, every other timestamp keeps what it had, and nothing is
/// sent.
pub proof fn lemma_insert_frame(m: Map<i32, i32>, f: Seq<u8>)
    requires
        f.len() == 9,
        f[0] == INSERT_TAG,
    ensures
        ({
            let u1 = f[1] as int * 16777216 + f[2] as int * 65536 + f[3] as int * 256 + f[4] as int;
            let u2 = f[5] as int * 16777216 + f[6] as int * 65536 + f[7] as int * 256 + f[8] as int;
            let t = if u1 >= 2147483648 {
                u1 - 4294967296
            } else {
                u1
            };
            let p = if u2 >= 2147483648 {
                u2 - 4294967296
            } else {
                u2
            };
            let (m2, out) = apply_frame(m, f);
            &&& out.len() == 0
            &&& exists|k: i32| k == t && m2.contains_key(k) && m2[k] == p
            &&& forall|k: i32|
                k != t ==> (m2.contains_key(k) <==> m.contains_key(k)) && (m.contains_key(k)
                    ==> m2[k] == m[k])
            &&& forall|k: i32| m2.contains_key(k) ==> k == t || m.contains_key(k)
        }),
{
    lemma_frame_field(f, 1);
    lemma_frame_field(f, 5);
    if let Message::Insert { timestamp, price } = frame_message(f) {
        let m2 = apply_frame(m, f).0;
        assert(m2.contains_key(timestamp) && m2[timestamp] == price);
    }
}

/// The bytes left waiting after a read are the last `len % 9` bytes of the
/// unfinished frame and the read together: fewer than nine, and nothing is
/// waiting after a whole number of frames.
pub proof fn lemma_feed_leftover(m: Map<i32, i32>, pending: Seq<u8>, data: Seq<u8>)
    ensures
        ({
            let all = pending + data;
            let left = feed(m, pending, data).2;
            &&& left.len() == all.len() % 9
            &&& left == all.subrange(all.len() - all.len() % 9, all.len() as int)
        }),
{
    let all = pending + data;
    let n = all.len() as int;
    assert(9 * (n / 9) == n - n % 9) by (nonlinear_arith);
}

/// Receiving exactly one frame on an empty buffer applies that frame: the
/// history and the answer are those of the frame, and nothing is left over.
pub proof fn lemma_feed_one_frame(m: Map<i32, i32>, frame: Seq<u8>)
    requires
        frame.len() == 9,
    ensures
        feed(m, Seq::empty(), frame) == (apply_frame(m, frame).0, apply_frame(m, frame).1, Seq::<
            u8,
        >::empty()),
{
    let all = Seq::<u8>::empty() + frame;
    assert(all =~= frame);
    assert(whole_frames(all) == 1);
    assert(frame_at(all, 0) =~= frame);
    assert(run_frames(m, all, 0) == (m, Seq::<u8>::empty()));
    assert(Seq::<u8>::empty() + apply_frame(m, frame).1 =~= apply_frame(m, frame).1);
    assert(run_frames(m, all, 1) == (apply_frame(m, frame).0, apply_frame(m, frame).1));
    assert(partial_frame(all) =~= Seq::<u8>::empty());
}

} // verus!

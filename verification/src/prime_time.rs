//! The primality service: clients send one JSON request per line, each asking
//! whether a number is prime; every well-formed request is answered with one
//! JSON line.  Turning lines into requests and replies into JSON is left to
//! the caller: this module decides what each request is answered.

use vstd::prelude::*;
use vstd::string::StringExecFns;
use crate::lines::{
    after_first_line, append_bytes, find_newline, first_line, has_newline, lemma_first_newline_unique,
    take_prefix,
};

verus! {

/// The number in a request, as far as the answer depends on it.
#[derive(Clone, Copy, Debug, PartialEq, Eq, Structural)]
pub enum Number {
    /// A number that was read as a floating-point value.
    Float,
    /// A number that was read as an integer.
    Integer(isize),
}

/// A decoded request line.
pub struct Request {
    pub method: String,
    pub number: Number,
}

/// The answer to a well-formed request.
pub struct Response {
    pub method: String,
    pub prime: bool,
}

/// The answer to a request that cannot be served.
pub struct MalformedResponse {
    pub error: String,
}

/// What the connection does with one request line.
pub enum PrimeAction {
    /// Send the response; the line is consumed and the next line can follow.
    Answer(Response),
    /// Send the error; the line stays in the buffer and nothing more is read
    /// from it until more bytes arrive.
    Refuse(MalformedResponse),
    /// Send the error and close the connection.
    Fail(MalformedResponse),
}

/// Name for what `is_prime::is_prime` answers for the decimal digits of `n`.
pub uninterp spec fn miller_rabin_accepts(n: int) -> bool;

/// Calls `is_prime::is_prime` on the decimal digits of `n`.  That function
/// runs a Miller-Rabin test whose bases depend only on its input; its result
/// is named `miller_rabin_accepts`.  Its source answers `false` below 2,
/// `true` for 2, 3 and 5, and `false` for the other even numbers.  It does not
/// promise that every number it accepts is prime, so no such clause is stated.
#[verifier::external_body]
fn miller_rabin_test(n: isize) -> (r: bool)
    requires
        n >= 0,
    ensures
        r == miller_rabin_accepts(n as int),
        n < 2 ==> !r,
        (n == 2 || n == 3 || n == 5) ==> r,
        (n > 2 && n % 2 == 0) ==> !r,
{
    is_prime::is_prime(&n.to_string())
}

/// Name for the text that `{:?}` formatting gives of a string (the string
/// quoted, with special characters escaped).
pub uninterp spec fn debug_text(s: Seq<char>) -> Seq<char>;

/// Formats `s` with `{:?}`, as `format!` does; the result is named
/// `debug_text`.
#[verifier::external_body]
fn debug_quote(s: &str) -> (r: String)
    ensures
        r@ == debug_text(s@),
{
    format!("{:?}", s)
}

/// The only method the service knows.
pub open spec fn known_method() -> Seq<char> {
    "isPrime"@
}

/// Whether the answer for `number` says prime.
pub open spec fn number_is_prime(number: Number) -> bool {
    match number {
        Number::Float => false,
        Number::Integer(n) => n >= 0 && miller_rabin_accepts(n as int),
    }
}

/// The error text sent for an unknown method.
pub open spec fn method_not_found_text(method: Seq<char>) -> Seq<char> {
    "Method not found: "@ + debug_text(method)
}

/// Whether the answer for `number` says prime: never for a non-integer or a
/// negative integer, otherwise what the Miller-Rabin test says.
pub fn is_prime_number(number: &Number) -> (r: bool)
    ensures
        r == number_is_prime(*number),
{
    match number {
        Number::Float => false,
        Number::Integer(n) => {
            if *n < 0 {
                false
            } else {
                miller_rabin_test(*n)
            }
        },
    }
}

/// The verdict on a request's number is the verdict of `is_prime::is_prime`
/// on its decimal digits when it is a non-negative integer, and `false`
/// otherwise: nothing else can make a number count as prime.
pub proof fn lemma_verdict_is_miller_rabin(number: Number)
    ensures
        number_is_prime(number) <==> (exists|n: isize|
            number == Number::Integer(n) && 0 <= n && miller_rabin_accepts(n as int)),
{
    if let Number::Integer(n) = number {
        if number_is_prime(number) {
            assert(number == Number::Integer(n) && 0 <= n && miller_rabin_accepts(n as int));
        }
    }
}

/// Whether `method` is the method the service knows.
pub fn is_known_method(method: &String) -> (r: bool)
    ensures
        r == (method@ == known_method()),
{
    let known = String::from_str("isPrime");
    *method == known
}

/// The error sent for a request whose method is `method`.
pub fn method_not_found(method: &String) -> (r: MalformedResponse)
    ensures
        r.error@ == method_not_found_text(method@),
{
    let mut error = String::from_str("Method not found: ");
    let quoted = debug_quote(method.as_str());
    error.append(quoted.as_str());
    MalformedResponse { error }
}

/// One client connection: the bytes received and not yet consumed.
pub struct PrimeSession {
    pending: Vec<u8>,
}

impl PrimeSession {
    /// The bytes received and not yet consumed.
    pub closed spec fn pending(&self) -> Seq<u8> {
        self.pending@
    }

    /// A fresh connection.
    pub fn new() -> (s: Self)
        ensures
            s.pending() == Seq::<u8>::empty(),
    {
        PrimeSession { pending: Vec::new() }
    }

    /// Takes in bytes received from the client.
    pub fn receive(&mut self, data: &[u8])
        ensures
            final(self).pending() == old(self).pending() + data@,
    {
        append_bytes(&mut self.pending, data);
    }

    /// The first complete line waiting, its newline included; `None` when no
    /// line is complete yet.
    pub fn next_line(&self) -> (line: Option<Vec<u8>>)
        ensures
            match line {
                Some(l) => has_newline(self.pending()) && l@ == first_line(self.pending()),
                None => !has_newline(self.pending()),
            },
    {
        match find_newline(self.pending.as_slice()) {
            Some(i) => {
                proof {
                    lemma_first_newline_unique(self.pending@, i as int);
                }
                let mut line: Vec<u8> = Vec::new();
                append_bytes(&mut line, vstd::slice::slice_subrange(self.pending.as_slice(), 0, i + 1));
                Some(line)
            },
            None => None,
        }
    }

    /// Decides what the first waiting line is answered, given what it
    /// decoded to (`Err` holds the text of the decoding error), and consumes
    /// the line when it is answered.
    pub fn handle(&mut self, decoded: Result<Request, String>) -> (action: PrimeAction)
        requires
            has_newline(old(self).pending()),
        ensures
            match decoded {
                Err(e) => {
                    &&& action matches PrimeAction::Fail(r) && r.error@ == e@
                    &&& final(self).pending() == old(self).pending()
                },
                Ok(request) => if request.method@ == known_method() {
                    &&& action matches PrimeAction::Answer(r) && r.method@ == request.method@
                        && r.prime == number_is_prime(request.number)
                    &&& final(self).pending() == after_first_line(old(self).pending())
                } else {
                    &&& action matches PrimeAction::Refuse(r) && r.error@ == method_not_found_text(
                        request.method@,
                    )
                    &&& final(self).pending() == old(self).pending()
                },
            },
    {
        match decoded {
            Err(e) => PrimeAction::Fail(MalformedResponse { error: e }),
            Ok(request) => {
                if is_known_method(&request.method) {
                    let prime = is_prime_number(&request.number);
                    self.answer(request, prime)
                } else {
                    PrimeAction::Refuse(method_not_found(&request.method))
                }
            },
        }
    }

    /// Answers the first waiting line, a request for the known method, with
    /// the verdict `prime`, and consumes the line.
    pub fn answer(&mut self, request: Request, prime: bool) -> (action: PrimeAction)
        requires
            has_newline(old(self).pending()),
            request.method@ == known_method(),
        ensures
            action matches PrimeAction::Answer(r) && r.method@ == request.method@ && r.prime == prime,
            final(self).pending() == after_first_line(old(self).pending()),
    {
        let i = match find_newline(self.pending.as_slice()) {
            Some(i) => i,
            None => 0,
        };
        proof {
            lemma_first_newline_unique(self.pending@, i as int);
        }
        let _line = take_prefix(&mut self.pending, i + 1);
        PrimeAction::Answer(Response { method: request.method, prime })
    }

    /// The bytes that the connection sends back when the client closes it:
    /// everything received and not consumed.
    pub fn remainder(&self) -> (rest: Vec<u8>)
        ensures
            rest@ == self.pending(),
    {
        self.pending.clone()
    }
}

} // verus!

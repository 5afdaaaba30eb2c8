//! The chat room: the first line a client sends is its name, every later
//! line is a message to everyone else in the room; joins, messages and
//! departures are relayed to the other members.

use vstd::prelude::*;
use vstd::string::StringExecFns;
use vstd::utf8::{decode_utf8, valid_utf8};
use crate::lines::{
    after_first_line, append_bytes, find_newline, first_line, has_newline, is_first_newline,
    lemma_first_newline_unique, take_prefix,
};

verus! {

/// A slot that holds a value once one has been written.
pub struct ValueHolder<T> {
    value: Option<T>,
}

impl<T: Clone> ValueHolder<T> {
    /// The value held, if any.
    pub closed spec fn value(&self) -> Option<T> {
        self.value
    }

    /// An empty slot.
    pub fn new() -> (h: Self)
        ensures
            h.value() is None,
    {
        ValueHolder { value: None }
    }

    /// A copy of the value held, if any.
    pub fn read(&self) -> (r: Option<T>)
        ensures
            r is None <==> self.value() is None,
            r is Some ==> cloned(self.value().unwrap(), r.unwrap()),
    {
        self.value.clone()
    }

    /// Stores `value` and gives back the value held before.
    pub fn write(&mut self, value: T) -> (previous: Option<T>)
        ensures
            final(self).value() == Some(value),
            previous == old(self).value(),
    {
        let mut slot = Some(value);
        core::mem::swap(&mut self.value, &mut slot);
        slot
    }
}

/// Name for the text that `String::from_utf8_lossy` makes of `bytes`.
pub uninterp spec fn lossy_utf8(bytes: Seq<u8>) -> Seq<char>;

/// Calls `String::from_utf8_lossy` and takes the result as an owned string.
/// Its result is named `lossy_utf8`; as its documentation says, valid UTF-8
/// is decoded as it stands.
#[verifier::external_body]
fn utf8_lossy(bytes: &[u8]) -> (s: String)
    ensures
        s@ == lossy_utf8(bytes@),
        valid_utf8(bytes@) ==> s@ == decode_utf8(bytes@),
{
    String::from_utf8_lossy(bytes).into_owned()
}

/// `c` has the Unicode property White_Space, by which `char::is_whitespace`
/// and `str::trim` are documented.
pub open spec fn is_white_space(c: char) -> bool {
    let u = c as u32;
    ||| 0x09 <= u <= 0x0d
    ||| u == 0x20
    ||| u == 0x85
    ||| u == 0xa0
    ||| u == 0x1680
    ||| 0x2000 <= u <= 0x200a
    ||| u == 0x2028
    ||| u == 0x2029
    ||| u == 0x202f
    ||| u == 0x205f
    ||| u == 0x3000
}

/// `s` without its leading white space.
pub open spec fn trim_start(s: Seq<char>) -> Seq<char>
    decreases s.len(),
{
    if s.len() > 0 && is_white_space(s[0]) {
        trim_start(s.drop_first())
    } else {
        s
    }
}

/// `s` without its trailing white space.
pub open spec fn trim_end(s: Seq<char>) -> Seq<char>
    decreases s.len(),
{
    if s.len() > 0 && is_white_space(s.last()) {
        trim_end(s.drop_last())
    } else {
        s
    }
}

/// `s` without its leading and trailing white space.
pub open spec fn trimmed(s: Seq<char>) -> Seq<char> {
    trim_end(trim_start(s))
}

/// Calls `str::trim`, which, as its documentation says, removes the leading
/// and trailing characters that have the Unicode property White_Space.
#[verifier::external_body]
fn trim_text(s: &str) -> (r: String)
    ensures
        r@ == trimmed(s@),
{
    s.trim().to_string()
}

/// The bytes received on one connection that do not yet end a line.
pub struct Connection {
    buffer: Vec<u8>,
}

impl Connection {
    /// The bytes received and not yet taken as lines.
    pub closed spec fn buffer(&self) -> Seq<u8> {
        self.buffer@
    }

    /// A connection with nothing received.
    pub fn new() -> (c: Self)
        ensures
            c.buffer() == Seq::<u8>::empty(),
    {
        Connection { buffer: Vec::new() }
    }

    /// Position of the first newline received, if any.
    pub fn get_next_newline_index(&self) -> (res: Option<usize>)
        ensures
            match res {
                Some(i) => is_first_newline(self.buffer(), i as int),
                None => !has_newline(self.buffer()),
            },
    {
        find_newline(self.buffer.as_slice())
    }

    /// Takes in bytes received from the client.
    pub fn receive(&mut self, data: &[u8])
        ensures
            final(self).buffer() == old(self).buffer() + data@,
    {
        append_bytes(&mut self.buffer, data);
    }

    /// Takes the first complete line out of the buffer, its newline included,
    /// as text; `None`, with the buffer unchanged, when no line is complete.
    pub fn read_next_chunk(&mut self) -> (chunk: Option<String>)
        ensures
            match chunk {
                Some(c) => {
                    &&& has_newline(old(self).buffer())
                    &&& c@ == lossy_utf8(first_line(old(self).buffer()))
                    &&& valid_utf8(first_line(old(self).buffer())) ==> c@ == decode_utf8(
                        first_line(old(self).buffer()),
                    )
                    &&& final(self).buffer() == after_first_line(old(self).buffer())
                },
                None => {
                    &&& !has_newline(old(self).buffer())
                    &&& final(self).buffer() == old(self).buffer()
                },
            },
    {
        match find_newline(self.buffer.as_slice()) {
            Some(i) => {
                proof {
                    lemma_first_newline_unique(self.buffer@, i as int);
                }
                let line = take_prefix(&mut self.buffer, i + 1);
                Some(utf8_lossy(line.as_slice()))
            },
            None => None,
        }
    }
}

/// An event relayed to every connection in the room.
#[derive(Clone, Debug)]
pub enum Messages {
    /// A user chose their name and entered.
    UserJoining(String),
    /// A user sent a message: the user's name, then the message.
    UserMessage(String, String),
    /// A user left.
    UserDisconnecting(String),
}

/// What a connection does with an event relayed to it.
pub enum Delivery {
    /// Nothing.
    Skip,
    /// Send this text to its client.
    Deliver(String),
    /// Stop relaying: its own user has left.
    Stop,
}

/// The text announcing that `name` entered.
pub open spec fn entered_text(name: Seq<char>) -> Seq<char> {
    "* "@ + name + " has entered the room\n"@
}

/// The text relaying `message` from `name`.
pub open spec fn message_text(name: Seq<char>, message: Seq<char>) -> Seq<char> {
    "["@ + name + "] "@ + message + "\n"@
}

/// The text announcing that `name` left.
pub open spec fn left_text(name: Seq<char>) -> Seq<char> {
    "* "@ + name + " has left the room\n"@
}

/// The greeting sent to a new connection.
pub open spec fn welcome_text() -> Seq<char> {
    "Welcome to budgetchat! What shall I call you?\n"@
}

/// `parts` joined, with `sep` between each two.
pub open spec fn join_with(parts: Seq<Seq<char>>, sep: Seq<char>) -> Seq<char>
    decreases parts.len(),
{
    if parts.len() == 0 {
        Seq::empty()
    } else if parts.len() == 1 {
        parts[0]
    } else {
        join_with(parts.drop_last(), sep) + sep + parts.last()
    }
}

/// Total length of `parts`.
pub open spec fn total_len(parts: Seq<Seq<char>>) -> int
    decreases parts.len(),
{
    if parts.len() == 0 {
        0
    } else {
        total_len(parts.drop_last()) + parts.last().len()
    }
}

/// Joining no part gives the empty text, and joining one part gives it.
pub proof fn lemma_join_small(x: Seq<char>, sep: Seq<char>)
    ensures
        join_with(Seq::empty(), sep) == Seq::<char>::empty(),
        join_with(seq![x], sep) == x,
{
}

/// Adding a part at the end of a nonempty list adds the separator and that
/// part at the end of the joined text, so every part appears, in order.
pub proof fn lemma_join_push(parts: Seq<Seq<char>>, x: Seq<char>, sep: Seq<char>)
    requires
        parts.len() > 0,
    ensures
        join_with(parts.push(x), sep) == join_with(parts, sep) + sep + x,
{
    assert(parts.push(x).drop_last() =~= parts);
}

/// The joined text is as long as all the parts together plus one separator
/// between each two.
pub proof fn lemma_join_len(parts: Seq<Seq<char>>, sep: Seq<char>)
    requires
        parts.len() > 0,
    ensures
        join_with(parts, sep).len() == total_len(parts) + (parts.len() - 1) * sep.len(),
    decreases parts.len(),
{
    let n = parts.len() as int;
    let k = sep.len() as int;
    if n > 1 {
        lemma_join_len(parts.drop_last(), sep);
        assert((n - 1) * k == (n - 2) * k + k) by (nonlinear_arith);
    } else {
        assert(parts.drop_last() =~= Seq::<Seq<char>>::empty());
        assert(total_len(parts.drop_last()) == 0);
        assert((n - 1) * k == 0) by (nonlinear_arith)
            requires
                n == 1,
        ;
    }
}

/// The names held by `names`.
pub open spec fn name_views(names: Seq<String>) -> Seq<Seq<char>> {
    names.map_values(|s: String| s@)
}

/// The text telling a newcomer who is in the room.
pub open spec fn room_text(names: Seq<Seq<char>>) -> Seq<char> {
    "* The room contains: "@ + join_with(names, ", "@) + "\n"@
}

/// The greeting sent to a new connection.
pub fn welcome() -> (text: String)
    ensures
        text@ == welcome_text(),
{
    String::from_str("Welcome to budgetchat! What shall I call you?\n")
}

/// `names` joined, with `sep` between each two.
pub fn join_names(names: &Vec<String>, sep: &str) -> (text: String)
    ensures
        text@ == join_with(name_views(names@), sep@),
{
    let ghost views = name_views(names@);
    let mut text = String::new();
    let mut i: usize = 0;
    while i < names.len()
        invariant
            i <= names@.len(),
            views == name_views(names@),
            text@ == join_with(views.subrange(0, i as int), sep@),
        decreases names@.len() - i,
    {
        assert(views.subrange(0, i + 1).drop_last() =~= views.subrange(0, i as int));
        if i > 0 {
            text.append(sep);
        } else {
            assert(views.subrange(0, 0) =~= Seq::<Seq<char>>::empty());
            assert(text@ =~= Seq::<char>::empty());
        }
        text.append(names[i].as_str());
        i = i + 1;
        proof {
            if i == 1 {
                assert(text@ =~= views.subrange(0, 1)[0]);
            }
        }
    }
    assert(views.subrange(0, names@.len() as int) =~= views);
    text
}

/// What a connection whose user is `local_name` does with the relayed event
/// `message`: nothing before its user has a name; otherwise it passes on the
/// events of other users and stops when its own user leaves.
pub fn relay(local_name: &Option<String>, message: &Messages) -> (d: Delivery)
    ensures
        match local_name {
            None => d is Skip,
            Some(local) => match message {
                Messages::UserJoining(name) => if name@ != local@ {
                    d matches Delivery::Deliver(t) && t@ == entered_text(name@)
                } else {
                    d is Skip
                },
                Messages::UserMessage(name, text) => if name@ != local@ {
                    d matches Delivery::Deliver(t) && t@ == message_text(name@, text@)
                } else {
                    d is Skip
                },
                Messages::UserDisconnecting(name) => if name@ != local@ {
                    d matches Delivery::Deliver(t) && t@ == left_text(name@)
                } else {
                    d is Stop
                },
            },
        },
{
    match local_name {
        None => Delivery::Skip,
        Some(local) => match message {
            Messages::UserJoining(name) => {
                if *name != *local {
                    let mut t = String::from_str("* ");
                    t.append(name.as_str());
                    t.append(" has entered the room\n");
                    Delivery::Deliver(t)
                } else {
                    Delivery::Skip
                }
            },
            Messages::UserMessage(name, text) => {
                if *name != *local {
                    let mut t = String::from_str("[");
                    t.append(name.as_str());
                    t.append("] ");
                    t.append(text.as_str());
                    t.append("\n");
                    Delivery::Deliver(t)
                } else {
                    Delivery::Skip
                }
            },
            Messages::UserDisconnecting(name) => {
                if *name != *local {
                    let mut t = String::from_str("* ");
                    t.append(name.as_str());
                    t.append(" has left the room\n");
                    Delivery::Deliver(t)
                } else {
                    Delivery::Stop
                }
            },
        },
    }
}

/// What a connection does with one line from its client.
pub struct LineOutcome {
    /// The event to relay to the room.
    pub broadcast: Messages,
    /// Text to send back to the client, if any.
    pub reply: Option<String>,
    /// A name to add to the room's list, if any.
    pub joined: Option<String>,
}

/// Handles one line from the client whose name slot is `name`, with `room`
/// the names of those who joined before.  The first line, trimmed, becomes
/// the client's name: the join is relayed, the client is told who is in the
/// room, and the name is to be added to the room.  Every later line,
/// trimmed, is relayed as a message from the client.
pub fn on_line(name: &mut ValueHolder<String>, room: &Vec<String>, line: &str) -> (o: LineOutcome)
    ensures
        match old(name).value() {
            Some(n) => {
                &&& final(name).value() == old(name).value()
                &&& o.broadcast matches Messages::UserMessage(sender, text) && sender@ == n@
                    && text@ == trimmed(line@)
                &&& o.reply is None
                &&& o.joined is None
            },
            None => {
                &&& final(name).value() matches Some(n) && n@ == trimmed(line@)
                &&& o.broadcast matches Messages::UserJoining(j) && j@ == trimmed(line@)
                &&& o.reply matches Some(r) && r@ == room_text(name_views(room@))
                &&& o.joined matches Some(j) && j@ == trimmed(line@)
            },
        },
{
    let text = trim_text(line);
    match name.read() {
        Some(sender) => {
            LineOutcome { broadcast: Messages::UserMessage(sender, text), reply: None, joined: None }
        },
        None => {
            let _previous = name.write(text.clone());
            let mut reply = String::from_str("* The room contains: ");
            let others = join_names(room, ", ");
            reply.append(others.as_str());
            reply.append("\n");
            LineOutcome {
                broadcast: Messages::UserJoining(text.clone()),
                reply: Some(reply),
                joined: Some(text),
            }
        },
    }
}

/// The event relayed when the client whose name slot is `name` goes away:
/// its departure, if it ever gave a name.
pub fn farewell(name: &ValueHolder<String>) -> (m: Option<Messages>)
    ensures
        match name.value() {
            Some(n) => m matches Some(Messages::UserDisconnecting(d)) && d@ == n@,
            None => m is None,
        },
{
    match name.read() {
        Some(n) => Some(Messages::UserDisconnecting(n)),
        None => None,
    }
}

} // verus!

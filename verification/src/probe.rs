//! What a program that parsers are attached to and tried out with is set up
//! with, and what is read out of it.

use crate::bench::{pad, padded};
use crate::h2::conn::Ip4Conn;
use crate::MessageBuffer;
use vstd::prelude::*;
use vstd::string::*;

verus! {

/// The direction of the messages to parse. Requests travel downstream to the
/// server, responses upstream to the client.
#[derive(Clone, Copy, Debug, PartialEq, Eq, Structural)]
pub enum Direction {
    /// The requests the server receives.
    Downstream,

    /// The responses the server sends.
    Upstream,
}

/// The hook the program parses messages at.
#[derive(Clone, Copy, Debug, PartialEq, Eq, Structural)]
pub enum Hook {
    /// `sk_msg`, as the messages are sent.
    Msg,

    /// `sk_skb`, as the messages arrive.
    Skb,

    /// A buffer handed over as a dynptr, parsed on demand rather than on a
    /// socket.
    Buf,
}

impl Hook {
    /// The name the programs at the hook are told apart by.
    pub open spec fn name(self) -> Seq<char> {
        match self {
            Hook::Msg => "msg"@,
            Hook::Skb => "skb"@,
            Hook::Buf => "buf"@,
        }
    }

    /// Returns the name the programs at the hook are told apart by.
    pub fn to_string(&self) -> (r: &'static str)
        ensures
            r@ == self.name(),
    {
        match self {
            Hook::Msg => "msg",
            Hook::Skb => "skb",
            Hook::Buf => "buf",
        }
    }
}

impl From<Hook> for MessageBuffer {
    fn from(hook: Hook) -> (r: MessageBuffer)
    {
        match hook {
            Hook::Msg => MessageBuffer::Msg,
            Hook::Skb => MessageBuffer::Skb,
            Hook::Buf => MessageBuffer::DynPtr,
        }
    }
}

impl vstd::std_specs::convert::FromSpecImpl<Hook> for MessageBuffer {
    open spec fn obeys_from_spec() -> bool {
        true
    }

    open spec fn from_spec(hook: Hook) -> MessageBuffer {
        match hook {
            Hook::Msg => MessageBuffer::Msg,
            Hook::Skb => MessageBuffer::Skb,
            Hook::Buf => MessageBuffer::DynPtr,
        }
    }
}

/// No two hooks hand a parser the same kind of buffer, or go by the same name.
pub proof fn law_hooks_are_told_apart(a: Hook, b: Hook)
    ensures
        <MessageBuffer as vstd::std_specs::convert::FromSpec<Hook>>::from_spec(a)
            == <MessageBuffer as vstd::std_specs::convert::FromSpec<Hook>>::from_spec(b) ==> a == b,
        a.name() == b.name() ==> a == b,
{
    reveal_strlit("msg");
    reveal_strlit("skb");
    reveal_strlit("buf");
    assert("msg"@[0] == 'm' && "skb"@[0] == 's' && "buf"@[0] == 'b');
}

/// What the program is told before it is loaded.
#[derive(Clone, Copy, Debug, PartialEq, Eq, Structural)]
pub struct Options {
    /// Whether it parses responses rather than requests.
    pub parse_resp: bool,

    /// Whether it parses messages as they arrive.
    pub hook_skb: bool,
}

impl Options {
    /// Returns what the program is told to parse the messages travelling in
    /// `direction` at `hook`.
    pub fn new(direction: Direction, hook: Hook) -> (r: Options)
        ensures
            r.parse_resp == (direction == Direction::Upstream),
            r.hook_skb == (hook == Hook::Skb),
    {
        Options { parse_resp: direction == Direction::Upstream, hook_skb: hook == Hook::Skb }
    }
}

/// The bytes before the first zero.
pub open spec fn until_zero(val: Seq<u8>) -> Seq<u8>
    decreases val.len(),
{
    if val.len() == 0 || val[0] == 0 {
        Seq::empty()
    } else {
        seq![val[0]] + until_zero(val.drop_first())
    }
}

/// Returns the range a match is stored with, which ends before the first zero
/// behind it.
pub fn stored_range(val: &[u8]) -> (r: Vec<u8>)
    ensures
        r@ == until_zero(val@),
{
    let mut out: Vec<u8> = Vec::new();
    let mut i: usize = 0;
    assert(val@.skip(0) =~= val@);
    assert(Seq::<u8>::empty() + until_zero(val@) =~= until_zero(val@));
    while i < val.len() && val[i] != 0
        invariant
            i <= val@.len(),
            until_zero(val@) == out@ + until_zero(val@.skip(i as int)),
        decreases val@.len() - i,
    {
        proof {
            let rest = val@.skip(i as int);
            assert(rest.drop_first() =~= val@.skip(i + 1));
            assert(out@ + (seq![rest[0]] + until_zero(rest.drop_first())) =~= out@.push(rest[0])
                + until_zero(rest.drop_first()));
        }
        out.push(val[i]);
        i += 1;
    }
    assert(until_zero(val@.skip(i as int)) =~= Seq::empty());
    assert(out@ + Seq::<u8>::empty() =~= out@);
    out
}

/// A buffer handed to the program to parse.
pub struct BufArgs {
    /// The length of the message.
    pub len: u32,

    /// The message, followed by zeros.
    pub data: Vec<u8>,

    /// The connection the message belongs to if it is an HTTP/2 frame. It is an
    /// HTTP/1.x message otherwise.
    pub conn: Option<Ip4Conn>,
}

/// The buffer has no room for the message.
#[derive(Clone, Copy, Debug, PartialEq, Eq, Structural)]
pub struct DoesNotFit;

impl DoesNotFit {
    /// Returns the sentence that says what went wrong.
    pub fn to_string(&self) -> (r: String)
        ensures
            r@ == "buffer does not fit"@,
    {
        "buffer does not fit".to_owned()
    }
}

impl BufArgs {
    /// Returns `buf` as the program is handed it in a buffer of `room` bytes, as
    /// HTTP/2 if `conn` names the connection it belongs to and as HTTP/1.x
    /// otherwise.
    ///
    /// # Errors
    ///
    /// Returns an error if the buffer has no room for the message.
    pub fn new(buf: &[u8], room: u32, conn: Option<Ip4Conn>) -> (r: Result<BufArgs, DoesNotFit>)
        ensures
            match r {
                Ok(args) => {
                    &&& buf@.len() <= room
                    &&& args.len == buf@.len()
                    &&& args.data@ == padded(buf@, room as nat)
                    &&& args.conn == conn
                },
                Err(_) => buf@.len() > room,
            },
    {
        if buf.len() > room as usize {
            return Err(DoesNotFit);
        }
        Ok(BufArgs { len: buf.len() as u32, data: pad(buf, room as usize), conn })
    }
}

/// The range of a match is what comes before the first zero: it holds none, and
/// what follows it is a zero unless it is all there is.
pub proof fn law_range_ends_before_the_first_zero(val: Seq<u8>)
    ensures
        ({
            let r = until_zero(val);
            &&& r.len() <= val.len()
            &&& val.take(r.len() as int) == r
            &&& forall|i: int| 0 <= i < r.len() ==> #[trigger] r[i] != 0
            &&& r.len() < val.len() ==> val[r.len() as int] == 0
        }),
    decreases val.len(),
{
    let r = until_zero(val);
    if val.len() > 0 && val[0] != 0 {
        let rest = val.drop_first();
        law_range_ends_before_the_first_zero(rest);
        let s = until_zero(rest);
        assert(r =~= seq![val[0]] + s);
        assert forall|i: int| 0 <= i < r.len() implies r[i] != 0 && r[i] == val[i] by {
            if i > 0 {
                assert(r[i] == s[i - 1]);
                assert(s[i - 1] == rest.take(s.len() as int)[i - 1]);
            }
        }
        if r.len() < val.len() {
            assert(val[r.len() as int] == rest[s.len() as int]);
        }
    }
    assert(val.take(r.len() as int) =~= r);
}

/// A parser at a hook is handed the buffer messages are in there: one at `sk_msg`
/// messages that are sent, one at `sk_skb` those that arrive, and one that is
/// handed a buffer a pointer to it.
pub proof fn law_hooks_hand_over_their_buffers(hook: Hook)
    ensures
        ({
            let buf = <MessageBuffer as vstd::std_specs::convert::FromSpec<Hook>>::from_spec(hook);
            &&& hook is Msg <==> buf is Msg
            &&& hook is Skb <==> buf is Skb
            &&& hook is Buf <==> buf is DynPtr
        }),
        hook is Msg ==> hook.name() == seq!['m', 's', 'g'],
        hook is Skb ==> hook.name() == seq!['s', 'k', 'b'],
        hook is Buf ==> hook.name() == seq!['b', 'u', 'f'],
{
    reveal_strlit("msg");
    reveal_strlit("skb");
    reveal_strlit("buf");
    assert("msg"@ =~= seq!['m', 's', 'g']);
    assert("skb"@ =~= seq!['s', 'k', 'b']);
    assert("buf"@ =~= seq!['b', 'u', 'f']);
}

} // verus!

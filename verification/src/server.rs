//! What an echo server answers, and how a Redis server is launched and waited
//! for.

use crate::text::{decimal, format_decimal, law_digits_stand_for_the_number, value_of};
use vstd::prelude::*;
use vstd::string::*;
use vstd::utf8::{decode_utf8, decode_utf8_encode_utf8, encode_utf8, valid_utf8};

verus! {

/// The status a request is refused with whose body is no text.
pub const BAD_REQUEST: u16 = 400;

/// Decodes `bytes` with [`String::from_utf8`], which refuses them if and only if
/// they are not valid UTF-8, and keeps them as they are otherwise.
#[verifier::external_body]
fn from_utf8(bytes: Vec<u8>) -> (r: Option<String>)
    ensures
        match r {
            Some(s) => valid_utf8(bytes@) && s@ == decode_utf8(bytes@),
            None => !valid_utf8(bytes@),
        },
{
    String::from_utf8(bytes).ok()
}

/// Returns the body a request is answered with, which is its own, or the status
/// it is refused with if that is not valid UTF-8.
pub fn echo(body: Vec<u8>) -> (r: Result<String, u16>)
    ensures
        match r {
            Ok(text) => valid_utf8(body@) && encode_utf8(text@) == body@,
            Err(status) => !valid_utf8(body@) && status == BAD_REQUEST,
        },
{
    let ghost bytes = body@;
    match from_utf8(body) {
        Some(text) => {
            proof {
                decode_utf8_encode_utf8(bytes);
            }
            Ok(text)
        },
        None => Err(BAD_REQUEST),
    }
}

/// How often a server is tried to be connected to before it is given up on.
pub const ATTEMPTS: u32 = 50;

/// The number of milliseconds between two attempts.
pub const PAUSE_MS: u64 = 100;

/// What to do after an attempt to connect to a server.
#[derive(Clone, Copy, Debug, PartialEq, Eq, Structural)]
pub enum Step {
    /// The server accepts connections.
    Ready,

    /// Pause, and make the attempt with that number.
    Retry(u32),

    /// Pause, and give up.
    GiveUp,
}

/// Returns what to do after the attempt with the number `attempt`, which
/// starts at zero.
pub fn after_attempt(attempt: u32, connected: bool) -> (r: Step)
    ensures
        r == if connected {
            Step::Ready
        } else if attempt + 1 < ATTEMPTS {
            Step::Retry((attempt + 1) as u32)
        } else {
            Step::GiveUp
        },
{
    if connected {
        Step::Ready
    } else if attempt < ATTEMPTS - 1 {
        Step::Retry(attempt + 1)
    } else {
        Step::GiveUp
    }
}

/// The arguments `redis-server` is launched with to listen on `port` of
/// localhost without persistence.
pub open spec fn redis_arguments(port: u16) -> Seq<Seq<char>> {
    seq![
        "--bind"@,
        "127.0.0.1"@,
        "--port"@,
        decimal(port as nat),
        "--save"@,
        ""@,
        "--appendonly"@,
        "no"@,
    ]
}

/// Returns the arguments `redis-server` is launched with to listen on `port` of
/// localhost without persistence.
pub fn redis_args(port: u16) -> (r: Vec<String>)
    ensures
        r@.map_values(|s: String| s@) == redis_arguments(port),
{
    let mut args: Vec<String> = Vec::new();
    args.push("--bind".to_owned());
    args.push("127.0.0.1".to_owned());
    args.push("--port".to_owned());
    args.push(format_decimal(port as usize));
    args.push("--save".to_owned());
    args.push("".to_owned());
    args.push("--appendonly".to_owned());
    args.push("no".to_owned());
    assert(args@.map_values(|s: String| s@) =~= redis_arguments(port));
    args
}

/// A server is waited for five seconds before it is given up on, in pauses of a
/// tenth of a second.
pub proof fn law_server_is_waited_for_five_seconds()
    ensures
        ATTEMPTS * PAUSE_MS == 5000,
        PAUSE_MS == 100,
        BAD_REQUEST == 400,
{
}

/// The port is what `redis-server` is told behind `--port`, in decimal digits, and
/// nothing else depends on it.
pub proof fn law_server_listens_on_the_port(port: u16, other: u16)
    ensures
        redis_arguments(port).len() == 8,
        redis_arguments(port)[2] == seq!['-', '-', 'p', 'o', 'r', 't'],
        value_of(redis_arguments(port)[3]) == port,
        redis_arguments(other) == redis_arguments(port).update(3, redis_arguments(other)[3]),
        redis_arguments(port)[0] == "--bind"@,
        redis_arguments(port)[1] == "127.0.0.1"@,
        redis_arguments(port)[4] == "--save"@,
        redis_arguments(port)[5] == ""@,
        redis_arguments(port)[6] == "--appendonly"@,
        redis_arguments(port)[7] == "no"@,
{
    law_digits_stand_for_the_number(port as nat);
    reveal_strlit("--port");
    assert("--port"@ =~= seq!['-', '-', 'p', 'o', 'r', 't']);
    assert(redis_arguments(other) =~= redis_arguments(port).update(
        3,
        redis_arguments(other)[3],
    ));
}

} // verus!

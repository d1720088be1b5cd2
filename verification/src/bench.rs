//! What a benchmark program is run with, and what it reports.

use crate::text::{decimal, format_decimal, law_digits_stand_for_the_number, value_of};
use vstd::prelude::*;
use vstd::string::*;

verus! {

/// The number of bytes a benchmark program parses at most.
///
/// This is the length of the slice the parsers read out of a dynptr, so it is
/// also how much of the buffer they see. Must stay in sync with
/// `BEEPER_BUF_LEN` of beeper.h.
pub const BUF_LEN: usize = 1024;

/// What a benchmark program is run with. Must stay in sync with `bench_args` of
/// the parser programs.
pub struct Args {
    /// How often the message is parsed.
    pub n: u32,

    /// The length of the message.
    pub len: u32,

    /// The message, followed by zeros up to [`BUF_LEN`].
    pub buf: Vec<u8>,
}

/// The ways a benchmark can fail.
#[derive(Clone, Copy, Debug, PartialEq, Eq, Structural)]
pub enum BenchError {
    /// The message is longer than what a benchmark program parses. Its length
    /// is carried along.
    TooLong(usize),

    /// The message is not to be parsed at all.
    NoPass,

    /// The benchmark program did not parse the message. What it reported is
    /// carried along.
    NotParsed(i32),
}

/// The decimal digits of `n`, behind a minus sign if it is negative.
pub open spec fn signed_decimal(n: int) -> Seq<char> {
    if n < 0 {
        "-"@ + decimal((-n) as nat)
    } else {
        decimal(n as nat)
    }
}

/// Formats `n`, see [`signed_decimal`].
fn format_signed(n: i32) -> (r: String)
    ensures
        r@ == signed_decimal(n as int),
{
    if n < 0 {
        let mut s = "-".to_owned();
        s.append(format_decimal((-(n as i64)) as usize).as_str());
        s
    } else {
        format_decimal(n as usize)
    }
}

impl BenchError {
    /// The sentence that says what went wrong.
    pub open spec fn message(self) -> Seq<char> {
        match self {
            BenchError::TooLong(len) => "a benchmark parses at most "@ + decimal(BUF_LEN as nat)
                + " bytes, this one was given "@ + decimal(len as nat),
            BenchError::NoPass => "a benchmark has to parse at least once"@,
            BenchError::NotParsed(res) => "the benchmark program did not parse its buffer: "@
                + signed_decimal(res as int),
        }
    }

    /// Returns the sentence that says what went wrong.
    pub fn to_string(&self) -> (r: String)
        ensures
            r@ == self.message(),
    {
        match self {
            BenchError::TooLong(len) => {
                let mut s = "a benchmark parses at most ".to_owned();
                s.append(format_decimal(BUF_LEN).as_str());
                s.append(" bytes, this one was given ");
                s.append(format_decimal(*len).as_str());
                s
            },
            BenchError::NoPass => "a benchmark has to parse at least once".to_owned(),
            BenchError::NotParsed(res) => {
                let mut s = "the benchmark program did not parse its buffer: ".to_owned();
                s.append(format_signed(*res).as_str());
                s
            },
        }
    }
}

/// The message `buf`, followed by zeros up to `len`.
pub open spec fn padded(buf: Seq<u8>, len: nat) -> Seq<u8> {
    Seq::new(len, |i: int| if i < buf.len() { buf[i] } else { 0 })
}

/// Returns the message followed by zeros.
pub(crate) fn pad(buf: &[u8], len: usize) -> (r: Vec<u8>)
    requires
        buf@.len() <= len,
    ensures
        r@ == padded(buf@, len as nat),
{
    let mut out: Vec<u8> = Vec::new();
    while out.len() < len
        invariant
            out@.len() <= len,
            buf@.len() <= len,
            forall|i: int| 0 <= i < out@.len() ==> out@[i] == padded(buf@, len as nat)[i],
        decreases len - out@.len(),
    {
        let i = out.len();
        if i < buf.len() {
            out.push(buf[i]);
        } else {
            out.push(0);
        }
    }
    assert(out@ =~= padded(buf@, len as nat));
    out
}

/// Returns what a benchmark program is run with to parse `buf` `n` times.
///
/// # Errors
///
/// Returns an error if `buf` is longer than what a benchmark program parses, or
/// if it is not to be parsed at all.
pub fn args(buf: &[u8], n: u32) -> (r: Result<Args, BenchError>)
    ensures
        match r {
            Ok(args) => {
                &&& buf@.len() <= BUF_LEN
                &&& n != 0
                &&& args.n == n
                &&& args.len == buf@.len()
                &&& args.buf@ == padded(buf@, BUF_LEN as nat)
            },
            Err(BenchError::TooLong(len)) => buf@.len() > BUF_LEN && len == buf@.len(),
            Err(BenchError::NoPass) => buf@.len() <= BUF_LEN && n == 0,
            Err(BenchError::NotParsed(_)) => false,
        },
{
    if buf.len() > BUF_LEN {
        return Err(BenchError::TooLong(buf.len()));
    }
    if n == 0 {
        return Err(BenchError::NoPass);
    }
    Ok(Args { n, len: buf.len() as u32, buf: pad(buf, BUF_LEN) })
}

/// The number the bits of `value` stand for if the highest of them is a sign.
pub open spec fn signed(value: u32) -> int {
    if value < 0x8000_0000 {
        value as int
    } else {
        value - 0x1_0000_0000
    }
}

/// Returns whether a benchmark program that returned `value` parsed the message.
///
/// # Errors
///
/// Returns an error if what it returned is negative.
pub fn outcome(value: u32) -> (r: Result<(), BenchError>)
    ensures
        match r {
            Ok(()) => signed(value) >= 0,
            Err(err) => {
                &&& signed(value) < 0
                &&& err matches BenchError::NotParsed(res)
                &&& res == signed(value)
            },
        },
{
    if value < 0x8000_0000 {
        Ok(())
    } else {
        Err(BenchError::NotParsed((value as i64 - 0x1_0000_0000i64) as i32))
    }
}

/// What is behind a message is zeros, and the message is in front of them, all of
/// it if there is room for it.
pub proof fn law_padding_keeps_the_message(buf: Seq<u8>, len: nat)
    requires
        buf.len() <= len,
    ensures
        padded(buf, len).len() == len,
        padded(buf, len).take(buf.len() as int) == buf,
        forall|i: int| buf.len() <= i < len ==> #[trigger] padded(buf, len)[i] == 0,
{
    assert(padded(buf, len).take(buf.len() as int) =~= buf);
}

/// The sign of what a benchmark program returned is that of the 32 bit number in
/// two's complement: it stands for the number that is the same modulo 2 to the
/// power of 32 and that a signed number of 32 bits can hold.
pub proof fn law_sign_is_that_of_twos_complement(value: u32, n: int)
    ensures
        n == signed(value) <==> -0x8000_0000 <= n < 0x8000_0000 && n % 0x1_0000_0000 == value,
{
    if -0x8000_0000 <= n < 0x8000_0000 {
        assert(n % 0x1_0000_0000 == if n < 0 {
            n + 0x1_0000_0000
        } else {
            n
        });
    }
}

/// A benchmark program parses 1024 bytes at most.
pub proof fn law_benchmark_parses_a_kibibyte()
    ensures
        BUF_LEN == 1024,
{
}

/// What a number is written as is its decimal digits, behind a minus sign if and
/// only if it is negative.
pub proof fn law_negative_numbers_have_a_sign(n: int)
    ensures
        n >= 0 ==> value_of(signed_decimal(n)) == n,
        n < 0 ==> signed_decimal(n)[0] == '-' && value_of(signed_decimal(n).skip(1)) == -n,
{
    if n < 0 {
        reveal_strlit("-");
        law_digits_stand_for_the_number((-n) as nat);
        assert(signed_decimal(n).skip(1) =~= decimal((-n) as nat));
    } else {
        law_digits_stand_for_the_number(n as nat);
    }
}

} // verus!

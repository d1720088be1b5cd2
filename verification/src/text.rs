//! Strings, and the bytes and digits they are made of.

use vstd::prelude::*;
use vstd::string::*;
use vstd::utf8::{encode_utf8_decode_utf8, is_ascii_chars};

verus! {

/// The decimal digits of `n`, without leading zeros.
pub open spec fn digits(n: nat) -> Seq<u8>
    decreases n,
{
    let digit = (0x30 + n % 10) as u8;
    if n < 10 {
        seq![digit]
    } else {
        digits(n / 10).push(digit)
    }
}

/// The decimal digits of `n`, without leading zeros.
pub open spec fn decimal(n: nat) -> Seq<char>
    decreases n,
{
    let digit = (0x30 + n % 10) as char;
    if n < 10 {
        seq![digit]
    } else {
        decimal(n / 10).push(digit)
    }
}

/// Returns the decimal digit that stands for `n`.
fn format_digit(n: usize) -> (r: &'static str)
    requires
        n < 10,
    ensures
        r@ == seq![(0x30 + n) as char],
{
    proof {
        reveal_strlit("0");
        reveal_strlit("1");
        reveal_strlit("2");
        reveal_strlit("3");
        reveal_strlit("4");
        reveal_strlit("5");
        reveal_strlit("6");
        reveal_strlit("7");
        reveal_strlit("8");
        reveal_strlit("9");
    }
    let r = match n {
        0 => "0",
        1 => "1",
        2 => "2",
        3 => "3",
        4 => "4",
        5 => "5",
        6 => "6",
        7 => "7",
        8 => "8",
        _ => "9",
    };
    assert(r@ =~= seq![(0x30 + n) as char]);
    r
}

/// Formats `n`, see [`decimal`].
pub(crate) fn format_decimal(n: usize) -> (r: String)
    ensures
        r@ == decimal(n as nat),
    decreases n,
{
    if n < 10 {
        format_digit(n).to_owned()
    } else {
        let mut s = format_decimal(n / 10);
        s.append(format_digit(n % 10));
        assert(s@ =~= decimal(n as nat));
        s
    }
}

/// The bytes of a string of ASCII characters are its characters.
pub proof fn lemma_ascii(s: &str, bytes: Seq<u8>)
    requires
        s@.len() == bytes.len(),
        forall|i: int| 0 <= i < bytes.len() ==> #[trigger] s@[i] == bytes[i] as char && bytes[i] < 128,
    ensures
        s.spec_bytes() == bytes,
{
    assert(is_ascii_chars(s@)) by {
        assert forall|i: int| 0 <= i < s@.len() implies 0 <= #[trigger] (s@[i] as u32) < 128 by {
            assert(s@[i] == bytes[i] as char);
        }
    }
    assert(is_ascii(s));
    assert(s.spec_bytes() =~= bytes) by {
        assert forall|i: int| 0 <= i < bytes.len() implies s.spec_bytes()[i] == bytes[i] by {
            assert(s@[i] == bytes[i] as char);
        }
    }
}

/// The bytes of a string of ASCII characters are its characters, however the
/// string is borrowed.
pub proof fn lemma_ascii_string(s: &String, bytes: Seq<u8>)
    requires
        s@.len() == bytes.len(),
        forall|i: int| 0 <= i < bytes.len() ==> #[trigger] s@[i] == bytes[i] as char && bytes[i] < 128,
    ensures
        forall|t: &str| t@ == s@ ==> #[trigger] t.spec_bytes() == bytes,
{
    assert forall|t: &str| t@ == s@ implies #[trigger] t.spec_bytes() == bytes by {
        lemma_ascii(t, bytes);
    }
}

/// The decimal digits of a number are spelled the same in characters and in
/// bytes.
pub proof fn lemma_decimal(n: nat)
    ensures
        decimal(n).len() == digits(n).len(),
        forall|i: int|
            0 <= i < digits(n).len() ==> #[trigger] decimal(n)[i] == digits(n)[i] as char
                && digits(n)[i] < 128,
    decreases n,
{
    if n >= 10 {
        lemma_decimal(n / 10);
    }
}

/// The lower case of a string.
pub uninterp spec fn lowercase(s: Seq<char>) -> Seq<char>;

/// The lower case of an ASCII character.
pub open spec fn ascii_lower(c: char) -> char {
    if 'A' <= c <= 'Z' {
        (c as u8 + 0x20) as u8 as char
    } else {
        c
    }
}

/// Returns the lower case of a string with [`str::to_lowercase`], which is a
/// function of its characters alone. Of ASCII characters it changes the letters
/// `A` to `Z`, to `a` to `z`, and no others. What it makes of the rest of
/// Unicode is left unsaid.
#[verifier::external_body]
pub(crate) fn to_lowercase(s: &str) -> (r: String)
    ensures
        r@ == lowercase(s@),
        is_ascii_chars(s@) ==> r@ == s@.map_values(|c: char| ascii_lower(c)),
{
    s.to_lowercase()
}

/// Returns whether two strings of bytes are the same.
pub(crate) fn same_bytes(a: &[u8], b: &[u8]) -> (same: bool)
    ensures
        same == (a@ == b@),
{
    if a.len() != b.len() {
        return false;
    }
    let mut i: usize = 0;
    while i < a.len()
        invariant
            i <= a@.len(),
            a@.len() == b@.len(),
            forall|j: int| 0 <= j < i ==> a@[j] == b@[j],
        decreases a@.len() - i,
    {
        if a[i] != b[i] {
            assert(a@[i as int] != b@[i as int]);
            return false;
        }
        i += 1;
    }
    assert(a@ =~= b@);
    true
}

/// Returns a copy of the bytes.
pub(crate) fn clone_bytes_of(bytes: &[u8]) -> (r: Vec<u8>)
    ensures
        r@ == bytes@,
{
    let mut r: Vec<u8> = Vec::new();
    let mut i: usize = 0;
    while i < bytes.len()
        invariant
            i <= bytes@.len(),
            r@ == bytes@.take(i as int),
        decreases bytes@.len() - i,
    {
        r.push(bytes[i]);
        i += 1;
    }
    assert(r@ =~= bytes@);
    r
}

/// Returns whether two strings are spelled the same.
pub(crate) fn same_str(a: &str, b: &str) -> (same: bool)
    ensures
        same == (a@ == b@),
        same == (a.spec_bytes() == b.spec_bytes()),
{
    proof {
        encode_utf8_decode_utf8(a@);
        encode_utf8_decode_utf8(b@);
    }
    same_bytes(a.as_bytes(), b.as_bytes())
}

/// The number decimal digits stand for, the first of which counts most.
pub open spec fn value_of(ds: Seq<char>) -> int
    decreases ds.len(),
{
    if ds.len() == 0 {
        0
    } else {
        10 * value_of(ds.drop_last()) + (ds.last() as int - 0x30)
    }
}

/// The decimal digits of a number are digits that stand for it, in characters and
/// in bytes, the first of which is no zero unless it is the only one.
pub proof fn law_digits_stand_for_the_number(n: nat)
    ensures
        value_of(decimal(n)) == n,
        decimal(n).len() > 0,
        forall|i: int|
            0 <= i < decimal(n).len() ==> 0x30 <= #[trigger] decimal(n)[i] as int <= 0x39,
        decimal(n)[0] as int == 0x30 ==> n == 0 && decimal(n).len() == 1,
        digits(n).len() == decimal(n).len(),
        forall|i: int|
            0 <= i < digits(n).len() ==> #[trigger] digits(n)[i] as int == decimal(n)[i] as int,
    decreases n,
{
    let last = (0x30 + n % 10) as char;
    lemma_decimal(n);
    if n >= 10 {
        law_digits_stand_for_the_number(n / 10);
        let init = decimal(n / 10);
        assert(decimal(n).drop_last() =~= init);
        assert(decimal(n)[0] == init[0]);
        assert(decimal(n).last() as int == 0x30 + n % 10);
    } else {
        assert(decimal(n) =~= seq![last]);
        assert(decimal(n).drop_last() =~= Seq::<char>::empty());
        assert(value_of(decimal(n).drop_last()) == 0);
        assert(decimal(n).last() as int == 0x30 + n % 10);
    }
    assert forall|i: int|
        0 <= i < digits(n).len() implies #[trigger] digits(n)[i] as int == decimal(n)[i] as int by {
        assert(decimal(n)[i] == digits(n)[i] as char);
    }
}

/// The lower case of an ASCII letter is 0x20 above it, and that of anything else is
/// itself.
pub proof fn law_lower_case_is_that_of_ascii(a: char, b: char)
    ensures
        ascii_lower(a) == ascii_lower(b) <==> {
            ||| a == b
            ||| 0x41 <= a as int <= 0x5A && b as int == a as int + 0x20
            ||| 0x41 <= b as int <= 0x5A && a as int == b as int + 0x20
        },
        !(0x41 <= ascii_lower(a) as int <= 0x5A),
{
}

} // verus!

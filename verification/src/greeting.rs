//! How the monitored server greets its clients.

use vstd::prelude::*;
use vstd::string::*;

verus! {

/// Whether Unicode counts `c` as whitespace.
pub open spec fn is_white_space(c: char) -> bool {
    ||| '\u{9}' <= c <= '\u{D}'
    ||| c == '\u{20}'
    ||| c == '\u{85}'
    ||| c == '\u{A0}'
    ||| c == '\u{1680}'
    ||| '\u{2000}' <= c <= '\u{200A}'
    ||| c == '\u{2028}'
    ||| c == '\u{2029}'
    ||| c == '\u{202F}'
    ||| c == '\u{205F}'
    ||| c == '\u{3000}'
}

/// The first item of a list that is separated by commas.
pub open spec fn first_item(list: Seq<char>) -> Seq<char>
    decreases list.len(),
{
    if list.len() == 0 || list[0] == ',' {
        Seq::empty()
    } else {
        seq![list[0]] + first_item(list.drop_first())
    }
}

/// The string without the whitespace it begins with.
pub open spec fn trimmed(s: Seq<char>) -> Seq<char>
    decreases s.len(),
{
    if s.len() > 0 && is_white_space(s[0]) {
        trimmed(s.drop_first())
    } else {
        s
    }
}

/// Whether `s` begins with `p`.
pub open spec fn begins_with(s: Seq<char>, p: Seq<char>) -> bool {
    p.len() <= s.len() && s.take(p.len() as int) == p
}

/// The greeting in the first language of an `Accept-Language` header.
pub open spec fn greeting(languages: Seq<char>) -> Seq<char> {
    let lang = trimmed(first_item(languages));
    if begins_with(lang, "de"@) {
        "Hallo Welt"@
    } else if begins_with(lang, "fr"@) {
        "Bonjour le monde"@
    } else {
        "Hello World"@
    }
}

/// Returns whether Unicode counts `c` as whitespace.
fn white_space(c: char) -> (r: bool)
    ensures
        r == is_white_space(c),
{
    ('\u{9}' <= c && c <= '\u{D}') || c == '\u{20}' || c == '\u{85}' || c == '\u{A0}' || c
        == '\u{1680}' || ('\u{2000}' <= c && c <= '\u{200A}') || c == '\u{2028}' || c
        == '\u{2029}' || c == '\u{202F}' || c == '\u{205F}' || c == '\u{3000}'
}

/// The first two characters of the first item of a list are its own unless one
/// of them is a comma.
proof fn lemma_begins_with_two(list: Seq<char>, a: char, b: char)
    requires
        a != ',',
        b != ',',
    ensures
        begins_with(first_item(list), seq![a, b]) <==> list.len() >= 2 && list[0] == a && list[1]
            == b,
{
    reveal_with_fuel(first_item, 3);
    let item = first_item(list);
    let two = seq![a, b];
    if list.len() >= 2 && list[0] == a && list[1] == b {
        assert(item.take(2) =~= two);
    }
    if begins_with(item, two) {
        assert(item[0] == item.take(2)[0]);
        assert(item[1] == item.take(2)[1]);
    }
}

/// Greets the client in the language its `Accept-Language` header asks for,
/// German or French, and in English otherwise.
///
/// # Arguments
///
/// * `languages` - The value of the header, if the client sent one that can be
///   read
pub fn greet(languages: Option<&str>) -> (r: &'static str)
    ensures
        r@ == match languages {
            Some(languages) => greeting(languages@),
            None => "Hello World"@,
        },
{
    let languages = match languages {
        Some(languages) => languages,
        None => return "Hello World",
    };
    let len = languages.unicode_len();
    let mut i: usize = 0;
    assert(languages@.skip(0) =~= languages@);
    while i < len && languages.get_char(i) != ',' && white_space(languages.get_char(i))
        invariant
            i <= len == languages@.len(),
            trimmed(first_item(languages@)) == trimmed(first_item(languages@.skip(i as int))),
        decreases len - i,
    {
        proof {
            let rest = languages@.skip(i as int);
            assert(rest.drop_first() =~= languages@.skip(i + 1));
            assert(first_item(rest).drop_first() =~= first_item(rest.drop_first()));
        }
        i += 1;
    }
    let ghost rest = languages@.skip(i as int);
    proof {
        reveal_strlit("de");
        reveal_strlit("fr");
        assert("de"@ =~= seq!['d', 'e']);
        assert("fr"@ =~= seq!['f', 'r']);
        lemma_begins_with_two(rest, 'd', 'e');
        lemma_begins_with_two(rest, 'f', 'r');
        assert(trimmed(first_item(rest)) == first_item(rest));
        assert(i < len ==> rest[0] == languages@[i as int]);
        assert(i + 1 < len ==> rest[1] == languages@[i + 1]);
    }
    if i < len && len - i >= 2 {
        let a = languages.get_char(i);
        let b = languages.get_char(i + 1);
        if a == 'd' && b == 'e' {
            return "Hallo Welt";
        }
        if a == 'f' && b == 'r' {
            return "Bonjour le monde";
        }
    }
    "Hello World"
}

/// Whether every character is one that Unicode counts as whitespace: a tab, one of
/// the four characters behind it, a space, a next line, and the spaces and
/// separators of other scripts.
pub open spec fn is_blank(s: Seq<char>) -> bool {
    forall|i: int|
        0 <= i < s.len() ==> {
            let c = (#[trigger] s[i]) as int;
            ||| 9 <= c <= 13
            ||| c == 32
            ||| c == 133
            ||| c == 160
            ||| c == 5760
            ||| 8192 <= c <= 8202
            ||| c == 8232
            ||| c == 8233
            ||| c == 8239
            ||| c == 8287
            ||| c == 12288
        }
}

/// A client is greeted in the language that comes first, whatever whitespace is
/// before it and whatever follows the letters that name it: in German if they are
/// `de`, in French if they are `fr`.
pub proof fn law_first_language_decides(blank: Seq<char>, a: char, b: char, rest: Seq<char>)
    requires
        is_blank(blank),
    ensures
        a == 'd' && b == 'e' ==> greeting(blank + seq![a, b] + rest) == "Hallo Welt"@,
        a == 'f' && b == 'r' ==> greeting(blank + seq![a, b] + rest) == "Bonjour le monde"@,
        !is_blank(seq![a]) && !(a == 'd' && b == 'e') && !(a == 'f' && b == 'r') ==> greeting(
            blank + seq![a, b] + rest,
        ) == "Hello World"@,
{
    reveal_strlit("de");
    reveal_strlit("fr");
    assert("de"@ =~= seq!['d', 'e']);
    assert("fr"@ =~= seq!['f', 'r']);
    let list = seq![a, b] + rest;
    if (a == 'd' && b == 'e') || (a == 'f' && b == 'r') || !is_blank(seq![a]) {
        assert(!is_blank(seq![a]) ==> !is_white_space(a)) by {
            if is_white_space(a) {
                assert forall|i: int| 0 <= i < seq![a].len() implies {
                    let c = (#[trigger] seq![a][i]) as int;
                    ||| 9 <= c <= 13
                    ||| c == 32
                    ||| c == 133
                    ||| c == 160
                    ||| c == 5760
                    ||| 8192 <= c <= 8202
                    ||| c == 8232
                    ||| c == 8233
                    ||| c == 8239
                    ||| c == 8287
                    ||| c == 12288
                } by {}
            }
        }
        assert(blank + seq![a, b] + rest =~= blank + list);
        lemma_blanks_are_skipped(blank, list);
        lemma_begins_with_two(list, 'd', 'e');
        lemma_begins_with_two(list, 'f', 'r');
        assert(list[0] == a && list[1] == b);
        reveal_with_fuel(first_item, 2);
        assert(trimmed(first_item(list)) == first_item(list));
    }
}

/// Whitespace before a list is not part of its first item.
proof fn lemma_blanks_are_skipped(blank: Seq<char>, list: Seq<char>)
    requires
        is_blank(blank),
    ensures
        trimmed(first_item(blank + list)) == trimmed(first_item(list)),
    decreases blank.len(),
{
    if blank.len() == 0 {
        assert(blank + list =~= list);
    } else {
        let c = blank[0];
        let all = blank + list;
        let rest = blank.drop_first();
        assert(is_white_space(c)) by {
            assert(blank[0] == c);
        }
        assert forall|i: int| 0 <= i < rest.len() implies {
            let c = (#[trigger] rest[i]) as int;
            ||| 9 <= c <= 13
            ||| c == 32
            ||| c == 133
            ||| c == 160
            ||| c == 5760
            ||| 8192 <= c <= 8202
            ||| c == 8232
            ||| c == 8233
            ||| c == 8239
            ||| c == 8287
            ||| c == 12288
        } by {
            assert(rest[i] == blank[i + 1]);
        }
        assert(all.drop_first() =~= rest + list);
        assert(all[0] == c);
        let item = first_item(all);
        assert(item =~= seq![c] + first_item(rest + list));
        assert(item.drop_first() =~= first_item(rest + list));
        lemma_blanks_are_skipped(rest, list);
    }
}

/// What comes behind the first comma does not matter: a client that asks for no
/// language first, or only for whitespace, is greeted in English.
pub proof fn law_only_the_first_language_matters(
    first: Seq<char>,
    rest: Seq<char>,
    other: Seq<char>,
)
    ensures
        greeting(first + seq![','] + rest) == greeting(first + seq![','] + other),
        is_blank(first) ==> greeting(first + seq![','] + rest) == "Hello World"@,
        is_blank(first) ==> greeting(first) == "Hello World"@,
{
    lemma_same_first_item(first, rest, other);
    if is_blank(first) {
        reveal_strlit("de");
        reveal_strlit("fr");
        assert("de"@ =~= seq!['d', 'e']);
        assert("fr"@ =~= seq!['f', 'r']);
        let list = seq![','] + rest;
        assert(first + seq![','] + rest =~= first + list);
        lemma_blanks_are_skipped(first, list);
        assert(first_item(list) =~= Seq::empty());
        assert(first + Seq::<char>::empty() =~= first);
        lemma_blanks_are_skipped(first, Seq::empty());
    }
}

proof fn lemma_same_first_item(first: Seq<char>, rest: Seq<char>, other: Seq<char>)
    ensures
        first_item(first + seq![','] + rest) == first_item(first + seq![','] + other),
    decreases first.len(),
{
    let a = first + seq![','] + rest;
    let b = first + seq![','] + other;
    assert(a[0] == b[0]);
    if first.len() > 0 {
        lemma_same_first_item(first.drop_first(), rest, other);
        assert(a.drop_first() =~= first.drop_first() + seq![','] + rest);
        assert(b.drop_first() =~= first.drop_first() + seq![','] + other);
    }
}

} // verus!

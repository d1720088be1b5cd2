//! The HPACK static table, see appendix A of RFC 7541.

use super::huffman::{encode, huffman_code};
use crate::text::same_str;
use crate::Error;
use vstd::prelude::*;
use vstd::string::*;
use vstd::utf8::is_ascii_chars;

verus! {

/// The number of entries of the static table.
pub const NUM_ENTRIES: usize = 61;

/// The name and the value, if one is predefined, of an entry.
pub type Entry = (&'static str, Option<&'static str>);

/// The entries of the static table. The first one has the index 1.
pub open spec fn static_table() -> Seq<Entry> {
    seq![
        ("authority", None),
        ("method", Some("GET")),
        ("method", Some("POST")),
        ("path", Some("/")),
        ("path", Some("/index.html")),
        ("scheme", Some("http")),
        ("scheme", Some("https")),
        ("status", Some("200")),
        ("status", Some("204")),
        ("status", Some("206")),
        ("status", Some("304")),
        ("status", Some("400")),
        ("status", Some("404")),
        ("status", Some("500")),
        ("accept-charset", None),
        ("accept-encoding", Some("gzip, deflate")),
        ("accept-language", None),
        ("accept-ranges", None),
        ("accept", None),
        ("access-control-allow-origin", None),
        ("age", None),
        ("allow", None),
        ("authorization", None),
        ("cache-control", None),
        ("content-disposition", None),
        ("content-encoding", None),
        ("content-language", None),
        ("content-length", None),
        ("content-location", None),
        ("content-range", None),
        ("content-type", None),
        ("cookie", None),
        ("date", None),
        ("etag", None),
        ("expect", None),
        ("expires", None),
        ("from", None),
        ("host", None),
        ("if-match", None),
        ("if-modified-since", None),
        ("if-none-match", None),
        ("if-range", None),
        ("if-unmodified-since", None),
        ("last-modified", None),
        ("link", None),
        ("location", None),
        ("max-forwards", None),
        ("proxy-authenticate", None),
        ("proxy-authorization", None),
        ("range", None),
        ("referer", None),
        ("refresh", None),
        ("retry-after", None),
        ("server", None),
        ("set-cookie", None),
        ("strict-transport-security", None),
        ("transfer-encoding", None),
        ("user-agent", None),
        ("vary", None),
        ("via", None),
        ("www-authenticate", None),
    ]
}

/// Returns the entries of the static table.
fn entries() -> (r: [Entry; NUM_ENTRIES])
    ensures
        r@ == static_table(),
{
    let r = [
        ("authority", None),
        ("method", Some("GET")),
        ("method", Some("POST")),
        ("path", Some("/")),
        ("path", Some("/index.html")),
        ("scheme", Some("http")),
        ("scheme", Some("https")),
        ("status", Some("200")),
        ("status", Some("204")),
        ("status", Some("206")),
        ("status", Some("304")),
        ("status", Some("400")),
        ("status", Some("404")),
        ("status", Some("500")),
        ("accept-charset", None),
        ("accept-encoding", Some("gzip, deflate")),
        ("accept-language", None),
        ("accept-ranges", None),
        ("accept", None),
        ("access-control-allow-origin", None),
        ("age", None),
        ("allow", None),
        ("authorization", None),
        ("cache-control", None),
        ("content-disposition", None),
        ("content-encoding", None),
        ("content-language", None),
        ("content-length", None),
        ("content-location", None),
        ("content-range", None),
        ("content-type", None),
        ("cookie", None),
        ("date", None),
        ("etag", None),
        ("expect", None),
        ("expires", None),
        ("from", None),
        ("host", None),
        ("if-match", None),
        ("if-modified-since", None),
        ("if-none-match", None),
        ("if-range", None),
        ("if-unmodified-since", None),
        ("last-modified", None),
        ("link", None),
        ("location", None),
        ("max-forwards", None),
        ("proxy-authenticate", None),
        ("proxy-authorization", None),
        ("range", None),
        ("referer", None),
        ("refresh", None),
        ("retry-after", None),
        ("server", None),
        ("set-cookie", None),
        ("strict-transport-security", None),
        ("transfer-encoding", None),
        ("user-agent", None),
        ("vary", None),
        ("via", None),
        ("www-authenticate", None),
    ];
    assert(r@ =~= static_table());
    r
}

/// Field names, each with its index.
pub type Names = Vec<(&'static str, usize)>;

/// Field names, each with the values that are predefined for it and their
/// indices.
pub type Values = Vec<(&'static str, Vec<(&'static str, usize)>)>;

/// Whether the list holds the entries without a value among the first `n`, each
/// once, in the order of their indices.
pub open spec fn lists_names(names: Seq<(&'static str, usize)>, n: int) -> bool {
    &&& forall|k: int|
        0 <= k < names.len() ==> {
            &&& 1 <= (#[trigger] names[k]).1 <= n
            &&& static_table()[names[k].1 - 1].0@ == names[k].0@
            &&& static_table()[names[k].1 - 1].1 is None
        }
    &&& forall|k: int, l: int|
        0 <= k < l < names.len() ==> (#[trigger] names[k]).1 < (#[trigger] names[l]).1
    &&& forall|i: int|
        0 <= i < n && (#[trigger] static_table()[i]).1 is None ==> exists|k: int|
            0 <= k < names.len() && (#[trigger] names[k]).1 == i + 1
}

/// Whether the list holds the entries with a value among the first `n`, each
/// once, under their names, none of which occurs twice, and no other names.
pub open spec fn lists_values(
    values: Seq<(&'static str, Vec<(&'static str, usize)>)>,
    n: int,
) -> bool {
    &&& forall|g: int, k: int|
        0 <= g < values.len() && 0 <= k < values[g].1@.len() ==> {
            &&& 1 <= (#[trigger] values[g].1@[k]).1 <= n
            &&& static_table()[values[g].1@[k].1 - 1].0@ == values[g].0@
            &&& static_table()[values[g].1@[k].1 - 1].1 == Some(values[g].1@[k].0)
        }
    &&& forall|g: int, k: int, l: int|
        0 <= g < values.len() && 0 <= k < l < values[g].1@.len() ==> (
        #[trigger] values[g].1@[k]).1 < (#[trigger] values[g].1@[l]).1
    &&& forall|g: int, h: int|
        0 <= g < h < values.len() ==> (#[trigger] values[g]).0@ != (#[trigger] values[h]).0@
    &&& forall|g: int| 0 <= g < values.len() ==> (#[trigger] values[g]).1@.len() > 0
    &&& forall|i: int|
        0 <= i < n && (#[trigger] static_table()[i]).1 is Some ==> exists|g: int, k: int|
            0 <= g < values.len() && 0 <= k < values[g].1@.len() && (
            #[trigger] values[g].1@[k]).1 == i + 1
}

proof fn lemma_list_name(names: Seq<(&'static str, usize)>, name: &'static str, i: int)
    requires
        lists_names(names, i),
        0 <= i < static_table().len() == NUM_ENTRIES,
        static_table()[i].0 == name,
        static_table()[i].1 is None,
    ensures
        lists_names(names.push((name, (i + 1) as usize)), i + 1),
{
    let later = names.push((name, (i + 1) as usize));
    assert forall|j: int|
        0 <= j < i + 1 && (#[trigger] static_table()[j]).1 is None implies exists|k: int|
        0 <= k < later.len() && (#[trigger] later[k]).1 == j + 1 by {
        if j < i {
            let k = choose|k: int| 0 <= k < names.len() && (#[trigger] names[k]).1 == j + 1;
            assert(later[k].1 == j + 1);
        } else {
            assert(later[names.len() as int].1 == i + 1);
        }
    }
}

proof fn lemma_skip_name(names: Seq<(&'static str, usize)>, i: int)
    requires
        lists_names(names, i),
        0 <= i < static_table().len(),
        static_table()[i].1 is Some,
    ensures
        lists_names(names, i + 1),
{
}

proof fn lemma_skip_value(values: Seq<(&'static str, Vec<(&'static str, usize)>)>, i: int)
    requires
        lists_values(values, i),
        0 <= i < static_table().len(),
        static_table()[i].1 is None,
    ensures
        lists_values(values, i + 1),
{
}

/// Lists the `i`th entry under its name.
fn list_value(values: &mut Values, name: &'static str, value: &'static str, i: usize)
    requires
        lists_values(old(values)@, i as int),
        i < static_table().len() == NUM_ENTRIES,
        static_table()[i as int] == (name, Some(value)),
    ensures
        lists_values(final(values)@, i + 1),
{
    let ghost before = values@;
    let mut g: usize = 0;
    while g < values.len()
        invariant
            g <= values@.len(),
            values@ == before,
            lists_values(before, i as int),
            i < static_table().len() == NUM_ENTRIES,
            static_table()[i as int] == (name, Some(value)),
            forall|h: int| 0 <= h < g ==> (#[trigger] values@[h]).0@ != name@,
        decreases values@.len() - g,
    {
        if same_str(values[g].0, name) {
            let mut group: Vec<(&'static str, usize)> = Vec::new();
            let ghost n = values@[g as int].1@.len();
            let mut k: usize = 0;
            while k < values[g].1.len()
                invariant
                    g < values@.len(),
                    values@ == before,
                    k <= values@[g as int].1@.len(),
                    group@ == values@[g as int].1@.take(k as int),
                decreases values@[g as int].1@.len() - k,
            {
                group.push(values[g].1[k]);
                k += 1;
            }
            assert(group@ =~= before[g as int].1@);
            group.push((value, i + 1));
            let found = values[g].0;
            values.set(g, (found, group));
            proof {
                lemma_list_value(before, values@, g as int, i as int);
            }
            return;
        }
        g += 1;
    }
    let mut group: Vec<(&'static str, usize)> = Vec::new();
    group.push((value, i + 1));
    values.push((name, group));
    proof {
        lemma_list_new_value(before, values@, i as int);
    }
}

proof fn lemma_list_value(
    before: Seq<(&'static str, Vec<(&'static str, usize)>)>,
    after: Seq<(&'static str, Vec<(&'static str, usize)>)>,
    g: int,
    i: int,
)
    requires
        lists_values(before, i),
        0 <= i < static_table().len() == NUM_ENTRIES,
        static_table()[i].1 is Some,
        0 <= g < before.len(),
        before[g].0@ == static_table()[i].0@,
        after.len() == before.len(),
        forall|h: int| 0 <= h < before.len() && h != g ==> after[h] == before[h],
        after[g].0 == before[g].0,
        after[g].1@ == before[g].1@.push((static_table()[i].1->0, (i + 1) as usize)),
    ensures
        lists_values(after, i + 1),
{
    assert forall|h: int, k: int|
        0 <= h < after.len() && 0 <= k < after[h].1@.len() implies {
        &&& 1 <= (#[trigger] after[h].1@[k]).1 <= i + 1
        &&& static_table()[after[h].1@[k].1 - 1].0@ == after[h].0@
        &&& static_table()[after[h].1@[k].1 - 1].1 == Some(after[h].1@[k].0)
    } by {
        if k < before[h].1@.len() {
            assert(after[h].1@[k] == before[h].1@[k]);
        }
    }
    assert forall|h: int, k: int, l: int|
        0 <= h < after.len() && 0 <= k < l < after[h].1@.len() implies (
    #[trigger] after[h].1@[k]).1 < (#[trigger] after[h].1@[l]).1 by {
        assert(after[h].1@[k] == before[h].1@[k]);
        if l < before[h].1@.len() {
            assert(after[h].1@[l] == before[h].1@[l]);
        }
    }
    assert forall|h: int, m: int| 0 <= h < m < after.len() implies (#[trigger] after[h]).0@ != (
    #[trigger] after[m]).0@ by {
        assert(before[h].0@ != before[m].0@);
    }
    assert forall|j: int|
        0 <= j < i + 1 && (#[trigger] static_table()[j]).1 is Some implies exists|h: int, k: int|
        0 <= h < after.len() && 0 <= k < after[h].1@.len() && (#[trigger] after[h].1@[k]).1 == j
            + 1 by {
        if j < i {
            let (h, k) = choose|h: int, k: int|
                0 <= h < before.len() && 0 <= k < before[h].1@.len() && (
                #[trigger] before[h].1@[k]).1 == j + 1;
            assert(after[h].1@[k].1 == j + 1);
        } else {
            assert(after[g].1@[before[g].1@.len() as int].1 == i + 1);
        }
    }
}

proof fn lemma_list_new_value(
    before: Seq<(&'static str, Vec<(&'static str, usize)>)>,
    after: Seq<(&'static str, Vec<(&'static str, usize)>)>,
    i: int,
)
    requires
        lists_values(before, i),
        0 <= i < static_table().len() == NUM_ENTRIES,
        static_table()[i].1 is Some,
        after.len() == before.len() + 1,
        forall|h: int| 0 <= h < before.len() ==> after[h] == before[h],
        forall|h: int| 0 <= h < before.len() ==> (#[trigger] before[h]).0@ != static_table()[i].0@,
        after[before.len() as int].0 == static_table()[i].0,
        after[before.len() as int].1@ == seq![(static_table()[i].1->0, (i + 1) as usize)],
    ensures
        lists_values(after, i + 1),
{
    let g = before.len() as int;
    assert forall|h: int, k: int|
        0 <= h < after.len() && 0 <= k < after[h].1@.len() implies {
        &&& 1 <= (#[trigger] after[h].1@[k]).1 <= i + 1
        &&& static_table()[after[h].1@[k].1 - 1].0@ == after[h].0@
        &&& static_table()[after[h].1@[k].1 - 1].1 == Some(after[h].1@[k].0)
    } by {
        if h < g {
            assert(after[h].1@[k] == before[h].1@[k]);
        }
    }
    assert forall|h: int, k: int, l: int|
        0 <= h < after.len() && 0 <= k < l < after[h].1@.len() implies (
    #[trigger] after[h].1@[k]).1 < (#[trigger] after[h].1@[l]).1 by {
        if h < g {
            assert(after[h].1@[k] == before[h].1@[k]);
            assert(after[h].1@[l] == before[h].1@[l]);
        }
    }
    assert forall|h: int, m: int| 0 <= h < m < after.len() implies (#[trigger] after[h]).0@ != (
    #[trigger] after[m]).0@ by {
        assert(after[h] == before[h]);
        if m < g {
            assert(after[m] == before[m]);
            assert(before[h].0@ != before[m].0@);
        } else {
            assert(before[h].0@ != static_table()[i].0@);
        }
    }
    assert forall|j: int|
        0 <= j < i + 1 && (#[trigger] static_table()[j]).1 is Some implies exists|h: int, k: int|
        0 <= h < after.len() && 0 <= k < after[h].1@.len() && (#[trigger] after[h].1@[k]).1 == j
            + 1 by {
        if j < i {
            let (h, k) = choose|h: int, k: int|
                0 <= h < before.len() && 0 <= k < before[h].1@.len() && (
                #[trigger] before[h].1@[k]).1 == j + 1;
            assert(after[h].1@[k].1 == j + 1);
        } else {
            assert(after[g].1@[0].1 == i + 1);
        }
    }
}

/// The number of entries without a value among the first `n`: the first one, and
/// those from the fifteenth on but for one of them.
spec fn names_before(n: int) -> int {
    if n <= 14 {
        if n == 0 {
            0
        } else {
            1
        }
    } else if n == 15 {
        2
    } else {
        n - 14
    }
}

proof fn lemma_names_before(i: int)
    requires
        0 <= i < static_table().len(),
    ensures
        names_before(i + 1) == names_before(i) + if static_table()[i].1 is None {
            1int
        } else {
            0
        },
{
}

/// Returns the HPACK static table, split by whether an entry predefines a
/// value or not.
///
/// The first list goes from a field name to its index, the second from a field
/// name to the index of each of the values that are predefined for it. See
/// appendix A of RFC 7541.
pub fn create_header_maps() -> (r: (Names, Values))
    ensures
        r.0@.len() == 47,
        r.1@.len() == 5,
        lists_names(r.0@, NUM_ENTRIES as int),
        lists_values(r.1@, NUM_ENTRIES as int),
{
    let entries = entries();
    let mut names: Names = Vec::new();
    let mut values: Values = Vec::new();
    let mut i: usize = 0;
    while i < NUM_ENTRIES
        invariant
            i <= NUM_ENTRIES,
            entries@ == static_table(),
            static_table().len() == NUM_ENTRIES,
            lists_names(names@, i as int),
            lists_values(values@, i as int),
            names@.len() == names_before(i as int),
        decreases NUM_ENTRIES - i,
    {
        let (name, value) = entries[i];
        let ghost before = names@;
        let ghost earlier = values@;
        proof {
            lemma_names_before(i as int);
        }
        match value {
            None => {
                names.push((name, i + 1));
                proof {
                    lemma_list_name(before, name, i as int);
                    lemma_skip_value(earlier, i as int);
                }
            },
            Some(value) => {
                list_value(&mut values, name, value, i);
                proof {
                    lemma_skip_name(before, i as int);
                }
            },
        }
        i += 1;
    }
    proof {
        lemma_five_names(values@);
    }
    (names, values)
}

/// The names that values are predefined for.
spec fn has_values(name: Seq<char>) -> bool {
    ||| name == "method"@
    ||| name == "path"@
    ||| name == "scheme"@
    ||| name == "status"@
    ||| name == "accept-encoding"@
}

/// No values are predefined for a name that differs in its length or in one of
/// its characters from those that values are predefined for.
proof fn lemma_has_no_values(name: &str)
    requires
        name@.len() != 6 || (name@[0] != 'm' && (name@[0] != 's' || name@[1] == 'e')),
        name@.len() != 4 || name@[0] != 'p',
        name@.len() != 15 || name@[7] != 'e',
    ensures
        !has_values(name@),
{
    reveal_strlit("method");
    reveal_strlit("path");
    reveal_strlit("scheme");
    reveal_strlit("status");
    reveal_strlit("accept-encoding");
}

/// No values are predefined for the names of entries without one.
proof fn lemma_names_without_values()
    ensures
        !has_values("authority"@),
        !has_values("accept-charset"@),
        !has_values("accept-language"@),
        !has_values("accept-ranges"@),
        !has_values("accept"@),
        !has_values("access-control-allow-origin"@),
        !has_values("age"@),
        !has_values("allow"@),
        !has_values("authorization"@),
        !has_values("cache-control"@),
        !has_values("content-disposition"@),
        !has_values("content-encoding"@),
        !has_values("content-language"@),
        !has_values("content-length"@),
        !has_values("content-location"@),
        !has_values("content-range"@),
        !has_values("content-type"@),
        !has_values("cookie"@),
        !has_values("date"@),
        !has_values("etag"@),
        !has_values("expect"@),
        !has_values("expires"@),
        !has_values("from"@),
        !has_values("host"@),
        !has_values("if-match"@),
        !has_values("if-modified-since"@),
        !has_values("if-none-match"@),
        !has_values("if-range"@),
        !has_values("if-unmodified-since"@),
        !has_values("last-modified"@),
        !has_values("link"@),
        !has_values("location"@),
        !has_values("max-forwards"@),
        !has_values("proxy-authenticate"@),
        !has_values("proxy-authorization"@),
        !has_values("range"@),
        !has_values("referer"@),
        !has_values("refresh"@),
        !has_values("retry-after"@),
        !has_values("server"@),
        !has_values("set-cookie"@),
        !has_values("strict-transport-security"@),
        !has_values("transfer-encoding"@),
        !has_values("user-agent"@),
        !has_values("vary"@),
        !has_values("via"@),
        !has_values("www-authenticate"@),
{
    reveal_strlit("authority");
    lemma_has_no_values("authority");
    reveal_strlit("accept-charset");
    lemma_has_no_values("accept-charset");
    reveal_strlit("accept-language");
    lemma_has_no_values("accept-language");
    reveal_strlit("accept-ranges");
    lemma_has_no_values("accept-ranges");
    reveal_strlit("accept");
    lemma_has_no_values("accept");
    reveal_strlit("access-control-allow-origin");
    lemma_has_no_values("access-control-allow-origin");
    reveal_strlit("age");
    lemma_has_no_values("age");
    reveal_strlit("allow");
    lemma_has_no_values("allow");
    reveal_strlit("authorization");
    lemma_has_no_values("authorization");
    reveal_strlit("cache-control");
    lemma_has_no_values("cache-control");
    reveal_strlit("content-disposition");
    lemma_has_no_values("content-disposition");
    reveal_strlit("content-encoding");
    lemma_has_no_values("content-encoding");
    reveal_strlit("content-language");
    lemma_has_no_values("content-language");
    reveal_strlit("content-length");
    lemma_has_no_values("content-length");
    reveal_strlit("content-location");
    lemma_has_no_values("content-location");
    reveal_strlit("content-range");
    lemma_has_no_values("content-range");
    reveal_strlit("content-type");
    lemma_has_no_values("content-type");
    reveal_strlit("cookie");
    lemma_has_no_values("cookie");
    reveal_strlit("date");
    lemma_has_no_values("date");
    reveal_strlit("etag");
    lemma_has_no_values("etag");
    reveal_strlit("expect");
    lemma_has_no_values("expect");
    reveal_strlit("expires");
    lemma_has_no_values("expires");
    reveal_strlit("from");
    lemma_has_no_values("from");
    reveal_strlit("host");
    lemma_has_no_values("host");
    reveal_strlit("if-match");
    lemma_has_no_values("if-match");
    reveal_strlit("if-modified-since");
    lemma_has_no_values("if-modified-since");
    reveal_strlit("if-none-match");
    lemma_has_no_values("if-none-match");
    reveal_strlit("if-range");
    lemma_has_no_values("if-range");
    reveal_strlit("if-unmodified-since");
    lemma_has_no_values("if-unmodified-since");
    reveal_strlit("last-modified");
    lemma_has_no_values("last-modified");
    reveal_strlit("link");
    lemma_has_no_values("link");
    reveal_strlit("location");
    lemma_has_no_values("location");
    reveal_strlit("max-forwards");
    lemma_has_no_values("max-forwards");
    reveal_strlit("proxy-authenticate");
    lemma_has_no_values("proxy-authenticate");
    reveal_strlit("proxy-authorization");
    lemma_has_no_values("proxy-authorization");
    reveal_strlit("range");
    lemma_has_no_values("range");
    reveal_strlit("referer");
    lemma_has_no_values("referer");
    reveal_strlit("refresh");
    lemma_has_no_values("refresh");
    reveal_strlit("retry-after");
    lemma_has_no_values("retry-after");
    reveal_strlit("server");
    lemma_has_no_values("server");
    reveal_strlit("set-cookie");
    lemma_has_no_values("set-cookie");
    reveal_strlit("strict-transport-security");
    lemma_has_no_values("strict-transport-security");
    reveal_strlit("transfer-encoding");
    lemma_has_no_values("transfer-encoding");
    reveal_strlit("user-agent");
    lemma_has_no_values("user-agent");
    reveal_strlit("vary");
    lemma_has_no_values("vary");
    reveal_strlit("via");
    lemma_has_no_values("via");
    reveal_strlit("www-authenticate");
    lemma_has_no_values("www-authenticate");
}

/// An entry predefines a value if and only if its name is one that values are
/// predefined for.
proof fn lemma_has_values(i: int)
    requires
        0 <= i < static_table().len(),
    ensures
        static_table()[i].1 is Some <==> has_values(static_table()[i].0@),
{
    lemma_names_without_values();
}

/// Five names have values predefined for them.
proof fn lemma_five_names(values: Seq<(&'static str, Vec<(&'static str, usize)>)>)
    requires
        lists_values(values, NUM_ENTRIES as int),
    ensures
        values.len() == 5,
{
    let names = seq!["method"@, "path"@, "scheme"@, "status"@, "accept-encoding"@];
    reveal_strlit("method");
    reveal_strlit("path");
    reveal_strlit("scheme");
    reveal_strlit("status");
    reveal_strlit("accept-encoding");
    assert("method"@[0] != "scheme"@[0] && "method"@[0] != "status"@[0] && "scheme"@[1]
        != "status"@[1]);
    let listed = Seq::new(values.len(), |g: int| values[g].0@);
    assert forall|m: int, n: int| 0 <= m < n < 5 implies names[m] != names[n] by {
        let (a, b) = (names[m], names[n]);
        assert(a.len() != b.len() || a[0] != b[0] || a[1] != b[1]);
    }
    assert(names.no_duplicates());
    assert(listed.no_duplicates());
    assert forall|g: int| 0 <= g < values.len() implies names.contains(#[trigger] listed[g]) by {
        assert(values[g].1@.len() > 0);
        let i = values[g].1@[0].1 - 1;
        lemma_has_values(i);
        assert(has_values(listed[g]));
        assert(names[0] == "method"@ && names[1] == "path"@ && names[2] == "scheme"@ && names[3]
            == "status"@ && names[4] == "accept-encoding"@);
    }
    assert forall|n: int| 0 <= n < 5 implies listed.contains(#[trigger] names[n]) by {
        let i: int = if n == 0 {
            1
        } else if n == 1 {
            3
        } else if n == 2 {
            5
        } else if n == 3 {
            7
        } else {
            15
        };
        assert(static_table()[i].1 is Some);
        assert(static_table()[i].0@ == names[n]);
        let (g, k) = choose|g: int, k: int|
            0 <= g < values.len() && 0 <= k < values[g].1@.len() && (
            #[trigger] values[g].1@[k]).1 == i + 1;
        assert(listed[g] == names[n]);
    }
    names.unique_seq_to_set();
    listed.unique_seq_to_set();
    assert(names.to_set() =~= listed.to_set()) by {
        assert forall|s: Seq<char>| names.to_set().contains(s) implies listed.to_set().contains(
            s,
        ) by {
            let n = choose|n: int| 0 <= n < names.len() && names[n] == s;
            assert(listed.contains(names[n]));
        }
        assert forall|s: Seq<char>| listed.to_set().contains(s) implies names.to_set().contains(
            s,
        ) by {
            let g = choose|g: int| 0 <= g < listed.len() && listed[g] == s;
            assert(names.contains(listed[g]));
        }
    }
}

/// No name is listed both with values and without.
pub proof fn law_no_name_is_in_both_lists(
    names: Seq<(&'static str, usize)>,
    values: Seq<(&'static str, Vec<(&'static str, usize)>)>,
    k: int,
    g: int,
)
    requires
        lists_names(names, NUM_ENTRIES as int),
        lists_values(values, NUM_ENTRIES as int),
        0 <= k < names.len(),
        0 <= g < values.len(),
    ensures
        names[k].0@ != values[g].0@,
{
    let i = names[k].1 - 1;
    assert(values[g].1@.len() > 0);
    let j = values[g].1@[0].1 - 1;
    assert(static_table()[j].0@ == values[g].0@);
    lemma_has_values(i);
    lemma_has_values(j);
}

/// Every index of the table is listed, and only once: in one of the two lists,
/// and there in one place.
pub proof fn law_every_index_is_listed_once(
    names: Seq<(&'static str, usize)>,
    values: Seq<(&'static str, Vec<(&'static str, usize)>)>,
    index: usize,
)
    requires
        lists_names(names, NUM_ENTRIES as int),
        lists_values(values, NUM_ENTRIES as int),
        1 <= index <= NUM_ENTRIES,
    ensures
        (exists|k: int| 0 <= k < names.len() && (#[trigger] names[k]).1 == index) <==> !(exists|
            g: int,
            k: int,
        |
            0 <= g < values.len() && 0 <= k < values[g].1@.len() && (
            #[trigger] values[g].1@[k]).1 == index),
        forall|k: int, l: int|
            0 <= k < names.len() && 0 <= l < names.len() && (#[trigger] names[k]).1 == index && (
            #[trigger] names[l]).1 == index ==> k == l,
        forall|g: int, k: int, h: int, l: int|
            0 <= g < values.len() && 0 <= k < values[g].1@.len() && 0 <= h < values.len() && 0 <= l
                < values[h].1@.len() && (#[trigger] values[g].1@[k]).1 == index && (
            #[trigger] values[h].1@[l]).1 == index ==> g == h && k == l,
{
    assert(static_table()[index - 1].1 is None || static_table()[index - 1].1 is Some);
    assert forall|g: int, k: int, h: int, l: int|
        0 <= g < values.len() && 0 <= k < values[g].1@.len() && 0 <= h < values.len() && 0 <= l
            < values[h].1@.len() && (#[trigger] values[g].1@[k]).1 == index && (
        #[trigger] values[h].1@[l]).1 == index implies g == h && k == l by {
        assert(values[g].0@ == values[h].0@);
    }
}

/// Whether the list holds the name without a value, under that index.
pub open spec fn has_name(names: Seq<(&'static str, usize)>, name: Seq<char>, index: int) -> bool {
    exists|k: int|
        0 <= k < names.len() && (#[trigger] names[k]).0@ == name && names[k].1 == index
}

/// Whether the list holds the name with the value, under that index.
pub open spec fn has_value(
    values: Seq<(&'static str, Vec<(&'static str, usize)>)>,
    name: Seq<char>,
    value: Seq<char>,
    index: int,
) -> bool {
    exists|g: int, k: int|
        0 <= g < values.len() && 0 <= k < values[g].1@.len() && values[g].0@ == name && (
        #[trigger] values[g].1@[k]).0@ == value && values[g].1@[k].1 == index
}

/// An entry is listed under its index.
proof fn lemma_is_listed(
    names: Seq<(&'static str, usize)>,
    values: Seq<(&'static str, Vec<(&'static str, usize)>)>,
    i: int,
)
    requires
        lists_names(names, NUM_ENTRIES as int),
        lists_values(values, NUM_ENTRIES as int),
        0 <= i < NUM_ENTRIES,
    ensures
        match static_table()[i].1 {
            None => has_name(names, static_table()[i].0@, i + 1),
            Some(value) => has_value(values, static_table()[i].0@, value@, i + 1),
        },
{
    if static_table()[i].1 is None {
        let k = choose|k: int| 0 <= k < names.len() && (#[trigger] names[k]).1 == i + 1;
        assert(names[k].0@ == static_table()[i].0@);
    } else {
        let (g, k) = choose|g: int, k: int|
            0 <= g < values.len() && 0 <= k < values[g].1@.len() && (
            #[trigger] values[g].1@[k]).1 == i + 1;
        assert(values[g].0@ == static_table()[i].0@);
    }
}

/// The lists hold the entries of appendix A of RFC 7541 under their indices.
pub proof fn law_lists_hold_appendix_a(
    names: Seq<(&'static str, usize)>,
    values: Seq<(&'static str, Vec<(&'static str, usize)>)>,
)
    requires
        lists_names(names, 61),
        lists_values(values, 61),
    ensures
        has_name(names, "authority"@, 1),
        has_value(values, "method"@, "GET"@, 2),
        has_value(values, "method"@, "POST"@, 3),
        has_value(values, "path"@, "/"@, 4),
        has_value(values, "path"@, "/index.html"@, 5),
        has_value(values, "scheme"@, "http"@, 6),
        has_value(values, "scheme"@, "https"@, 7),
        has_value(values, "status"@, "200"@, 8),
        has_value(values, "status"@, "204"@, 9),
        has_value(values, "status"@, "206"@, 10),
        has_value(values, "status"@, "304"@, 11),
        has_value(values, "status"@, "400"@, 12),
        has_value(values, "status"@, "404"@, 13),
        has_value(values, "status"@, "500"@, 14),
        has_name(names, "accept-charset"@, 15),
        has_value(values, "accept-encoding"@, "gzip, deflate"@, 16),
        has_name(names, "accept-language"@, 17),
        has_name(names, "accept-ranges"@, 18),
        has_name(names, "accept"@, 19),
        has_name(names, "access-control-allow-origin"@, 20),
        has_name(names, "age"@, 21),
        has_name(names, "allow"@, 22),
        has_name(names, "authorization"@, 23),
        has_name(names, "cache-control"@, 24),
        has_name(names, "content-disposition"@, 25),
        has_name(names, "content-encoding"@, 26),
        has_name(names, "content-language"@, 27),
        has_name(names, "content-length"@, 28),
        has_name(names, "content-location"@, 29),
        has_name(names, "content-range"@, 30),
        has_name(names, "content-type"@, 31),
        has_name(names, "cookie"@, 32),
        has_name(names, "date"@, 33),
        has_name(names, "etag"@, 34),
        has_name(names, "expect"@, 35),
        has_name(names, "expires"@, 36),
        has_name(names, "from"@, 37),
        has_name(names, "host"@, 38),
        has_name(names, "if-match"@, 39),
        has_name(names, "if-modified-since"@, 40),
        has_name(names, "if-none-match"@, 41),
        has_name(names, "if-range"@, 42),
        has_name(names, "if-unmodified-since"@, 43),
        has_name(names, "last-modified"@, 44),
        has_name(names, "link"@, 45),
        has_name(names, "location"@, 46),
        has_name(names, "max-forwards"@, 47),
        has_name(names, "proxy-authenticate"@, 48),
        has_name(names, "proxy-authorization"@, 49),
        has_name(names, "range"@, 50),
        has_name(names, "referer"@, 51),
        has_name(names, "refresh"@, 52),
        has_name(names, "retry-after"@, 53),
        has_name(names, "server"@, 54),
        has_name(names, "set-cookie"@, 55),
        has_name(names, "strict-transport-security"@, 56),
        has_name(names, "transfer-encoding"@, 57),
        has_name(names, "user-agent"@, 58),
        has_name(names, "vary"@, 59),
        has_name(names, "via"@, 60),
        has_name(names, "www-authenticate"@, 61),
{
    assert forall|i: int| 0 <= i < 61 implies match (#[trigger] static_table()[i]).1 {
        None => has_name(names, static_table()[i].0@, i + 1),
        Some(value) => has_value(values, static_table()[i].0@, value@, i + 1),
    } by {
        lemma_is_listed(names, values, i);
    }
}

/// No name or value is listed under an index that is not one of the table, or
/// under the index of another.
pub proof fn law_indices_are_told_apart(
    names: Seq<(&'static str, usize)>,
    values: Seq<(&'static str, Vec<(&'static str, usize)>)>,
    index: int,
    name: Seq<char>,
    value: Seq<char>,
    other: Seq<char>,
    other_value: Seq<char>,
)
    requires
        lists_names(names, 61),
        lists_values(values, 61),
    ensures
        has_name(names, name, index) && has_name(names, other, index) ==> name == other,
        has_value(values, name, value, index) && has_value(values, other, other_value, index)
            ==> name == other && value == other_value,
        has_name(names, name, index) ==> !has_value(values, other, value, index),
        has_name(names, name, index) || has_value(values, name, value, index) ==> 1 <= index <= 61,
{
}

/// The number of bytes an entry of a table has room for its name, and for its
/// value.
pub const FIELD_LEN: usize = 128;

/// An entry of a table, as the parser program holds it.
pub struct HeaderField {
    /// The name, padded with zeros.
    pub key: Vec<u8>,

    /// The length of the name.
    pub key_len: u8,

    /// The value, padded with zeros.
    pub val: Vec<u8>,

    /// The length of the value.
    pub val_len: u8,

    /// Whether the name is Huffman coded.
    pub key_huff: u8,

    /// Whether the value is Huffman coded.
    pub val_huff: u8,
}

/// The bytes, cut off behind or padded with zeros to [`FIELD_LEN`].
pub open spec fn padded(bytes: Seq<u8>) -> Seq<u8> {
    Seq::new(
        FIELD_LEN as nat,
        |i: int|
            if i < bytes.len() {
                bytes[i]
            } else {
                0
            },
    )
}

/// The low byte of a length.
pub open spec fn low_byte(len: nat) -> u8 {
    (len % 256) as u8
}

impl HeaderField {
    /// Whether the entry holds a name and a value that are Huffman coded as
    /// `key` and `val`.
    pub open spec fn holds(self, key: Seq<u8>, val: Seq<u8>) -> bool {
        &&& self.key@ == padded(key)
        &&& self.key_len == low_byte(key.len())
        &&& self.val@ == padded(val)
        &&& self.val_len == low_byte(val.len())
        &&& self.key_huff == 1
        &&& self.val_huff == 1
    }

    /// Whether the entry holds all of a name and a value that are Huffman coded
    /// as `key` and `val`: neither is cut off.
    pub open spec fn holds_all(self, key: Seq<u8>, val: Seq<u8>) -> bool {
        &&& self.holds(key, val)
        &&& key.len() <= FIELD_LEN
        &&& val.len() <= FIELD_LEN
    }

    /// Returns the entry that holds the Huffman codes of a name and of a value.
    pub fn coded(key: Vec<u8>, val: Vec<u8>) -> (r: HeaderField)
        ensures
            r.holds(key@, val@),
    {
        let ghost (k, v) = (key@, val@);
        let key_len = (key.len() % 256) as u8;
        let val_len = (val.len() % 256) as u8;
        let mut key = key;
        let mut val = val;
        key.resize(FIELD_LEN, 0);
        val.resize(FIELD_LEN, 0);
        assert(key@ =~= padded(k));
        assert(val@ =~= padded(v));
        HeaderField { key, key_len, val, val_len, key_huff: 1, val_huff: 1 }
    }
}

/// The Huffman codes of the name and the value of an entry, if both have one. An
/// entry without a value has the code of nothing.
pub open spec fn codes(entry: Entry) -> Option<(Seq<u8>, Seq<u8>)> {
    let key = huffman_code(entry.0.spec_bytes());
    let val = match entry.1 {
        Some(val) => huffman_code(val.spec_bytes()),
        None => Some(Seq::empty()),
    };
    match (key, val) {
        (Some(key), Some(val)) => Some((key, val)),
        _ => None,
    }
}

/// Whether the Huffman code of a string has room in an entry of a table, however
/// its characters are coded.
spec fn is_short(s: &str) -> bool {
    4 * s.spec_bytes().len() <= FIELD_LEN
}

/// A string of few ASCII characters is short.
proof fn lemma_is_short(s: &str)
    requires
        is_ascii_chars(s@),
        4 * s@.len() <= FIELD_LEN,
    ensures
        is_short(s),
{
    assert(is_ascii(s));
}

/// The names and the values of the static table are short.
proof fn lemma_entries_are_short(i: int)
    requires
        0 <= i < static_table().len(),
    ensures
        is_short(static_table()[i].0),
        static_table()[i].1 matches Some(val) ==> is_short(val),
{
    reveal_strlit("authority");
    lemma_is_short("authority");
    reveal_strlit("method");
    lemma_is_short("method");
    reveal_strlit("GET");
    lemma_is_short("GET");
    reveal_strlit("POST");
    lemma_is_short("POST");
    reveal_strlit("path");
    lemma_is_short("path");
    reveal_strlit("/");
    lemma_is_short("/");
    reveal_strlit("/index.html");
    lemma_is_short("/index.html");
    reveal_strlit("scheme");
    lemma_is_short("scheme");
    reveal_strlit("http");
    lemma_is_short("http");
    reveal_strlit("https");
    lemma_is_short("https");
    reveal_strlit("status");
    lemma_is_short("status");
    reveal_strlit("200");
    lemma_is_short("200");
    reveal_strlit("204");
    lemma_is_short("204");
    reveal_strlit("206");
    lemma_is_short("206");
    reveal_strlit("304");
    lemma_is_short("304");
    reveal_strlit("400");
    lemma_is_short("400");
    reveal_strlit("404");
    lemma_is_short("404");
    reveal_strlit("500");
    lemma_is_short("500");
    reveal_strlit("accept-charset");
    lemma_is_short("accept-charset");
    reveal_strlit("accept-encoding");
    lemma_is_short("accept-encoding");
    reveal_strlit("gzip, deflate");
    lemma_is_short("gzip, deflate");
    reveal_strlit("accept-language");
    lemma_is_short("accept-language");
    reveal_strlit("accept-ranges");
    lemma_is_short("accept-ranges");
    reveal_strlit("accept");
    lemma_is_short("accept");
    reveal_strlit("access-control-allow-origin");
    lemma_is_short("access-control-allow-origin");
    reveal_strlit("age");
    lemma_is_short("age");
    reveal_strlit("allow");
    lemma_is_short("allow");
    reveal_strlit("authorization");
    lemma_is_short("authorization");
    reveal_strlit("cache-control");
    lemma_is_short("cache-control");
    reveal_strlit("content-disposition");
    lemma_is_short("content-disposition");
    reveal_strlit("content-encoding");
    lemma_is_short("content-encoding");
    reveal_strlit("content-language");
    lemma_is_short("content-language");
    reveal_strlit("content-length");
    lemma_is_short("content-length");
    reveal_strlit("content-location");
    lemma_is_short("content-location");
    reveal_strlit("content-range");
    lemma_is_short("content-range");
    reveal_strlit("content-type");
    lemma_is_short("content-type");
    reveal_strlit("cookie");
    lemma_is_short("cookie");
    reveal_strlit("date");
    lemma_is_short("date");
    reveal_strlit("etag");
    lemma_is_short("etag");
    reveal_strlit("expect");
    lemma_is_short("expect");
    reveal_strlit("expires");
    lemma_is_short("expires");
    reveal_strlit("from");
    lemma_is_short("from");
    reveal_strlit("host");
    lemma_is_short("host");
    reveal_strlit("if-match");
    lemma_is_short("if-match");
    reveal_strlit("if-modified-since");
    lemma_is_short("if-modified-since");
    reveal_strlit("if-none-match");
    lemma_is_short("if-none-match");
    reveal_strlit("if-range");
    lemma_is_short("if-range");
    reveal_strlit("if-unmodified-since");
    lemma_is_short("if-unmodified-since");
    reveal_strlit("last-modified");
    lemma_is_short("last-modified");
    reveal_strlit("link");
    lemma_is_short("link");
    reveal_strlit("location");
    lemma_is_short("location");
    reveal_strlit("max-forwards");
    lemma_is_short("max-forwards");
    reveal_strlit("proxy-authenticate");
    lemma_is_short("proxy-authenticate");
    reveal_strlit("proxy-authorization");
    lemma_is_short("proxy-authorization");
    reveal_strlit("range");
    lemma_is_short("range");
    reveal_strlit("referer");
    lemma_is_short("referer");
    reveal_strlit("refresh");
    lemma_is_short("refresh");
    reveal_strlit("retry-after");
    lemma_is_short("retry-after");
    reveal_strlit("server");
    lemma_is_short("server");
    reveal_strlit("set-cookie");
    lemma_is_short("set-cookie");
    reveal_strlit("strict-transport-security");
    lemma_is_short("strict-transport-security");
    reveal_strlit("transfer-encoding");
    lemma_is_short("transfer-encoding");
    reveal_strlit("user-agent");
    lemma_is_short("user-agent");
    reveal_strlit("vary");
    lemma_is_short("vary");
    reveal_strlit("via");
    lemma_is_short("via");
    reveal_strlit("www-authenticate");
    lemma_is_short("www-authenticate");
}

/// Whether the fields are the entries of the static table, each under its index
/// and Huffman encoded.
pub open spec fn holds_table(fields: Seq<(u32, HeaderField)>) -> bool {
    &&& fields.len() == NUM_ENTRIES
    &&& forall|i: int|
        0 <= i < NUM_ENTRIES ==> {
            &&& (#[trigger] fields[i]).0 == i + 1
            &&& codes(static_table()[i]) matches Some((key, val)) && fields[i].1.holds_all(
                key,
                val,
            )
        }
}

/// Whether the bytes, behind which there are only zeros, and the length are those
/// of `code`.
pub open spec fn spells_code(bytes: Seq<u8>, len: u8, code: Seq<u8>) -> bool {
    &&& bytes.len() == 128
    &&& len == code.len()
    &&& code.len() <= 128
    &&& forall|i: int| 0 <= i < code.len() ==> #[trigger] bytes[i] == code[i]
    &&& forall|i: int| code.len() <= i < 128 ==> #[trigger] bytes[i] == 0
}

/// Whether the entry with that index is one with the name and the value, both
/// Huffman coded, or with the name and an empty value if there is none.
pub open spec fn has_entry(
    fields: Seq<(u32, HeaderField)>,
    index: int,
    name: &str,
    value: Option<&str>,
) -> bool {
    exists|i: int|
        0 <= i < fields.len() && (#[trigger] fields[i]).0 == index && {
            let field = fields[i].1;
            &&& huffman_code(name.spec_bytes()) matches Some(code)
            &&& spells_code(field.key@, field.key_len, code)
            &&& field.key_huff == 1
            &&& field.val_huff == 1
            &&& match value {
                Some(value) => huffman_code(value.spec_bytes()) matches Some(code) && spells_code(
                    field.val@,
                    field.val_len,
                    code,
                ),
                None => spells_code(field.val@, field.val_len, Seq::empty()),
            }
        }
}

/// The static table of the parser program is filled with the entries of appendix
/// A of RFC 7541, under their indices.
pub proof fn law_static_entries_are_those_of_appendix_a(fields: Seq<(u32, HeaderField)>)
    requires
        holds_table(fields),
    ensures
        fields.len() == 61,
        has_entry(fields, 1, "authority", None),
        has_entry(fields, 2, "method", Some("GET")),
        has_entry(fields, 3, "method", Some("POST")),
        has_entry(fields, 4, "path", Some("/")),
        has_entry(fields, 5, "path", Some("/index.html")),
        has_entry(fields, 6, "scheme", Some("http")),
        has_entry(fields, 7, "scheme", Some("https")),
        has_entry(fields, 8, "status", Some("200")),
        has_entry(fields, 9, "status", Some("204")),
        has_entry(fields, 10, "status", Some("206")),
        has_entry(fields, 11, "status", Some("304")),
        has_entry(fields, 12, "status", Some("400")),
        has_entry(fields, 13, "status", Some("404")),
        has_entry(fields, 14, "status", Some("500")),
        has_entry(fields, 15, "accept-charset", None),
        has_entry(fields, 16, "accept-encoding", Some("gzip, deflate")),
        has_entry(fields, 17, "accept-language", None),
        has_entry(fields, 18, "accept-ranges", None),
        has_entry(fields, 19, "accept", None),
        has_entry(fields, 20, "access-control-allow-origin", None),
        has_entry(fields, 21, "age", None),
        has_entry(fields, 22, "allow", None),
        has_entry(fields, 23, "authorization", None),
        has_entry(fields, 24, "cache-control", None),
        has_entry(fields, 25, "content-disposition", None),
        has_entry(fields, 26, "content-encoding", None),
        has_entry(fields, 27, "content-language", None),
        has_entry(fields, 28, "content-length", None),
        has_entry(fields, 29, "content-location", None),
        has_entry(fields, 30, "content-range", None),
        has_entry(fields, 31, "content-type", None),
        has_entry(fields, 32, "cookie", None),
        has_entry(fields, 33, "date", None),
        has_entry(fields, 34, "etag", None),
        has_entry(fields, 35, "expect", None),
        has_entry(fields, 36, "expires", None),
        has_entry(fields, 37, "from", None),
        has_entry(fields, 38, "host", None),
        has_entry(fields, 39, "if-match", None),
        has_entry(fields, 40, "if-modified-since", None),
        has_entry(fields, 41, "if-none-match", None),
        has_entry(fields, 42, "if-range", None),
        has_entry(fields, 43, "if-unmodified-since", None),
        has_entry(fields, 44, "last-modified", None),
        has_entry(fields, 45, "link", None),
        has_entry(fields, 46, "location", None),
        has_entry(fields, 47, "max-forwards", None),
        has_entry(fields, 48, "proxy-authenticate", None),
        has_entry(fields, 49, "proxy-authorization", None),
        has_entry(fields, 50, "range", None),
        has_entry(fields, 51, "referer", None),
        has_entry(fields, 52, "refresh", None),
        has_entry(fields, 53, "retry-after", None),
        has_entry(fields, 54, "server", None),
        has_entry(fields, 55, "set-cookie", None),
        has_entry(fields, 56, "strict-transport-security", None),
        has_entry(fields, 57, "transfer-encoding", None),
        has_entry(fields, 58, "user-agent", None),
        has_entry(fields, 59, "vary", None),
        has_entry(fields, 60, "via", None),
        has_entry(fields, 61, "www-authenticate", None),
{
    assert forall|i: int| 0 <= i < 61 implies has_entry(
        fields,
        i + 1,
        (#[trigger] static_table()[i]).0,
        static_table()[i].1,
    ) by {
        assert(fields[i].0 == i + 1);
    }
}

/// Returns what to fill the static table of the parser program with: for every
/// entry the index it is stored under and the entry itself, Huffman encoded.
///
/// # Errors
///
/// Returns an error if an entry cannot be encoded, but every one can.
pub fn static_entries() -> (r: Result<Vec<(u32, HeaderField)>, Error>)
    ensures
        r matches Ok(fields) && holds_table(fields@),
{
    let entries = entries();
    let mut fields: Vec<(u32, HeaderField)> = Vec::new();
    let mut i: usize = 0;
    while i < NUM_ENTRIES
        invariant
            i <= NUM_ENTRIES,
            entries@ == static_table(),
            static_table().len() == NUM_ENTRIES,
            fields@.len() == i,
            forall|j: int|
                0 <= j < i ==> {
                    &&& (#[trigger] fields@[j]).0 == j + 1
                    &&& codes(static_table()[j]) matches Some((key, val)) && fields@[j].1.holds_all(
                        key,
                        val,
                    )
                },
        decreases NUM_ENTRIES - i,
    {
        let (name, value) = entries[i];
        assert(static_table()[i as int] == (name, value));
        proof {
            lemma_entries_are_short(i as int);
        }
        let key = match encode(name.as_bytes()) {
            Ok(key) => key,
            Err(err) => return Err(Error::from(err)),
        };
        let val = match value {
            Some(value) => match encode(value.as_bytes()) {
                Ok(val) => val,
                Err(err) => return Err(Error::from(err)),
            },
            None => Vec::new(),
        };
        assert(codes(static_table()[i as int]) == Some((key@, val@)));
        let ghost before = fields@;
        let field = HeaderField::coded(key, val);
        fields.push(((i + 1) as u32, field));
        i += 1;
        assert forall|j: int| 0 <= j < i implies {
            &&& (#[trigger] fields@[j]).0 == j + 1
            &&& codes(static_table()[j]) matches Some((key, val)) && fields@[j].1.holds_all(
                key,
                val,
            )
        } by {
            if j < i - 1 {
                assert(fields@[j] == before[j]);
            } else {
                assert(fields@[j] == ((j + 1) as u32, field));
            }
        }
    }
    Ok(fields)
}

} // verus!

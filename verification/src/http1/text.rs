//! What a parser captures of a message, in terms of the bytes of the message.

use super::heads::lemma_head_bytes;
use super::label::{begins, is_method, is_name_byte, method, preface_bytes, status_bytes};
use super::laws::{header, law_message_is_captured, law_preface_is_captured};
use super::labelled::is_key;
use super::message::{
    are_lines, bytes_of, is_blank, is_name, line_break, lowered, on_one_line, uppered, First, Line,
};
use super::shape::{
    field_id, is_capturable, lemma_keys, method_key, path_key, status_key, Config,
};
use crate::dfa::action::Effect;
use crate::dfa::laws::{alike, law_case_is_that_of_ascii, same_letter};
use crate::dfa::model::{lower, upper, Auto, Draft, INIT_STATE};
use crate::dfa::walk::Report;
use crate::{MatchId, StateId};
use vstd::prelude::*;

verus! {

/// Whether the bytes are one of the methods of HTTP, in whichever case: `POST`,
/// `GET`, `PUT`, `PATCH`, `DELETE`, `HEAD`, `OPTIONS` or `TRACE`.
pub open spec fn is_verb(s: Seq<u8>) -> bool {
    ||| alike(s, seq![0x50, 0x4F, 0x53, 0x54])
    ||| alike(s, seq![0x47, 0x45, 0x54])
    ||| alike(s, seq![0x50, 0x55, 0x54])
    ||| alike(s, seq![0x50, 0x41, 0x54, 0x43, 0x48])
    ||| alike(s, seq![0x44, 0x45, 0x4C, 0x45, 0x54, 0x45])
    ||| alike(s, seq![0x48, 0x45, 0x41, 0x44])
    ||| alike(s, seq![0x4F, 0x50, 0x54, 0x49, 0x4F, 0x4E, 0x53])
    ||| alike(s, seq![0x54, 0x52, 0x41, 0x43, 0x45])
}

/// Whether no byte of the name is a tab, a line feed, a carriage return, a space or
/// a colon.
pub open spec fn is_token(name: Seq<u8>) -> bool {
    forall|i: int|
        0 <= i < name.len() ==> (#[trigger] name[i]) != 0x09 && name[i] != 0x0A && name[i] != 0x0D
            && name[i] != 0x20 && name[i] != 0x3A
}

/// Whether no byte is an upper case letter.
pub open spec fn in_lower_case(name: Seq<u8>) -> bool {
    forall|i: int| 0 <= i < name.len() ==> !(0x41 <= #[trigger] name[i] <= 0x5A)
}

/// Whether the bytes are a value: some, without a line feed, that begin with no
/// whitespace or carriage return and do not end with one.
pub open spec fn is_value(value: Seq<u8>) -> bool {
    &&& value.len() > 0
    &&& forall|i: int| 0 <= i < value.len() ==> #[trigger] value[i] != 0x0A
    &&& value[0] != 0x20 && value[0] != 0x09 && value[0] != 0x0D
    &&& value.last() != 0x0D
}

/// Whether every byte is a space or a tab.
pub open spec fn is_space(bytes: Seq<u8>) -> bool {
    forall|i: int| 0 <= i < bytes.len() ==> #[trigger] bytes[i] == 0x20 || bytes[i] == 0x09
}

/// Whether the bytes end a line: a line feed, with any number of carriage returns
/// before it.
pub open spec fn is_line_end(bytes: Seq<u8>) -> bool {
    &&& bytes.len() > 0
    &&& bytes.last() == 0x0A
    &&& forall|i: int| 0 <= i < bytes.len() - 1 ==> #[trigger] bytes[i] == 0x0D
}

/// A header field on a line of its own.
pub open spec fn field_line(
    name: Seq<u8>,
    before: Seq<u8>,
    after: Seq<u8>,
    value: Seq<u8>,
    end: Seq<u8>,
) -> Seq<u8> {
    name + before + seq![0x3Au8] + after + value + end
}

/// Whether a header field of that name is captured under `mid`: the name is one
/// of the captured ones, in whichever case it is spelled.
pub open spec fn names_field(captures: Map<Seq<u8>, MatchId>, name: Seq<u8>, mid: MatchId) -> bool {
    exists|key: Seq<u8>| #[trigger]
        captures.contains_key(key) && captures[key] == mid && in_lower_case(key) && is_token(key)
            && alike(name, key)
}

/// Whether something is captured under `mid`.
pub open spec fn names(captures: Map<Seq<u8>, MatchId>, key: Seq<u8>, mid: MatchId) -> bool {
    captures.contains_key(key) && captures[key] == mid
}

/// What differs in nothing but its case from bytes in upper case is them in upper
/// case.
proof fn lemma_uppered(s: Seq<u8>, t: Seq<u8>)
    requires
        alike(s, t),
        forall|i: int| 0 <= i < t.len() ==> !(0x61 <= #[trigger] t[i] <= 0x7A),
    ensures
        uppered(s) == t,
{
    assert forall|i: int| 0 <= i < s.len() implies uppered(s)[i] == t[i] by {
        assert(s[i] == t[i] || same_letter(s[i] as int, t[i] as int));
        law_case_is_that_of_ascii(s[i] as u16, t[i] as u16);
        law_case_is_that_of_ascii(t[i] as u16, t[i] as u16);
        assert(upper(t[i] as u16) == t[i]);
    }
    assert(uppered(s) =~= t);
}

/// A name is one of the captured ones in whichever case if and only if it is in
/// lower case.
proof fn lemma_lowered(name: Seq<u8>, key: Seq<u8>)
    requires
        in_lower_case(key),
    ensures
        alike(name, key) <==> lowered(name) == key,
{
    if alike(name, key) {
        assert forall|i: int| 0 <= i < name.len() implies lowered(name)[i] == key[i] by {
            assert(name[i] == key[i] || same_letter(name[i] as int, key[i] as int));
            law_case_is_that_of_ascii(name[i] as u16, key[i] as u16);
            assert(!(0x41 <= key[i] <= 0x5A));
            assert(lower(key[i] as u16) == key[i]);
        }
        assert(lowered(name) =~= key);
    }
    if lowered(name) == key {
        assert(name.len() == key.len());
        assert forall|i: int| 0 <= i < name.len() implies #[trigger] name[i] == key[i]
            || same_letter(name[i] as int, key[i] as int) by {
            assert(lowered(name)[i] == key[i]);
            assert(lower(name[i] as u16) as u8 == key[i]);
            law_case_is_that_of_ascii(name[i] as u16, key[i] as u16);
        }
    }
}

/// The bytes a field is captured by are those of a name in lower case.
proof fn lemma_is_key(key: Seq<u8>)
    ensures
        is_key(key) <==> in_lower_case(key) && is_token(key),
{
    if is_key(key) {
        assert forall|i: int| 0 <= i < key.len() implies !(0x41 <= #[trigger] key[i] <= 0x5A) by {
            assert(lower(key[i] as u16) == key[i]);
        }
        assert forall|i: int| 0 <= i < key.len() implies (#[trigger] key[i]) != 0x09 && key[i]
            != 0x0A && key[i] != 0x0D && key[i] != 0x20 && key[i] != 0x3A by {
            assert(is_name_byte(key[i] as u16));
        }
    }
    if in_lower_case(key) && is_token(key) {
        assert forall|i: int| 0 <= i < key.len() implies is_name_byte(#[trigger] key[i] as u16)
            && lower(key[i] as u16) == key[i] by {
            assert(!(0x41 <= key[i] <= 0x5A));
        }
    }
}

/// A header field can be captured if and only if its name is in lower case and
/// holds nothing that separates it from what is around it. Of the first line the
/// method, the path and the status code can.
pub proof fn law_every_token_can_be_captured(key: Seq<u8>)
    ensures
        is_capturable(key) <==> {
            ||| in_lower_case(key) && is_token(key)
            ||| key == seq![0x3Au8, 0x6D, 0x65, 0x74, 0x68, 0x6F, 0x64]
            ||| key == seq![0x3Au8, 0x70, 0x61, 0x74, 0x68]
            ||| key == seq![0x3Au8, 0x73, 0x74, 0x61, 0x74, 0x75, 0x73]
        },
{
    lemma_is_key(key);
    lemma_keys();
}

/// The id a field is captured under is that of the captured name it is spelled
/// like.
proof fn lemma_field_id(captures: Map<Seq<u8>, MatchId>, name: Seq<u8>, mid: MatchId)
    ensures
        field_id(captures, lowered(name)) == Some(mid) <==> names_field(captures, name, mid),
{
    let low = lowered(name);
    if field_id(captures, low) == Some(mid) {
        lemma_is_key(low);
        lemma_lowered(name, low);
        assert(captures.contains_key(low));
    }
    if names_field(captures, name, mid) {
        let key = choose|key: Seq<u8>| #[trigger]
            captures.contains_key(key) && captures[key] == mid && in_lower_case(key) && is_token(
                key,
            ) && alike(name, key);
        lemma_is_key(key);
        lemma_lowered(name, key);
    }
}

/// The line of a field.
spec fn line_of(
    name: Seq<u8>,
    before: Seq<u8>,
    after: Seq<u8>,
    value: Seq<u8>,
    end: Seq<u8>,
) -> Line {
    Line { name, before, after, value, crs: (end.len() - 1) as nat }
}

/// The end of a line is as many carriage returns as there are and a line feed.
proof fn lemma_line_end(end: Seq<u8>)
    requires
        is_line_end(end),
    ensures
        line_break((end.len() - 1) as nat) == end,
        forall|i: int| 0 <= i < end.len() - 1 ==> #[trigger] end.drop_last()[i] != 0x0A,
        end.drop_last() + line_break(0) == end,
{
    assert(line_break((end.len() - 1) as nat) =~= end);
    assert(end.drop_last() + line_break(0) =~= end);
}

proof fn lemma_line(
    name: Seq<u8>,
    before: Seq<u8>,
    after: Seq<u8>,
    value: Seq<u8>,
    end: Seq<u8>,
)
    requires
        is_token(name),
        is_space(before),
        is_space(after),
        is_value(value),
        is_line_end(end),
    ensures
        ({
            let lines = seq![line_of(name, before, after, value, end)];
            &&& are_lines(lines)
            &&& bytes_of(lines) == field_line(name, before, after, value, end)
        }),
{
    lemma_line_end(end);
    let line = line_of(name, before, after, value, end);
    let lines = seq![line];
    assert forall|i: int| 0 <= i < name.len() implies is_name_byte(#[trigger] name[i] as u16) by {}
    assert(is_name(name));
    assert(is_blank(before));
    assert(is_blank(after));
    assert(on_one_line(value));
    assert(line.wf());
    assert(lines.drop_first() =~= Seq::<Line>::empty());
    reveal_with_fuel(bytes_of, 2);
    assert(bytes_of(lines) =~= line.bytes());
}

/// Of a request a parser captures the method, the path and the field it is
/// configured to, and nothing else. The request line begins with one of the
/// methods of HTTP and ends with the version, the field is one of any name, in
/// whichever case it is spelled, with whitespace around its colon, and an empty
/// line ends the header block, behind which the parser reads nothing.
pub proof fn law_request_is_captured<A: Effect>(
    config: Config,
    auto: Auto<A>,
    verb: Seq<u8>,
    path: Seq<u8>,
    name: Seq<u8>,
    before: Seq<u8>,
    after: Seq<u8>,
    value: Seq<u8>,
    first_end: Seq<u8>,
    end: Seq<u8>,
    empty: Seq<u8>,
    body: Seq<u8>,
    mid: MatchId,
)
    requires
        config.is_built(auto),
        config.stops,
        config.captures.contains_key(seq![0x3Au8, 0x6D, 0x65, 0x74, 0x68, 0x6F, 0x64])
            || config.captures.contains_key(seq![0x3Au8, 0x70, 0x61, 0x74, 0x68]),
        forall|k: Seq<u8>, l: Seq<u8>|
            k != l && #[trigger] config.captures.contains_key(k)
                && #[trigger] config.captures.contains_key(l) ==> config.captures[k]
                != config.captures[l],
        is_verb(verb),
        path.len() > 0,
        forall|i: int| 0 <= i < path.len() ==> #[trigger] path[i] != 0x0A && path[i] != 0x20,
        is_token(name),
        is_space(before),
        is_space(after),
        is_value(value),
        is_line_end(first_end),
        is_line_end(end),
        is_line_end(empty),
    ensures
        ({
            // " HTTP/1.1" ends the request line
            let line = verb + seq![0x20u8] + path + seq![
                0x20u8,
                0x48,
                0x54,
                0x54,
                0x50,
                0x2F,
                0x31,
                0x2E,
                0x31,
            ] + first_end;
            let block = line + field_line(name, before, after, value, end) + empty;
            let method = seq![0x3Au8, 0x6D, 0x65, 0x74, 0x68, 0x6F, 0x64];
            &&& auto.walk(block + body) matches Some(report)
            &&& report.consumed == block.len()
            &&& names(config.captures, method, mid) ==> report.captures.contains_pair(mid, verb)
            &&& names(config.captures, seq![0x3Au8, 0x70, 0x61, 0x74, 0x68], mid)
                ==> report.captures.contains_pair(mid, path)
            &&& names_field(config.captures, name, mid) ==> report.captures.contains_pair(
                mid,
                value,
            )
            &&& report.captures.contains_key(mid) ==> {
                ||| names(config.captures, method, mid)
                ||| names(config.captures, seq![0x3Au8, 0x70, 0x61, 0x74, 0x68], mid)
                ||| names_field(config.captures, name, mid)
            }
        }),
{
    lemma_keys();
    let version = seq![0x48u8, 0x54, 0x54, 0x50, 0x2F, 0x31, 0x2E, 0x31];
    let rest = version + first_end.drop_last();
    let first = First::Request { method: verb, path, rest };
    let lines = seq![line_of(name, before, after, value, end)];
    lemma_line(name, before, after, value, end);
    lemma_line_end(first_end);
    lemma_line_end(empty);
    assert(on_one_line(rest));
    assert(is_method(uppered(verb))) by {
        lemma_verb(verb);
    }
    let line = verb + seq![0x20u8] + path + seq![
        0x20u8,
        0x48,
        0x54,
        0x54,
        0x50,
        0x2F,
        0x31,
        0x2E,
        0x31,
    ] + first_end;
    let block = line + field_line(name, before, after, value, end) + empty;
    let crs = (empty.len() - 1) as nat;
    assert(first.bytes() =~= verb + seq![0x20u8] + path + seq![0x20u8] + version + (
    first_end.drop_last() + line_break(0)));
    assert(first.bytes() =~= line);
    assert(header(first, lines, crs) =~= block);
    assert(first.wf(config.patterns()));
    law_message_is_captured(config, auto, first, lines, crs, body);
    assert(lines.drop_first() =~= Seq::<Line>::empty());
    reveal_with_fuel(Config::of_lines, 2);
    lemma_field_id(config.captures, name, mid);
    lemma_one_field(config, name);
    if names_field(config.captures, name, mid) {
        lemma_is_key(lowered(name));
    }
}

/// A field is told from what is captured of the first line.
proof fn lemma_one_field(config: Config, name: Seq<u8>)
    ensures
        field_id(config.captures, lowered(name)) is Some ==> {
            &&& config.captures.contains_key(lowered(name))
            &&& field_id(config.captures, lowered(name)) == Some(config.captures[lowered(name)])
            &&& lowered(name) != method_key()
            &&& lowered(name) != path_key()
            &&& lowered(name) != status_key()
        },
{
    lemma_keys();
}

/// What is in upper case what other bytes are differs from them in nothing but its
/// case.
proof fn lemma_alike(s: Seq<u8>, t: Seq<u8>)
    requires
        uppered(s) == t,
    ensures
        alike(s, t),
{
    assert(s.len() == t.len());
    assert forall|i: int| 0 <= i < s.len() implies #[trigger] s[i] == t[i] || same_letter(
        s[i] as int,
        t[i] as int,
    ) by {
        assert(uppered(s)[i] == t[i]);
        law_case_is_that_of_ascii(s[i] as u16, t[i] as u16);
    }
}

/// What is a method in upper case is one of the methods of HTTP.
proof fn lemma_method(s: Seq<u8>)
    requires
        is_method(uppered(s)),
    ensures
        is_verb(s),
{
    let k = choose|k: int| 0 <= k < 8 && #[trigger] method(k) == uppered(s);
    lemma_alike(s, method(k));
}

proof fn lemma_verb(verb: Seq<u8>)
    requires
        is_verb(verb),
    ensures
        is_method(uppered(verb)),
{
    if alike(verb, method(0)) {
        lemma_uppered(verb, method(0));
        assert(method(0) == uppered(verb));
    } else if alike(verb, method(1)) {
        lemma_uppered(verb, method(1));
        assert(method(1) == uppered(verb));
    } else if alike(verb, method(2)) {
        lemma_uppered(verb, method(2));
        assert(method(2) == uppered(verb));
    } else if alike(verb, method(3)) {
        lemma_uppered(verb, method(3));
        assert(method(3) == uppered(verb));
    } else if alike(verb, method(4)) {
        lemma_uppered(verb, method(4));
        assert(method(4) == uppered(verb));
    } else if alike(verb, method(5)) {
        lemma_uppered(verb, method(5));
        assert(method(5) == uppered(verb));
    } else if alike(verb, method(6)) {
        lemma_uppered(verb, method(6));
        assert(method(6) == uppered(verb));
    } else {
        lemma_uppered(verb, method(7));
        assert(method(7) == uppered(verb));
    }
}

/// Of a response a parser captures the status code and the field it is configured
/// to, and nothing else. The status line begins with the version, in whichever
/// case, behind which three bytes are the code, and the rest of the response is
/// like that of a request.
pub proof fn law_response_is_captured<A: Effect>(
    config: Config,
    auto: Auto<A>,
    version: Seq<u8>,
    code: Seq<u8>,
    reason: Seq<u8>,
    name: Seq<u8>,
    before: Seq<u8>,
    after: Seq<u8>,
    value: Seq<u8>,
    first_end: Seq<u8>,
    end: Seq<u8>,
    empty: Seq<u8>,
    body: Seq<u8>,
    mid: MatchId,
)
    requires
        config.is_built(auto),
        config.stops,
        config.captures.contains_key(seq![0x3Au8, 0x73, 0x74, 0x61, 0x74, 0x75, 0x73]),
        forall|k: Seq<u8>, l: Seq<u8>|
            k != l && #[trigger] config.captures.contains_key(k)
                && #[trigger] config.captures.contains_key(l) ==> config.captures[k]
                != config.captures[l],
        // "HTTP/1.1 "
        alike(version, seq![0x48, 0x54, 0x54, 0x50, 0x2F, 0x31, 0x2E, 0x31, 0x20]),
        code.len() == 3,
        forall|i: int| 0 <= i < code.len() ==> #[trigger] code[i] != 0x0A,
        forall|i: int| 0 <= i < reason.len() ==> #[trigger] reason[i] != 0x0A,
        is_token(name),
        is_space(before),
        is_space(after),
        is_value(value),
        is_line_end(first_end),
        reason.len() > 0 || first_end.len() > 1,
        is_line_end(end),
        is_line_end(empty),
    ensures
        ({
            let line = version + code + reason + first_end;
            let block = line + field_line(name, before, after, value, end) + empty;
            let status = seq![0x3Au8, 0x73, 0x74, 0x61, 0x74, 0x75, 0x73];
            &&& auto.walk(block + body) matches Some(report)
            &&& report.consumed == block.len()
            &&& names(config.captures, status, mid) ==> report.captures.contains_pair(mid, code)
            &&& names_field(config.captures, name, mid) ==> report.captures.contains_pair(
                mid,
                value,
            )
            &&& report.captures.contains_key(mid) ==> {
                ||| names(config.captures, status, mid)
                ||| names_field(config.captures, name, mid)
            }
        }),
{
    lemma_keys();
    let rest = reason + first_end.drop_last();
    let first = First::Status { version, code, reason: rest };
    let lines = seq![line_of(name, before, after, value, end)];
    lemma_line(name, before, after, value, end);
    lemma_line_end(first_end);
    lemma_line_end(empty);
    assert(on_one_line(rest));
    lemma_uppered(version, seq![0x48, 0x54, 0x54, 0x50, 0x2F, 0x31, 0x2E, 0x31, 0x20]);
    assert(uppered(version) == status_bytes());
    let line = version + code + reason + first_end;
    let block = line + field_line(name, before, after, value, end) + empty;
    let crs = (empty.len() - 1) as nat;
    assert(first.bytes() =~= version + code + reason + (first_end.drop_last() + line_break(0)));
    assert(first.bytes() =~= line);
    assert(header(first, lines, crs) =~= block);
    assert(first.wf(config.patterns()));
    law_message_is_captured(config, auto, first, lines, crs, body);
    assert(lines.drop_first() =~= Seq::<Line>::empty());
    reveal_with_fuel(Config::of_lines, 2);
    lemma_field_id(config.captures, name, mid);
    lemma_one_field(config, name);
    if names_field(config.captures, name, mid) {
        lemma_is_key(lowered(name));
    }
}

/// A parser that is to match the preface of an HTTP/2 connection, which is
/// `PRI * HTTP/2.0` and `SM` with an empty line behind each, captures all of it and
/// stops behind it.
pub proof fn law_preface_is_spelled_out<A: Effect>(
    config: Config,
    auto: Auto<A>,
    mid: MatchId,
    rest: Seq<u8>,
)
    requires
        config.is_built(auto),
        config.preface == Some(mid),
    ensures
        ({
            let preface = seq![
                0x50u8, 0x52, 0x49, 0x20, 0x2A, 0x20, 0x48, 0x54, 0x54, 0x50, 0x2F, 0x32, 0x2E,
                0x30, 0x0D, 0x0A, 0x0D, 0x0A, 0x53, 0x4D, 0x0D, 0x0A, 0x0D, 0x0A,
            ];
            auto.walk(preface + rest) == Some(
                Report { consumed: 24, captures: Map::empty().insert(mid, preface) },
            )
        }),
{
    law_preface_is_captured(config, auto, rest);
    assert(preface_bytes().len() == 24);
}

/// Nothing is captured of a first line that begins neither with one of the methods
/// of HTTP nor with the version, in whichever case. The field is captured all the
/// same.
pub proof fn law_nothing_is_captured_of_another_first_line<A: Effect>(
    config: Config,
    auto: Auto<A>,
    first: Seq<u8>,
    name: Seq<u8>,
    before: Seq<u8>,
    after: Seq<u8>,
    value: Seq<u8>,
    end: Seq<u8>,
    empty: Seq<u8>,
    body: Seq<u8>,
    mid: MatchId,
)
    requires
        config.is_built(auto),
        config.stops,
        config.preface is None,
        forall|n: int| 0 <= n <= first.len() ==> !is_verb(#[trigger] first.take(n)),
        // "HTTP/1.1 "
        first.len() >= 9 ==> !alike(
            first.take(9),
            seq![0x48, 0x54, 0x54, 0x50, 0x2F, 0x31, 0x2E, 0x31, 0x20],
        ),
        forall|i: int| 0 <= i < first.len() ==> #[trigger] first[i] != 0x0A,
        is_token(name),
        is_space(before),
        is_space(after),
        is_value(value),
        is_line_end(end),
        is_line_end(empty),
    ensures
        ({
            let block = first + seq![0x0Au8] + field_line(name, before, after, value, end) + empty;
            &&& auto.walk(block + body) matches Some(report)
            &&& report.consumed == block.len()
            &&& names_field(config.captures, name, mid) ==> report.captures.contains_pair(
                mid,
                value,
            )
            &&& report.captures.contains_key(mid) ==> names_field(config.captures, name, mid)
        }),
{
    lemma_keys();
    let line = First::Other(first);
    let lines = seq![line_of(name, before, after, value, end)];
    lemma_line(name, before, after, value, end);
    lemma_line_end(empty);
    let block = first + seq![0x0Au8] + field_line(name, before, after, value, end) + empty;
    let crs = (empty.len() - 1) as nat;
    assert(line_break(0) =~= seq![0x0Au8]);
    assert(header(line, lines, crs) =~= block);
    assert forall|n: int| 0 <= n <= first.len() implies !is_method(
        #[trigger] uppered(first).take(n),
    ) by {
        let s = first.take(n);
        assert(uppered(first).take(n) =~= uppered(s));
        if is_method(uppered(s)) {
            lemma_method(s);
        }
    }
    if begins(uppered(first), status_bytes()) {
        let s = first.take(9);
        assert(uppered(first).take(9) =~= uppered(s));
        lemma_alike(s, status_bytes());
    }
    assert(line.wf(config.patterns()));
    law_message_is_captured(config, auto, line, lines, crs, body);
    assert(lines.drop_first() =~= Seq::<Line>::empty());
    reveal_with_fuel(Config::of_lines, 2);
    lemma_field_id(config.captures, name, mid);
}

/// Lines of a header block come one after the other, and every one of them adds to
/// what was captured before it: what its value holds, if that is not empty, in
/// place of what an earlier field was captured with under the same id.
pub proof fn law_block_is_read_line_by_line(
    config: Config,
    captures: Map<MatchId, Seq<u8>>,
    lines: Seq<Line>,
    line: Line,
    mid: MatchId,
)
    ensures
        ({
            let carriage_returns = Seq::new(line.crs, |i: int| 0x0Du8);
            bytes_of(lines.push(line)) == bytes_of(lines) + line.name + line.before + seq![0x3Au8]
                + line.after + line.value + carriage_returns + seq![0x0Au8]
        }),
        ({
            let earlier = config.of_lines(captures, lines);
            let later = config.of_lines(captures, lines.push(line));
            if line.value.len() > 0 && names_field(config.captures, line.name, mid) {
                later.contains_pair(mid, line.value)
            } else {
                &&& later.contains_key(mid) <==> earlier.contains_key(mid)
                &&& later.contains_key(mid) ==> later[mid] == earlier[mid]
            }
        }),
    decreases lines.len(),
{
    let all = lines.push(line);
    let carriage_returns = Seq::new(line.crs, |i: int| 0x0Du8);
    if lines.len() == 0 {
        assert(all.drop_first() =~= lines);
        reveal_with_fuel(bytes_of, 2);
        reveal_with_fuel(Config::of_lines, 2);
        lemma_field_id(config.captures, line.name, mid);
        assert(bytes_of(all) =~= bytes_of(lines) + line.name + line.before + seq![0x3Au8]
            + line.after + line.value + carriage_returns + seq![0x0Au8]);
    } else {
        let rest = lines.drop_first();
        assert(all.drop_first() =~= rest.push(line));
        law_block_is_read_line_by_line(
            config,
            config.of_line(captures, lines[0]),
            rest,
            line,
            mid,
        );
        assert(bytes_of(all) =~= bytes_of(lines) + line.name + line.before + seq![0x3Au8]
            + line.after + line.value + carriage_returns + seq![0x0Au8]);
    }
}

/// A line is one a parser makes out if and only if there is nothing but a name,
/// whitespace, a colon and a value, or none, on it.
pub proof fn law_every_field_is_a_line(line: Line)
    ensures
        line.wf() <==> is_token(line.name) && is_space(line.before) && is_space(line.after) && (
        line.value.len() == 0 || is_value(line.value)),
{
    if line.wf() {
        assert forall|i: int| 0 <= i < line.name.len() implies (#[trigger] line.name[i]) != 0x09
            && line.name[i] != 0x0A && line.name[i] != 0x0D && line.name[i] != 0x20
            && line.name[i] != 0x3A by {
            assert(is_name_byte(line.name[i] as u16));
        }
    }
    if is_token(line.name) && is_space(line.before) && is_space(line.after) && (line.value.len()
        == 0 || is_value(line.value)) {
        assert forall|i: int| 0 <= i < line.name.len() implies is_name_byte(
            #[trigger] line.name[i] as u16,
        ) by {}
    }
}

/// The preface is matched as it is spelled: the pattern a new parser gets for it
/// reads no letter in lower case, and nothing else that is not in it, so a message
/// that begins otherwise is none.
pub proof fn law_preface_is_matched_in_upper_case<A>(start: A, end: A, from: StateId, i: u16)
    requires
        Draft::start(Auto::<A>::fresh(2), INIT_STATE).h2_preface(start, end).auto.has(from, i),
    ensures
        i < 0x80,
        !(0x61 <= i <= 0x7A),
        i == 0x0A || i == 0x0D || i == 0x20 || i == 0x2A || i == 0x2E || i == 0x2F || i == 0x30
            || i == 0x32 || i == 0x48 || i == 0x49 || i == 0x4D || i == 0x50 || i == 0x52 || i
            == 0x53 || i == 0x54,
{
    lemma_head_bytes();
    let d0 = Draft::start(Auto::<A>::fresh(2), INIT_STATE);
    let d1 = d0.with(start);
    let d2 = d1.steps(preface_bytes(), None, true);
    assert(d0.again(INIT_STATE) =~= d0);
    d0.lemma_settle();
    d0.lemma_with(start);
    d0.lemma_mark(start);
    if d1.auto.has(from, i) {
        assert(d0.auto.has(from, i));
    }
    d1.lemma_plain_steps(preface_bytes(), true);
    d2.lemma_settle();
    d2.lemma_mark(end);
    assert(d2.auto.has(from, i));
    d1.law_pushed_string_reads_nothing_else(preface_bytes(), None, true, from, i);
}

} // verus!

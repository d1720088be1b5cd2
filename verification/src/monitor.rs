//! The parsers a monitor of HTTP traffic logs requests and responses with.

use crate::dfa::action::Action;
use crate::dfa::model::Auto;
use crate::dfa::parser::{spelled, MAX_MATCHES};
use crate::h2;
use crate::h2::action::S_RESERVED;
use crate::h2::hpack::representations;
use crate::http1;
use crate::http1::labelled::is_key;
use crate::http1::parser::{key_of, law_preface_fits};
use crate::http1::pattern::closed_auto;
use crate::http1::shape::{
    is_capturable, law_field_is_captured_besides_others, law_new_parser_captures_nothing,
    lemma_keys, path_key, states_for, status_key,
};
use crate::pseudo_header::{PATH, STATUS};
use crate::text::{ascii_lower, lemma_ascii, to_lowercase};
use crate::{Error, MatchId, MessageBuffer};
use vstd::prelude::*;
use vstd::string::*;
use vstd::utf8::is_ascii_chars;

verus! {

/// The match ids of what the monitor logs of an HTTP/1.x message.
#[derive(Clone, Copy, Debug, PartialEq, Eq, Structural)]
pub struct Ids {
    /// The preface of an HTTP/2 connection.
    pub preface: MatchId,

    /// The path of a request.
    pub path: MatchId,

    /// The languages a client asks for.
    pub accept_language: MatchId,

    /// The status code of a response.
    pub status: MatchId,
}

/// The bytes the header with the languages a client asks for is matched by.
pub open spec fn accept_language() -> Seq<u8> {
    "accept-language".spec_bytes()
}

/// Captures a field whose name is spelled in lower case.
fn capture(parser: &mut http1::Parser, name: &str) -> (r: Result<MatchId, Error>)
    requires
        old(parser).wf(),
        closed_auto(old(parser).dfa@),
        old(parser).config(Some(MatchId(0))).is_built(old(parser).dfa@),
        old(parser).num_matches < MAX_MATCHES,
        is_ascii_chars(name@),
        forall|i: int| 0 <= i < name@.len() ==> !('A' <= #[trigger] name@[i] <= 'Z'),
        is_capturable(name.spec_bytes()),
        old(parser).dfa@.num_states + states_for(name.spec_bytes()) <= u16::MAX,
        !old(parser).proto.captures@.contains_key(name.spec_bytes()),
    ensures
        r == Ok::<MatchId, Error>(MatchId(old(parser).num_matches)),
        final(parser).wf(),
        closed_auto(final(parser).dfa@),
        final(parser).config(Some(MatchId(0))).is_built(final(parser).dfa@),
        final(parser).dfa@.num_states <= old(parser).dfa@.num_states + states_for(
            name.spec_bytes(),
        ),
        final(parser).captures_on_top(
            old(parser),
            name.spec_bytes(),
            MatchId(old(parser).num_matches),
        ),
{
    let lower = to_lowercase(name);
    proof {
        assert(name@.map_values(|c: char| ascii_lower(c)) =~= name@);
        assert(key_of(name) == name.spec_bytes());
        let mid = MatchId(parser.num_matches);
        law_field_is_captured_besides_others(
            parser.config(Some(MatchId(0))),
            parser.dfa@,
            name.spec_bytes(),
            mid,
            Action::StartCapture(mid),
            Action::EndCapture(mid),
        );
    }
    let ghost before = *parser;
    let r = parser.capture_hdr(name);
    assert(parser.config(Some(MatchId(0))) == before.config(Some(MatchId(0))).capture(
        name.spec_bytes(),
        MatchId(before.num_matches),
    ));
    r
}

/// Returns the parser the monitor logs HTTP/1.x messages with, and the match
/// ids of what it captures: the preface of an HTTP/2 connection, the path, the
/// languages the client asks for and the status code.
pub fn http1_parser() -> (r: Result<(http1::Parser, Ids), Error>)
    ensures
        r matches Ok((parser, ids)) && {
            &&& parser.wf()
            &&& closed_auto(parser.dfa@)
            &&& parser.num_matches == 4
            &&& ids == (Ids {
                preface: MatchId(0),
                path: MatchId(1),
                accept_language: MatchId(2),
                status: MatchId(3),
            })
            &&& parser.proto.captures@ == Map::<Seq<u8>, MatchId>::empty().insert(
                path_key(),
                ids.path,
            ).insert(accept_language(), ids.accept_language).insert(status_key(), ids.status)
            &&& parser.config(Some(ids.preface)).is_built(parser.dfa@)
            &&& parser.dfa@.num_states + 2 <= u16::MAX
            &&& parser.parse_fns@ == Map::<MessageBuffer, Seq<char>>::empty().insert(
                MessageBuffer::Msg,
                "parse_http1"@,
            )
            &&& spelled(parser.matched_fn) == Some("matched_http1"@)
            &&& parser.extract_fns@ == Map::<MessageBuffer, Seq<char>>::empty().insert(
                MessageBuffer::Msg,
                "extract_http1_match"@,
            )
        },
{
    proof {
        lemma_names();
    }
    let mut parser = http1::Parser::new();
    proof {
        law_new_parser_captures_nothing::<Action>();
        assert(parser.config(None) == crate::http1::shape::Config::empty());
        law_preface_fits(parser, MatchId(0));
    }
    let ghost before = parser;
    let preface = match parser.match_http2_preface() {
        Ok(mid) => mid,
        Err(err) => return Err(err),
    };
    assert(parser.config(Some(MatchId(0))) == before.config(Some(MatchId(0))));
    let path = match capture(&mut parser, PATH.as_str()) {
        Ok(mid) => mid,
        Err(err) => return Err(err),
    };
    let accept_language = match capture(&mut parser, "accept-language") {
        Ok(mid) => mid,
        Err(err) => return Err(err),
    };
    let status = match capture(&mut parser, STATUS.as_str()) {
        Ok(mid) => mid,
        Err(err) => return Err(err),
    };
    let ghost captured = parser;
    let parser = parser.parse_fn("parse_http1", MessageBuffer::Msg).matched_fn(
        "matched_http1",
    ).extract_fn("extract_http1_match", MessageBuffer::Msg);
    assert(parser.config(Some(MatchId(0))) == captured.config(Some(MatchId(0))));
    Ok((parser, Ids { preface, path, accept_language, status }))
}

/// What the monitor captures are names fields can have, spelled in lower case.
proof fn lemma_names()
    ensures
        is_ascii_chars(":path"@),
        forall|i: int| 0 <= i < ":path"@.len() ==> !('A' <= #[trigger] ":path"@[i] <= 'Z'),
        is_ascii_chars(":status"@),
        forall|i: int| 0 <= i < ":status"@.len() ==> !('A' <= #[trigger] ":status"@[i] <= 'Z'),
        is_ascii_chars("accept-language"@),
        forall|i: int|
            0 <= i < "accept-language"@.len() ==> !('A' <= #[trigger] "accept-language"@[i]
                <= 'Z'),
        is_key(accept_language()),
        accept_language().len() == 15,
        path_key().len() == 5,
        status_key().len() == 7,
        path_key() != status_key(),
        !is_key(path_key()),
        !is_key(status_key()),
{
    lemma_keys();
    reveal_strlit(":path");
    reveal_strlit(":status");
    reveal_strlit("accept-language");
    let bytes = seq![
        0x61u8,
        0x63,
        0x63,
        0x65,
        0x70,
        0x74,
        0x2D,
        0x6C,
        0x61,
        0x6E,
        0x67,
        0x75,
        0x61,
        0x67,
        0x65,
    ];
    lemma_ascii("accept-language", bytes);
}

/// Returns the parser the monitor logs HTTP/2 frames with. It captures nothing.
pub fn http2_parser() -> (r: h2::Parser)
    ensures
        r.wf(),
        r.dfa@ == (Auto { num_states: S_RESERVED as int, edges: representations() }),
        r.num_matches == 0,
        r.captures@ == Map::<Seq<u8>, MatchId>::empty(),
        r.matches_captures(),
        r.parse_fns@ == Map::<MessageBuffer, Seq<char>>::empty().insert(
            MessageBuffer::Msg,
            "parse_http2"@,
        ),
        r.matched_fn is None,
        r.extract_fns@ == Map::<MessageBuffer, Seq<char>>::empty(),
        r.get_dynamic_table_entry_fn is None,
{
    h2::Parser::new().parse_fn("parse_http2", MessageBuffer::Msg)
}

/// The languages a client asks for are those of the field `accept-language`.
pub proof fn law_languages_are_those_of_accept_language()
    ensures
        accept_language() == seq![
            0x61u8, 0x63, 0x63, 0x65, 0x70, 0x74, 0x2D, 0x6C, 0x61, 0x6E, 0x67, 0x75, 0x61, 0x67,
            0x65,
        ],
        path_key() == seq![0x3Au8, 0x70, 0x61, 0x74, 0x68],
        status_key() == seq![0x3Au8, 0x73, 0x74, 0x61, 0x74, 0x75, 0x73],
{
    lemma_keys();
    reveal_strlit("accept-language");
    let bytes = seq![
        0x61u8, 0x63, 0x63, 0x65, 0x70, 0x74, 0x2D, 0x6C, 0x61, 0x6E, 0x67, 0x75, 0x61, 0x67, 0x65,
    ];
    lemma_ascii("accept-language", bytes);
}

} // verus!

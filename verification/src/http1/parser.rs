//! Configures which header fields an HTTP/1.x parser captures.

use crate::dfa::captures::Captures;
use crate::dfa::model::{Auto, Draft, ANY_STATE, INIT_STATE};
use crate::dfa::action::Action;
use crate::dfa::parser::{self as dfa_parser, loads, next_match, MAX_MATCHES};
use crate::dfa::plan::Attachment;
use crate::dfa::table::Limits;
use crate::http1::block::joined;
use crate::http1::laws::{
    header, law_message_is_captured, law_parser_stops_behind_the_empty_line,
};
use crate::http1::message::{are_lines, line_break, First, Line};
use crate::http1::pattern::{
    captured, closed_auto, header_end_fits, lemma_captured_bounded, push_captured,
    push_h2_preface, push_header_end,
};
use crate::http1::shape::{
    capturable, is_capturable, law_field_is_captured_besides_others, law_parser_is_made_to_stop,
    law_preface_is_captured_besides_others, states_for, Config,
};
use crate::dfa::walk::Report;
use crate::text::{clone_bytes_of, lowercase, to_lowercase};
use crate::{Error, MatchId};
use vstd::prelude::*;
use vstd::string::*;
use vstd::utf8::encode_utf8;

verus! {

/// What a [`Parser`] keeps track of while it is being configured.
pub struct Http1 {
    /// The match id of every header captured so far, lowercased as the parser
    /// matches it, so that a header asked for twice is captured once.
    pub captures: Captures,
}

impl Default for Http1 {
    fn default() -> (r: Http1)
        ensures
            r.captures@ == Map::<Seq<u8>, MatchId>::empty(),
    {
        Http1 { captures: Captures::new() }
    }
}

/// A parser for HTTP/1.x messages.
///
/// The builder methods configure which fields the parser captures and which
/// functions of the target program it replaces. Nothing is loaded into the
/// kernel until the parser is attached.
pub type Parser = dfa_parser::Parser<Http1>;

/// The bytes a header is matched and remembered by, whichever case its name is
/// given in.
pub open spec fn key_of(name: &str) -> Seq<u8> {
    encode_utf8(lowercase(name@))
}

/// The automaton with the field `key` names captured under `mid`.
pub open spec fn capturing(auto: Auto<Action>, key: Seq<u8>, mid: MatchId) -> Draft<Action> {
    captured(auto, key, Action::StartCapture(mid), Action::EndCapture(mid))
}

/// The automaton with the preface of an HTTP/2 connection captured under `mid`.
pub open spec fn matching_preface(auto: Auto<Action>, mid: MatchId) -> Draft<Action> {
    Draft::start(auto, INIT_STATE).h2_preface(
        Action::StartCapture(mid),
        Action::EndCaptureAndDone(mid),
    )
}

/// The automaton that is done at the end of the header block.
pub open spec fn ending(auto: Auto<Action>) -> Draft<Action> {
    Draft::start(auto, ANY_STATE).header_end(Action::Done)
}

impl Parser {
    /// Whether `self` is the parser `old` with one more field captured.
    pub open spec fn captures_on_top(&self, old: &Parser, key: Seq<u8>, mid: MatchId) -> bool {
        &&& self.dfa@ == capturing(old.dfa@, key, mid).auto
        &&& self.num_matches == old.num_matches + 1
        &&& self.proto.captures@ == old.proto.captures@.insert(key, mid)
        &&& *self == (dfa_parser::Parser {
            dfa: self.dfa,
            num_matches: self.num_matches,
            proto: self.proto,
            ..*old
        })
    }

    /// What capturing a field returns that is not captured yet, and what it
    /// leaves of the parser `old`.
    pub open spec fn captures_key(
        &self,
        old: &Parser,
        key: Seq<u8>,
        r: Result<MatchId, Error>,
    ) -> bool {
        &&& r == next_match(old.num_matches)
        &&& match r {
            Ok(mid) => self.captures_on_top(old, key, mid),
            Err(_) => *self == *old,
        }
    }

    /// Whether there is room for the patterns of the field `key` names, if the
    /// parser has to take them on.
    pub open spec fn has_room_for(&self, key: Seq<u8>) -> bool {
        !self.proto.captures@.contains_key(key) && self.num_matches < MAX_MATCHES ==> capturing(
            self.dfa@,
            key,
            MatchId(self.num_matches),
        ).fits
    }

    /// Configures the parser to capture the value of a header field.
    ///
    /// The field is matched case insensitively and its value is captured up to
    /// the end of the line, without the optional whitespace that may follow the
    /// colon. [`METHOD`](crate::pseudo_header::METHOD),
    /// [`PATH`](crate::pseudo_header::PATH) and
    /// [`STATUS`](crate::pseudo_header::STATUS) are not header fields in
    /// HTTP/1.x and are captured from the request or status line instead.
    ///
    /// # Arguments
    ///
    /// * `name` - The header name whose value to capture, matched case
    ///   insensitively. A [`PseudoHeaderName`](crate::PseudoHeaderName) names a
    ///   field of the request or status line.
    ///
    /// # Errors
    ///
    /// Returns an error if the parser already captures as many fields as the
    /// parser program has room for.
    ///
    /// # Returns
    ///
    /// The match ID that can be used in eBPF to extract the captured value. A
    /// header that is already captured keeps the ID it was given the first
    /// time, rather than being captured a second time under a new one.
    pub fn capture_hdr(&mut self, name: &str) -> (r: Result<MatchId, Error>)
        requires
            old(self).wf(),
            closed_auto(old(self).dfa@),
            old(self).has_room_for(key_of(name)),
        ensures
            final(self).wf(),
            closed_auto(final(self).dfa@),
            if old(self).proto.captures@.contains_key(key_of(name)) {
                &&& r == Ok::<MatchId, Error>(old(self).proto.captures@[key_of(name)])
                &&& *final(self) == *old(self)
            } else {
                final(self).captures_key(old(self), key_of(name), r)
            },
    {
        let name = to_lowercase(name);
        if let Some(mid) = self.proto.captures.get(name.as_str().as_bytes()) {
            return Ok(mid);
        }
        self.capture_new_hdr(name.as_str())
    }

    /// What the parser captures, besides the preface `preface` names.
    pub open spec fn config(&self, preface: Option<MatchId>) -> Config {
        Config { captures: self.proto.captures@, preface, stops: false }
    }

    /// Whether the patterns of the parser are those of what it captures.
    pub open spec fn is_tidy(&self) -> bool {
        exists|preface: Option<MatchId>| #[trigger] self.config(preface).is_built(self.dfa@)
    }

    /// Whether the parser can take on the patterns of the field `key` names for
    /// certain.
    pub open spec fn can_capture(&self, key: Seq<u8>) -> bool {
        is_capturable(key) && self.dfa@.num_states + states_for(key) <= u16::MAX
    }

    /// Same as [`Parser::capture_hdr`], but returns `None`, and leaves the
    /// parser as it is, if `name` is no name a field can have or if there may
    /// not be enough state ids left for its patterns.
    pub fn try_capture_hdr(&mut self, name: &str) -> (r: Option<Result<MatchId, Error>>)
        requires
            old(self).wf(),
            closed_auto(old(self).dfa@),
            old(self).is_tidy(),
        ensures
            final(self).wf(),
            closed_auto(final(self).dfa@),
            final(self).is_tidy(),
            forall|preface: Option<MatchId>| #[trigger]
                old(self).config(preface).is_built(old(self).dfa@) ==> final(self).config(
                    preface,
                ).is_built(final(self).dfa@),
            if old(self).proto.captures@.contains_key(key_of(name)) {
                &&& r == Some(Ok::<MatchId, Error>(old(self).proto.captures@[key_of(name)]))
                &&& *final(self) == *old(self)
            } else if old(self).num_matches >= MAX_MATCHES || old(self).can_capture(key_of(name)) {
                r matches Some(r) && final(self).captures_key(old(self), key_of(name), r)
            } else {
                r is None && *final(self) == *old(self)
            },
    {
        let lower = to_lowercase(name);
        let key = lower.as_str();
        if self.proto.captures.get(key.as_bytes()).is_none() && self.num_matches < MAX_MATCHES {
            let left = (u16::MAX - self.dfa.num_states()) as usize;
            if !capturable(key) || left < 60 || left - 60 < key.as_bytes().len() {
                return None;
            }
        }
        let ghost mid = MatchId(self.num_matches);
        let ghost before = *self;
        proof {
            if !self.proto.captures@.contains_key(key_of(name)) && self.num_matches < MAX_MATCHES {
                let start = Action::StartCapture(mid);
                let end = Action::EndCapture(mid);
                assert forall|preface: Option<MatchId>| #[trigger]
                    before.config(preface).is_built(before.dfa@) implies capturing(
                    before.dfa@,
                    key_of(name),
                    mid,
                ).fits && before.config(preface).capture(key_of(name), mid).is_built(
                    capturing(before.dfa@, key_of(name), mid).auto,
                ) by {
                    law_field_is_captured_besides_others(
                        before.config(preface),
                        before.dfa@,
                        key_of(name),
                        mid,
                        start,
                        end,
                    );
                }
            }
        }
        let r = self.capture_hdr(name);
        proof {
            assert forall|preface: Option<MatchId>| #[trigger]
                before.config(preface).is_built(before.dfa@) implies self.config(
                preface,
            ).is_built(self.dfa@) by {
                if r is Ok && !before.proto.captures@.contains_key(key_of(name)) {
                    assert(self.config(preface) == before.config(preface).capture(
                        key_of(name),
                        mid,
                    ));
                }
            }
            let preface = choose|preface: Option<MatchId>| #[trigger]
                before.config(preface).is_built(before.dfa@);
            assert(self.config(preface).is_built(self.dfa@));
        }
        Some(r)
    }

    /// Configures the parser to capture the value of a header field it does
    /// not capture yet, whose name is spelled in lower case, see
    /// [`Parser::capture_hdr`].
    pub fn capture_new_hdr(&mut self, name: &str) -> (r: Result<MatchId, Error>)
        requires
            old(self).wf(),
            closed_auto(old(self).dfa@),
            !old(self).proto.captures@.contains_key(name.spec_bytes()),
            old(self).has_room_for(name.spec_bytes()),
        ensures
            final(self).wf(),
            closed_auto(final(self).dfa@),
            final(self).captures_key(old(self), name.spec_bytes(), r),
    {
        match self.new_match() {
            Ok(mid) => {
                proof {
                    lemma_captured_bounded(
                        self.dfa@,
                        name.spec_bytes(),
                        Action::StartCapture(mid),
                        Action::EndCapture(mid),
                    );
                }
                push_captured(
                    &mut self.dfa,
                    name,
                    Action::StartCapture(mid),
                    Action::EndCapture(mid),
                );
                self.proto.captures.insert(clone_bytes_of(name.as_bytes()), mid);
                Ok(mid)
            },
            Err(err) => Err(err),
        }
    }

    /// Configures the parser to match an HTTP/2 preface in an HTTP/1.1 connection.
    ///
    /// This method sets up pattern matching for the HTTP/2 connection preface
    /// (`PRI * HTTP/2.0\r\n\r\nSM\r\n\r\n`), which is used to upgrade from HTTP/1.1 to HTTP/2.
    ///
    /// The preface is captured as a match, so the target program can detect the
    /// upgrade and switch to an HTTP/2 parser for the rest of the connection.
    ///
    /// # Errors
    ///
    /// Returns an error if the parser already captures as many fields as the
    /// parser program has room for.
    ///
    /// # Returns
    ///
    /// The match ID that can be used in eBPF to extract the captured value.
    pub fn match_http2_preface(&mut self) -> (r: Result<MatchId, Error>)
        requires
            old(self).wf(),
            closed_auto(old(self).dfa@),
            old(self).num_matches < MAX_MATCHES ==> matching_preface(
                old(self).dfa@,
                MatchId(old(self).num_matches),
            ).fits,
        ensures
            final(self).wf(),
            closed_auto(final(self).dfa@),
            r == next_match(old(self).num_matches),
            match r {
                Ok(mid) => {
                    &&& final(self).dfa@ == matching_preface(old(self).dfa@, mid).auto
                    &&& final(self).num_matches == old(self).num_matches + 1
                    &&& *final(self) == (dfa_parser::Parser {
                        dfa: final(self).dfa,
                        num_matches: final(self).num_matches,
                        ..*old(self)
                    })
                },
                Err(_) => *final(self) == *old(self),
            },
    {
        match self.new_match() {
            Ok(mid) => {
                proof {
                    Draft::start(self.dfa@, INIT_STATE).lemma_h2_preface_bounded(
                        Action::StartCapture(mid),
                        Action::EndCaptureAndDone(mid),
                    );
                }
                push_h2_preface(
                    &mut self.dfa,
                    Action::StartCapture(mid),
                    Action::EndCaptureAndDone(mid),
                );
                Ok(mid)
            },
            Err(err) => Err(err),
        }
    }

    /// Returns whether the parser can be attached: its patterns leave room for
    /// that of the end of the header block.
    pub fn can_attach(&self) -> (r: bool)
        requires
            self.wf(),
            closed_auto(self.dfa@),
        ensures
            r == ending(self.dfa@).fits,
    {
        header_end_fits(&self.dfa, Action::Done)
    }

    /// Configures the parser to stop at the empty line that ends the header
    /// block, so that it never walks into the body of a message.
    fn done_on_hdr_end(&mut self)
        requires
            old(self).wf(),
            closed_auto(old(self).dfa@),
            ending(old(self).dfa@).fits,
        ensures
            final(self).wf(),
            closed_auto(final(self).dfa@),
            final(self).dfa@ == ending(old(self).dfa@).auto,
            *final(self) == (dfa_parser::Parser { dfa: final(self).dfa, ..*old(self) }),
    {
        proof {
            Draft::start(self.dfa@, ANY_STATE).lemma_header_end_bounded(Action::Done);
        }
        push_header_end(&mut self.dfa, Action::Done);
    }

    /// Returns what attaching the configured parser to a target program takes.
    ///
    /// Every function configured with [`Parser::parse_fn`],
    /// [`Parser::matched_fn`] or [`Parser::extract_fn`] is replaced in the
    /// target program, the remaining parser programs are left
    /// unloaded. The parser always stops at the end of the header block, no
    /// matter which patterns were configured.
    ///
    /// # Arguments
    ///
    /// * `limits` - The room the tables of the parser program have
    ///
    /// # Errors
    ///
    /// Returns an error if the patterns do not fit into the tables of the parser
    /// program.
    pub fn attach(self, limits: Limits) -> (r: Result<Attachment<Action>, Error>)
        requires
            self.wf(),
            closed_auto(self.dfa@),
            ending(self.dfa@).fits,
            limits.actions <= 0x10000,
        ensures
            loads(self.replaced(), ending(self.dfa@).auto, limits, r),
    {
        let mut parser = self;
        parser.done_on_hdr_end();
        parser.load(limits)
    }
}

/// A parser whose patterns are those of what it captures, but do not capture the
/// preface of an HTTP/2 connection yet, stays one when it is to capture it, and
/// has room for it.
pub proof fn law_preface_fits(parser: Parser, mid: MatchId)
    requires
        parser.config(None).is_built(parser.dfa@),
        parser.dfa@.num_states + 24 <= u16::MAX,
    ensures
        matching_preface(parser.dfa@, mid).fits,
        parser.config(Some(mid)).is_built(matching_preface(parser.dfa@, mid).auto),
        matching_preface(parser.dfa@, mid).auto.num_states <= parser.dfa@.num_states + 24,
{
    law_preface_is_captured_besides_others(
        parser.config(None),
        parser.dfa@,
        mid,
        Action::StartCapture(mid),
        Action::EndCaptureAndDone(mid),
    );
}

/// A parser whose patterns are those of what it captures can be attached, and
/// captures all of that of a message once it is.
pub proof fn law_attached_parser_captures(
    parser: Parser,
    preface: Option<MatchId>,
    first: First,
    lines: Seq<Line>,
    crs: nat,
    body: Seq<u8>,
)
    requires
        parser.config(preface).is_built(parser.dfa@),
        parser.dfa@.num_states + 2 <= u16::MAX,
        first.wf((Config { stops: true, ..parser.config(preface) }).patterns()),
        are_lines(lines),
    ensures
        ending(parser.dfa@).fits,
        ({
            let config = Config { stops: true, ..parser.config(preface) };
            ending(parser.dfa@).auto.walk(header(first, lines, crs) + body) == Some(
                Report {
                    consumed: header(first, lines, crs).len() as int,
                    captures: config.of_lines(config.of_first(first), lines),
                },
            )
        }),
{
    let config = Config { stops: true, ..parser.config(preface) };
    law_parser_is_made_to_stop(parser.config(preface), parser.dfa@, Action::Done);
    law_message_is_captured(config, ending(parser.dfa@).auto, first, lines, crs, body);
}

/// A parser whose patterns are those of what it captures always stops at the end
/// of the header block once it is attached, no matter what the lines of the block
/// hold.
pub proof fn law_attached_parser_stops(
    parser: Parser,
    preface: Option<MatchId>,
    first: First,
    lines: Seq<Seq<u8>>,
    crs: nat,
    body: Seq<u8>,
)
    requires
        parser.config(preface).is_built(parser.dfa@),
        parser.dfa@.num_states + 2 <= u16::MAX,
        first.wf(parser.config(preface).patterns()),
        forall|k: int|
            0 <= k < lines.len() ==> parser.config(preface).is_filled(#[trigger] lines[k]),
    ensures
        ending(parser.dfa@).fits,
        ({
            let block = first.bytes() + joined(lines) + line_break(crs);
            ending(parser.dfa@).auto.walk(block + body) matches Some(report) && report.consumed
                == block.len()
        }),
{
    let config = Config { stops: true, ..parser.config(preface) };
    law_parser_is_made_to_stop(parser.config(preface), parser.dfa@, Action::Done);
    assert(config.patterns() == parser.config(preface).patterns());
    assert forall|k: int| 0 <= k < lines.len() implies config.is_filled(#[trigger] lines[k]) by {
        let line = lines[k];
        assert(parser.config(preface).is_filled(line));
        let j = choose|j: int|
            0 <= j < line.len() && parser.config(preface).fills_line(#[trigger] line[j]);
        assert(config.fills_line(line[j]));
    }
    law_parser_stops_behind_the_empty_line(
        config,
        ending(parser.dfa@).auto,
        first,
        lines,
        crs,
        body,
    );
}

} // verus!

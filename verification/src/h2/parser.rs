//! Configures which header fields an HTTP/2 parser captures.

use super::action::{Action, S_NAME, S_RESERVED};
use super::hpack;
use super::hpack::representations;
use super::huffman::{encode, huffman_code};
use crate::dfa::captures::Captures;
use crate::dfa::model::{Auto, Draft};
use crate::dfa::parser::{next_match, spelled, FnNames, MAX_MATCHES};
use crate::dfa::plan::{attachment, carries_out, Attachment, Replaced};
use crate::dfa::table::{Limits, TableError};
use crate::dfa::Dfa;
use crate::text::clone_bytes_of;
use crate::{Error, MatchId, MessageBuffer};
use vstd::prelude::*;

verus! {

/// A parser for HTTP/2 messages.
///
/// The builder methods configure which fields the parser captures and which
/// functions of the target program it replaces. Nothing is loaded into the
/// kernel until the parser is attached.
pub struct Parser {
    /// The patterns configured so far, compiled into a DFA.
    pub dfa: Dfa<Action>,

    /// The number of matches occuring in the patterns.
    pub num_matches: u8,

    /// The parse function name for each message buffer.
    pub parse_fns: FnNames,

    /// The matched function name. It is agnostic to the message buffer.
    pub matched_fn: Option<String>,

    /// The extract function name for each message buffer.
    pub extract_fns: FnNames,

    /// The function name to retrieve dynamic table entries.
    pub get_dynamic_table_entry_fn: Option<String>,

    /// The match id of every header captured so far, keyed by the name as it
    /// travels the wire, so that a header asked for twice is captured once.
    pub captures: Captures,
}

/// The automaton with the Huffman code of a field name captured under `mid`.
pub open spec fn capturing(auto: Auto<Action>, code: Seq<u8>, mid: MatchId) -> Draft<Action> {
    Draft::start(auto, S_NAME).steps(code, None, true).with(Action::capturing(mid))
}

/// Whether the automaton has room for the Huffman code of a field name that is
/// captured under `mid`: there is a state for every byte of it, and nothing else
/// is done where it ends.
pub open spec fn has_room(auto: Auto<Action>, code: Seq<u8>, mid: MatchId) -> bool {
    capturing(auto, code, mid).fits
}

impl Parser {
    /// Whether the parser is one: its automaton is deterministic and leads to no
    /// state it does not have, and the parser has handed out no more match ids
    /// than there are.
    pub open spec fn wf(&self) -> bool {
        &&& self.dfa.wf()
        &&& self.dfa@.in_bounds()
        &&& S_RESERVED <= self.dfa@.num_states <= u16::MAX
        &&& self.num_matches <= MAX_MATCHES
    }

    /// Whether the parser has room for one more header, whose name is Huffman
    /// coded as `code`.
    pub open spec fn has_room_for(&self, code: Seq<u8>) -> bool {
        has_room(self.dfa@, code, MatchId(self.num_matches))
    }

    /// Whether the parser matches the names it captures, and no others, see
    /// [`matches_names`].
    pub open spec fn matches_captures(&self) -> bool {
        matches_names(self.dfa@, self.captures@)
    }

    /// Whether the parser has room for one more header of that name. It has if
    /// there is room for the Huffman code of the name, and is known to if it
    /// matches nothing but the names it captures, this one is not one of them,
    /// and as many state ids are left as its code has bytes at most.
    pub open spec fn has_room_for_name(&self, name: Seq<u8>) -> bool {
        ||| (huffman_code(name) matches Some(code) ==> self.has_room_for(code))
        ||| {
            &&& self.matches_captures()
            &&& !self.captures@.contains_key(name)
            &&& name.len() > 0
            &&& self.dfa@.num_states + 4 * name.len() <= u16::MAX
        }
    }

    /// Creates a new HTTP/2 parser.
    ///
    /// Additional configuration must be done through the builder methods before
    /// it is attached.
    pub fn new() -> (r: Parser)
        ensures
            r.wf(),
            r.dfa@ == (Auto { num_states: S_RESERVED as int, edges: representations() }),
            r.num_matches == 0,
            r.parse_fns@ == Map::<MessageBuffer, Seq<char>>::empty(),
            r.matched_fn is None,
            r.extract_fns@ == Map::<MessageBuffer, Seq<char>>::empty(),
            r.get_dynamic_table_entry_fn is None,
            r.captures@ == Map::<Seq<u8>, MatchId>::empty(),
            r.matches_captures(),
    {
        let dfa = hpack::dfa();
        proof {
            law_new_parser_matches_no_name(dfa@);
            law_new_parser_has_a_trie(dfa@);
        }
        Parser {
            dfa,
            num_matches: 0,
            parse_fns: FnNames::new(),
            matched_fn: None,
            extract_fns: FnNames::new(),
            get_dynamic_table_entry_fn: None,
            captures: Captures::new(),
        }
    }

    /// Specifies the function template in the target program to be replaced with an HTTP/2
    /// parser. The function will not be replaced until the parser is attached.
    ///
    /// # Arguments
    ///
    /// * `parse_fn` - The name of the function to replace in the target program
    /// * `msg_buf` - The type of buffer to parse
    pub fn parse_fn(self, parse_fn: &str, msg_buf: MessageBuffer) -> (r: Parser)
        ensures
            r.parse_fns@ == self.parse_fns@.insert(msg_buf, parse_fn@),
            r == (Parser { parse_fns: r.parse_fns, ..self }),
    {
        let mut parser = self;
        parser.parse_fns.insert(msg_buf, parse_fn.to_owned());
        parser
    }

    /// Specifies the function template in the target program to be called when a pattern match
    /// is completed. The function will not be replaced until the parser is attached.
    ///
    /// # Arguments
    ///
    /// * `matched_fn` - The name of the matched callback function in the target program
    pub fn matched_fn(self, matched_fn: &str) -> (r: Parser)
        ensures
            spelled(r.matched_fn) == Some(matched_fn@),
            r == (Parser { matched_fn: r.matched_fn, ..self }),
    {
        let mut parser = self;
        parser.matched_fn = Some(matched_fn.to_owned());
        parser
    }

    /// Specifies the function template in the target program to be called when extracting
    /// matched content. The function will not be replaced until the parser is attached.
    ///
    /// # Arguments
    ///
    /// * `extract_fn` - The name of the extract callback function in the target program
    /// * `msg_buf` - The type of buffer to extract the match from
    pub fn extract_fn(self, extract_fn: &str, msg_buf: MessageBuffer) -> (r: Parser)
        ensures
            r.extract_fns@ == self.extract_fns@.insert(msg_buf, extract_fn@),
            r == (Parser { extract_fns: r.extract_fns, ..self }),
    {
        let mut parser = self;
        parser.extract_fns.insert(msg_buf, extract_fn.to_owned());
        parser
    }

    /// Specifies the function template in the target program to be replaced with a reader of the
    /// connection's dynamic table (`BEEPER_H2_GET_DT_ENTRY`). The function will not be replaced
    /// until the parser is attached.
    ///
    /// # Arguments
    ///
    /// * `get_dynamic_table_entry_fn` - The name of the dynamic table entry reader function in
    ///   the target program
    pub fn get_dynamic_table_entry(self, get_dynamic_table_entry_fn: &str) -> (r: Parser)
        ensures
            spelled(r.get_dynamic_table_entry_fn) == Some(get_dynamic_table_entry_fn@),
            r == (Parser { get_dynamic_table_entry_fn: r.get_dynamic_table_entry_fn, ..self }),
    {
        let mut parser = self;
        parser.get_dynamic_table_entry_fn = Some(get_dynamic_table_entry_fn.to_owned());
        parser
    }

    /// Whether `self` is the parser `old` with one more header captured, whose
    /// name is Huffman coded as `code`.
    pub open spec fn captures_on_top(
        &self,
        old: &Parser,
        name: Seq<u8>,
        code: Seq<u8>,
        mid: MatchId,
    ) -> bool {
        &&& self.dfa@ == capturing(old.dfa@, code, mid).auto
        &&& self.num_matches == old.num_matches + 1
        &&& self.captures@ == old.captures@.insert(name, mid)
        &&& *self == (Parser {
            dfa: self.dfa,
            num_matches: self.num_matches,
            captures: self.captures,
            ..*old
        })
    }

    /// What capturing a header returns that is not captured yet, and what it
    /// leaves of the parser `old`, if its name is Huffman coded as `code`.
    pub open spec fn captures_code(
        &self,
        old: &Parser,
        name: Seq<u8>,
        code: Seq<u8>,
        r: Result<MatchId, Error>,
    ) -> bool {
        &&& r == next_match(old.num_matches)
        &&& match r {
            Ok(mid) => self.captures_on_top(old, name, code, mid),
            Err(_) => *self == *old,
        }
    }

    /// Configures the parser to capture the value of a header field.
    ///
    /// The field name is matched in its Huffman encoded form, which is how
    /// HPACK puts it on the wire. Fields the peer replaced with an index into
    /// the static or the dynamic table are matched against the entry the index
    /// resolves to. A [`PseudoHeaderName`](crate::PseudoHeaderName) carries the
    /// leading colon HTTP/2 spells it with.
    ///
    /// # Arguments
    ///
    /// * `name` - The header name whose value to capture, as it travels the
    ///   wire
    ///
    /// # Errors
    ///
    /// Returns an error if the parser already captures as many fields as the
    /// parser program has room for. One is returned as well if `name` cannot be
    /// Huffman encoded, but every name can.
    ///
    /// # Returns
    ///
    /// The match ID that can be used in eBPF to extract the captured value. A
    /// header that is already captured keeps the ID it was given the first
    /// time, rather than being captured a second time under a new one.
    pub fn capture_hdr(&mut self, name: &[u8]) -> (r: Result<MatchId, Error>)
        requires
            old(self).wf(),
            !old(self).captures@.contains_key(name@) && old(self).num_matches < MAX_MATCHES
                ==> old(self).has_room_for_name(name@),
        ensures
            final(self).wf(),
            old(self).matches_captures() && name@.len() > 0 ==> final(self).matches_captures(),
            final(self).dfa@.num_states <= old(self).dfa@.num_states + 4 * name@.len(),
            if old(self).captures@.contains_key(name@) {
                &&& r == Ok::<MatchId, Error>(old(self).captures@[name@])
                &&& *final(self) == *old(self)
            } else {
                huffman_code(name@) matches Some(code) && final(self).captures_code(
                    old(self),
                    name@,
                    code,
                    r,
                )
            },
    {
        if let Some(mid) = self.captures.get(name) {
            return Ok(mid);
        }
        match encode(name) {
            Ok(code) => {
                proof {
                    if self.matches_captures() && name@.len() > 0 && self.num_matches
                        < MAX_MATCHES {
                        let mid = MatchId(self.num_matches);
                        if self.dfa@.num_states + code@.len() <= u16::MAX {
                            law_new_header_has_room(self.dfa@, self.captures@, name@, code@, mid);
                        }
                        law_captured_headers_are_the_ones_matched(
                            self.dfa@,
                            self.captures@,
                            name@,
                            code@,
                            mid,
                        );
                    }
                    if self.num_matches < MAX_MATCHES {
                        law_capture_takes_few_states(
                            self.dfa@,
                            code@,
                            MatchId(self.num_matches),
                        );
                    }
                }
                self.capture_code(name, code.as_slice())
            },
            Err(err) => Err(Error::from(err)),
        }
    }

    /// Configures the parser to capture the value of a header field it does not
    /// capture yet, whose name is Huffman coded as `code`, see
    /// [`Parser::capture_hdr`].
    pub fn capture_code(&mut self, name: &[u8], code: &[u8]) -> (r: Result<MatchId, Error>)
        requires
            old(self).wf(),
            !old(self).captures@.contains_key(name@),
            old(self).num_matches < MAX_MATCHES ==> old(self).has_room_for(code@),
        ensures
            final(self).wf(),
            final(self).captures_code(old(self), name@, code@, r),
    {
        match self.new_match() {
            Ok(mid) => {
                let ghost start = Draft::start(self.dfa@, S_NAME);
                let ghost pushed = start.steps(code@, None, true);
                proof {
                    start.lemma_steps(code@, None, true);
                    start.lemma_steps_bounded(code@, None, true);
                    start.lemma_plain_steps(code@, true);
                    pushed.lemma_settle();
                    pushed.lemma_with(Action::capturing(mid));
                    pushed.lemma_with_bounded(Action::capturing(mid));
                }
                let mut pattern = self.dfa.start_pattern(S_NAME);
                pattern.push_bytes(code).with(Action::capture(mid));
                proof {
                    pattern.lemma_view();
                }
                self.captures.insert(clone_bytes_of(name), mid);
                Ok(mid)
            },
            Err(err) => Err(err),
        }
    }

    /// Same as [`Parser::capture_hdr`], but returns `None`, and leaves the
    /// parser as it is, if there are not enough state ids left for the name, or
    /// something else is done already where its code ends.
    pub fn try_capture_hdr(&mut self, name: &[u8]) -> (r: Option<Result<MatchId, Error>>)
        requires
            old(self).wf(),
        ensures
            final(self).wf(),
            old(self).matches_captures() && name@.len() > 0 ==> final(self).matches_captures(),
            final(self).dfa@.num_states <= old(self).dfa@.num_states + 4 * name@.len(),
            if old(self).captures@.contains_key(name@) {
                &&& r == Some(Ok::<MatchId, Error>(old(self).captures@[name@]))
                &&& *final(self) == *old(self)
            } else {
                huffman_code(name@) matches Some(code) && if old(self).num_matches >= MAX_MATCHES
                    || old(self).has_room_for(code) {
                    r matches Some(r) && final(self).captures_code(old(self), name@, code, r)
                } else {
                    r is None && *final(self) == *old(self)
                }
            },
    {
        if self.captures.get(name).is_none() && self.num_matches < MAX_MATCHES {
            if let Ok(code) = encode(name) {
                if !self.dfa.has_room_for(
                    S_NAME,
                    code.as_slice(),
                    Action::capture(MatchId(self.num_matches)),
                ) {
                    return None;
                }
            }
        }
        Some(self.capture_hdr(name))
    }

    /// Returns an unused match id.
    ///
    /// # Errors
    ///
    /// Returns an error if the parser is already configured with
    /// [`MAX_MATCHES`] matches, as the parser program has no room to tell one
    /// more apart from them.
    fn new_match(&mut self) -> (r: Result<MatchId, Error>)
        requires
            old(self).wf(),
        ensures
            final(self).wf(),
            r == next_match(old(self).num_matches),
            *final(self) == (Parser {
                num_matches: if old(self).num_matches < MAX_MATCHES {
                    (old(self).num_matches + 1) as u8
                } else {
                    old(self).num_matches
                },
                ..*old(self)
            }),
    {
        if self.num_matches >= MAX_MATCHES {
            return Err(Error::MatchLimitExceeded(MAX_MATCHES as usize));
        }
        let id = MatchId(self.num_matches);
        self.num_matches += 1;
        Ok(id)
    }

    /// The functions of the target program the parser is configured to replace.
    pub open spec fn replaced(&self) -> Replaced {
        Replaced {
            parse_fns: self.parse_fns@,
            matched_fn: spelled(self.matched_fn),
            extract_fns: self.extract_fns@,
            get_dt_entry_fn: spelled(self.get_dynamic_table_entry_fn),
        }
    }

    /// Returns what attaching the configured parser to a target program takes.
    /// Every function configured with [`Parser::parse_fn`],
    /// [`Parser::matched_fn`], [`Parser::extract_fn`] or
    /// [`Parser::get_dynamic_table_entry`] is replaced in the target program,
    /// the remaining parser programs are left unloaded. What the HPACK static
    /// table is to be populated with is up to
    /// [`static_entries`](super::static_table::static_entries).
    ///
    /// # Arguments
    ///
    /// * `limits` - The room the tables of the parser program have
    ///
    /// # Errors
    ///
    /// Returns an error if the patterns do not fit into the tables of the parser
    /// program.
    pub fn attach(self, limits: Limits) -> (r: Result<Attachment<Action>, TableError>)
        requires
            self.wf(),
            limits.actions <= 0x10000,
        ensures
            r is Ok <==> {
                &&& self.dfa@.num_states <= limits.states
                &&& self.dfa@.actions_fit(limits.actions as int)
                &&& self.dfa@.inputs_fit(limits.inputs as int)
            },
            match r {
                Ok(attachment) => {
                    &&& attachment.tables.fits(limits)
                    &&& attachment.tables.edges() == self.dfa@.edges
                    &&& carries_out(attachment.programs@, self.replaced())
                },
                Err(err) => self.dfa@.refused_with(limits, err),
            },
    {
        attachment(
            &self.dfa,
            &self.parse_fns,
            &self.matched_fn,
            &self.extract_fns,
            &self.get_dynamic_table_entry_fn,
            limits,
        )
    }
}

/// A header that is captured is matched where its name ends: following the
/// Huffman code of the name from where names begin ends with the action that
/// captures its value.
pub proof fn law_captured_name_is_matched(auto: Auto<Action>, code: Seq<u8>, mid: MatchId)
    requires
        auto.in_bounds(),
        S_RESERVED <= auto.num_states <= u16::MAX,
        has_room(auto, code, mid),
        code.len() > 0,
    ensures
        capturing(auto, code, mid).auto.ends_with(S_NAME, code) == Some(Action::capturing(mid)),
{
    Draft::start(auto, S_NAME).law_string_ends_with_its_action(code, Action::capturing(mid));
}

/// Capturing a header leaves every other name as it was: the action its code
/// ends with stays the same, whether it is captured or not.
pub proof fn law_capture_leaves_other_names_alone(
    auto: Auto<Action>,
    code: Seq<u8>,
    mid: MatchId,
    other: Seq<u8>,
)
    requires
        auto.in_bounds(),
        S_RESERVED <= auto.num_states <= u16::MAX,
        auto.is_trie(S_NAME),
        has_room(auto, code, mid),
        code.len() > 0,
        other != code,
    ensures
        capturing(auto, code, mid).auto.is_trie(S_NAME),
        capturing(auto, code, mid).auto.ends_with(S_NAME, other) == auto.ends_with(S_NAME, other),
{
    Draft::start(auto, S_NAME).law_string_leaves_others_alone(
        code,
        Action::capturing(mid),
        other,
    );
}

/// There is room for a header that is not captured yet, if there is a state id
/// left for every byte of the Huffman code of its name, and there is for others
/// once it is captured.
pub proof fn law_new_name_has_room(
    auto: Auto<Action>,
    codes: Map<Seq<u8>, MatchId>,
    code: Seq<u8>,
    mid: MatchId,
)
    requires
        auto.in_bounds(),
        S_RESERVED <= auto.num_states,
        auto.num_states + code.len() <= u16::MAX,
        auto.is_trie(S_NAME),
        auto.is_grounded(S_NAME),
        matches_codes(auto, codes),
        code.len() > 0,
        !codes.contains_key(code),
    ensures
        has_room(auto, code, mid),
        capturing(auto, code, mid).auto.is_grounded(S_NAME),
{
    Draft::start(auto, S_NAME).law_string_has_room(code, Action::capturing(mid));
}

/// A header takes a state for every byte of the Huffman code of its name at
/// most.
pub proof fn law_capture_takes_few_states(auto: Auto<Action>, code: Seq<u8>, mid: MatchId)
    requires
        auto.in_bounds(),
        S_RESERVED <= auto.num_states <= u16::MAX,
        has_room(auto, code, mid),
    ensures
        capturing(auto, code, mid).auto.num_states <= auto.num_states + code.len(),
{
    Draft::start(auto, S_NAME).law_string_takes_few_states(code, Action::capturing(mid));
}

/// Whether a name is matched if and only if its code is one of `codes`, and then
/// captured under the id `codes` says.
pub open spec fn matches_codes(auto: Auto<Action>, codes: Map<Seq<u8>, MatchId>) -> bool {
    forall|code: Seq<u8>|
        code.len() > 0 ==> #[trigger] auto.ends_with(S_NAME, code) == if codes.contains_key(code) {
            Some(Action::capturing(codes[code]))
        } else {
            None
        }
}

/// A parser matches the names it captures and no others: if it did before, it
/// does so with one more.
pub proof fn law_captured_names_are_the_ones_matched(
    auto: Auto<Action>,
    codes: Map<Seq<u8>, MatchId>,
    code: Seq<u8>,
    mid: MatchId,
)
    requires
        auto.in_bounds(),
        S_RESERVED <= auto.num_states <= u16::MAX,
        auto.is_trie(S_NAME),
        matches_codes(auto, codes),
        has_room(auto, code, mid),
        code.len() > 0,
    ensures
        capturing(auto, code, mid).auto.is_trie(S_NAME),
        matches_codes(capturing(auto, code, mid).auto, codes.insert(code, mid)),
{
    let later = capturing(auto, code, mid).auto;
    let all = codes.insert(code, mid);
    law_captured_name_is_matched(auto, code, mid);
    law_capture_leaves_other_names_alone(auto, code, mid, Seq::empty());
    assert forall|other: Seq<u8>| other.len() > 0 implies #[trigger] later.ends_with(S_NAME, other)
        == if all.contains_key(other) {
        Some(Action::capturing(all[other]))
    } else {
        None
    } by {
        if other != code {
            law_capture_leaves_other_names_alone(auto, code, mid, other);
            assert(auto.ends_with(S_NAME, other) == later.ends_with(S_NAME, other));
        }
    }
}

/// Whether `code` is the Huffman code of `name`, and of no other name.
pub open spec fn is_code_of(code: Seq<u8>, name: Seq<u8>) -> bool {
    &&& huffman_code(name) == Some(code)
    &&& forall|other: Seq<u8>| #[trigger] huffman_code(other) == Some(code) ==> other == name
}

/// Whether the name is matched, and captured under `mid`.
pub open spec fn matches_name(auto: Auto<Action>, name: Seq<u8>, mid: MatchId) -> bool {
    huffman_code(name) matches Some(code) && code.len() > 0 && auto.ends_with(S_NAME, code) == Some(
        Action::capturing(mid),
    )
}

/// Whether the names of `captures` are matched, each captured under its id, and
/// no others, and share a trie of nothing but their codes.
pub open spec fn matches_names(auto: Auto<Action>, captures: Map<Seq<u8>, MatchId>) -> bool {
    &&& auto.is_trie(S_NAME)
    &&& auto.is_grounded(S_NAME)
    &&& forall|name: Seq<u8>| #[trigger]
        captures.contains_key(name) ==> matches_name(auto, name, captures[name])
    &&& forall|code: Seq<u8>|
        code.len() > 0 && (#[trigger] auto.ends_with(S_NAME, code)) is Some ==> exists|name: Seq<u8>|
            #[trigger] captures.contains_key(name) && huffman_code(name) == Some(code)
}

/// There is room for a header that is not captured yet, if there is a state id
/// left for every byte of the Huffman code of its name.
pub proof fn law_new_header_has_room(
    auto: Auto<Action>,
    captures: Map<Seq<u8>, MatchId>,
    name: Seq<u8>,
    code: Seq<u8>,
    mid: MatchId,
)
    requires
        auto.in_bounds(),
        S_RESERVED <= auto.num_states,
        auto.num_states + code.len() <= u16::MAX,
        matches_names(auto, captures),
        !captures.contains_key(name),
        is_code_of(code, name),
        code.len() > 0,
    ensures
        has_room(auto, code, mid),
{
    Draft::start(auto, S_NAME).law_string_has_room(code, Action::capturing(mid));
}

/// A parser matches the headers it captures and no others: if it did before, it
/// does so with one more.
pub proof fn law_captured_headers_are_the_ones_matched(
    auto: Auto<Action>,
    captures: Map<Seq<u8>, MatchId>,
    name: Seq<u8>,
    code: Seq<u8>,
    mid: MatchId,
)
    requires
        auto.in_bounds(),
        S_RESERVED <= auto.num_states <= u16::MAX,
        matches_names(auto, captures),
        !captures.contains_key(name),
        is_code_of(code, name),
        has_room(auto, code, mid),
        code.len() > 0,
    ensures
        matches_names(capturing(auto, code, mid).auto, captures.insert(name, mid)),
{
    let later = capturing(auto, code, mid).auto;
    let all = captures.insert(name, mid);
    law_captured_name_is_matched(auto, code, mid);
    law_capture_leaves_other_names_alone(auto, code, mid, Seq::empty());
    Draft::start(auto, S_NAME).law_string_keeps_trie_grounded(code, Action::capturing(mid));
    assert forall|other: Seq<u8>| #[trigger] all.contains_key(other) implies matches_name(
        later,
        other,
        all[other],
    ) by {
        if other != name {
            assert(captures.contains_key(other));
            law_capture_leaves_other_names_alone(auto, code, mid, huffman_code(other)->0);
        }
    }
    assert forall|other: Seq<u8>|
        other.len() > 0 && (#[trigger] later.ends_with(S_NAME, other)) is Some implies exists|
        n: Seq<u8>,
    | #[trigger] all.contains_key(n) && huffman_code(n) == Some(other) by {
        if other == code {
            assert(all.contains_key(name));
        } else {
            law_capture_leaves_other_names_alone(auto, code, mid, other);
            let n = choose|n: Seq<u8>| #[trigger]
                captures.contains_key(n) && huffman_code(n) == Some(other);
            assert(all.contains_key(n));
        }
    }
}

/// A new parser matches no name.
pub proof fn law_new_parser_matches_no_name(auto: Auto<Action>)
    requires
        auto.edges == representations(),
    ensures
        matches_codes(auto, Map::empty()),
{
    assert forall|code: Seq<u8>| code.len() > 0 implies #[trigger] auto.ends_with(S_NAME, code)
        is None by {
        let init = code.drop_last();
        if init.len() > 0 {
            assert(!auto.has(S_NAME, init[0] as u16));
        } else {
            assert(!auto.has(S_NAME, code.last() as u16));
        }
    }
}

/// The names a new parser captures, of which there are none, share a trie.
pub proof fn law_new_parser_has_a_trie(auto: Auto<Action>)
    requires
        auto.edges == representations(),
    ensures
        auto.is_trie(S_NAME),
        auto.is_grounded(S_NAME),
{
    assert forall|p: Seq<u8>| p.len() > 0 implies (#[trigger] auto.follow(S_NAME, p)) is None by {
        assert(!auto.has(S_NAME, p[0] as u16));
    }
    assert forall|p: Seq<u8>, q: Seq<u8>|
        (#[trigger] auto.follow(S_NAME, p)) is Some && auto.follow(S_NAME, p)
            == #[trigger] auto.follow(S_NAME, q) implies p == q by {
        if p.len() > 0 {
            assert(!auto.has(S_NAME, p[0] as u16));
        }
        if q.len() > 0 {
            assert(!auto.has(S_NAME, q[0] as u16));
        }
        assert(p =~= q);
    }
}

/// The functions a parser replaces are those it was told to: the ones that parse,
/// the one that is called upon a match, the ones that extract what was matched and
/// the one that reads the dynamic table.
pub proof fn law_configured_functions_are_replaced(
    parser: Parser,
    buf: MessageBuffer,
    name: Seq<char>,
)
    ensures
        parser.replaced().parse_fns.contains_pair(buf, name) <==> parser.parse_fns@.contains_pair(
            buf,
            name,
        ),
        parser.replaced().extract_fns.contains_pair(buf, name)
            <==> parser.extract_fns@.contains_pair(buf, name),
        parser.replaced().matched_fn == Some(name) <==> (parser.matched_fn matches Some(f) && f@
            == name),
        parser.replaced().get_dt_entry_fn == Some(name) <==> (
        parser.get_dynamic_table_entry_fn matches Some(f) && f@ == name),
{
}

} // verus!

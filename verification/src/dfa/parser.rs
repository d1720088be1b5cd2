//! The builder every DFA parser shares, whatever protocol its patterns spell.
//!
//! A protocol is a [`Parser`] with the patterns of that protocol on top, e.g.
//! [`crate::resp2::Parser`].

use super::action::Action;
use super::model::Auto;
use super::plan::{attachment, carries_out, Attachment, Replaced};
use super::table::Limits;
use super::Dfa;
use crate::{Error, MatchId, MessageBuffer};
use vstd::prelude::*;

verus! {

/// The number of ranges a parser can be configured to capture. Must stay in
/// sync with `MAX_MATCHES` of beeper/beeper.h.
pub const MAX_MATCHES: u8 = 32;

/// The functions of the target program that are replaced, one for each message
/// buffer at most.
pub struct FnNames {
    skb: Option<String>,
    msg: Option<String>,
    dyn_ptr: Option<String>,
}

/// The characters of a name, if there is one.
pub open spec fn spelled(name: Option<String>) -> Option<Seq<char>> {
    match name {
        Some(name) => Some(name@),
        None => None,
    }
}

impl View for FnNames {
    type V = Map<MessageBuffer, Seq<char>>;

    closed spec fn view(&self) -> Map<MessageBuffer, Seq<char>> {
        Map::new(|buf: MessageBuffer| self.slot(buf) is Some, |buf: MessageBuffer| self.slot(buf)->0@)
    }
}

impl FnNames {
    spec fn slot(&self, buf: MessageBuffer) -> Option<String> {
        match buf {
            MessageBuffer::Skb => self.skb,
            MessageBuffer::Msg => self.msg,
            MessageBuffer::DynPtr => self.dyn_ptr,
        }
    }

    /// Returns no names.
    pub fn new() -> (r: FnNames)
        ensures
            r@ == Map::<MessageBuffer, Seq<char>>::empty(),
    {
        let r = FnNames { skb: None, msg: None, dyn_ptr: None };
        assert(r@ =~= Map::empty());
        r
    }

    /// Names the function for `buf`, in place of the one named before.
    pub fn insert(&mut self, buf: MessageBuffer, name: String)
        ensures
            final(self)@ == old(self)@.insert(buf, name@),
    {
        match buf {
            MessageBuffer::Skb => {
                self.skb = Some(name);
            },
            MessageBuffer::Msg => {
                self.msg = Some(name);
            },
            MessageBuffer::DynPtr => {
                self.dyn_ptr = Some(name);
            },
        }
        assert(self@ =~= old(self)@.insert(buf, name@));
    }

    /// Returns the name of the function for `buf`, if there is one.
    pub fn get(&self, buf: MessageBuffer) -> (r: Option<String>)
        ensures
            r is Some <==> self@.contains_key(buf),
            r matches Some(name) ==> name@ == self@[buf],
    {
        match buf {
            MessageBuffer::Skb => self.skb.clone(),
            MessageBuffer::Msg => self.msg.clone(),
            MessageBuffer::DynPtr => self.dyn_ptr.clone(),
        }
    }
}

/// A parser whose patterns are compiled into a DFA.
///
/// The builder methods configure which fields the parser captures and which
/// functions of the target program it replaces. Nothing is loaded into the
/// kernel until the parser is attached. `P` holds what the protocol it parses
/// keeps track of while it is being configured.
pub struct Parser<P> {
    /// The patterns configured so far, compiled into a DFA.
    pub dfa: Dfa<Action>,

    /// The number of matches occuring in the patterns.
    pub num_matches: u8,

    /// The parse function name for each message buffer.
    pub parse_fns: FnNames,

    /// The matched function name. It is agnostic to the message buffer.
    pub matched_fn: Option<String>,

    /// The extract function name for each message buffer.
    pub extract_fns: FnNames,

    /// What the protocol keeps track of.
    pub proto: P,
}

impl<P: Default> Parser<P> {
    /// Creates a new parser.
    ///
    /// Additional configuration must be done through the builder methods before
    /// it is attached.
    pub fn new() -> (r: Self)
        ensures
            r.wf(),
            r.dfa@ == Auto::<Action>::fresh(2),
            r.num_matches == 0,
            r.parse_fns@ == Map::<MessageBuffer, Seq<char>>::empty(),
            r.matched_fn is None,
            r.extract_fns@ == Map::<MessageBuffer, Seq<char>>::empty(),
            call_ensures(P::default, (), r.proto),
    {
        Parser {
            dfa: Dfa::new(),
            num_matches: 0,
            parse_fns: FnNames::new(),
            matched_fn: None,
            extract_fns: FnNames::new(),
            proto: P::default(),
        }
    }
}

impl<P: Default> Default for Parser<P> {
    fn default() -> (r: Self)
        ensures
            r.wf(),
            r.dfa@ == Auto::<Action>::fresh(2),
            r.num_matches == 0,
            r.parse_fns@ == Map::<MessageBuffer, Seq<char>>::empty(),
            r.matched_fn is None,
            r.extract_fns@ == Map::<MessageBuffer, Seq<char>>::empty(),
            call_ensures(P::default, (), r.proto),
    {
        Self::new()
    }
}

impl<P> Parser<P> {
    /// Whether the parser is one: its automaton is deterministic and it has
    /// handed out no more match ids than there are.
    pub open spec fn wf(&self) -> bool {
        &&& self.dfa.wf()
        &&& self.num_matches <= MAX_MATCHES
    }

    /// Specifies the function template in the target program to be replaced with the
    /// parser. The function will not be replaced until the parser is attached.
    ///
    /// # Arguments
    ///
    /// * `parse_fn` - The name of the function to replace in the target program
    /// * `msg_buf` - The type of buffer to parse
    pub fn parse_fn(self, parse_fn: &str, msg_buf: MessageBuffer) -> (r: Self)
        ensures
            r.parse_fns@ == self.parse_fns@.insert(msg_buf, parse_fn@),
            r == (Parser { parse_fns: r.parse_fns, ..self }),
    {
        let mut parser = self;
        parser.parse_fns.insert(msg_buf, parse_fn.to_owned());
        parser
    }

    /// Specifies the function template in the target program to be called when a pattern match
    /// is completed. The function will not be replaced until the parser is attached.
    ///
    /// # Arguments
    ///
    /// * `matched_fn` - The name of the matched callback function in the target program
    pub fn matched_fn(self, matched_fn: &str) -> (r: Self)
        ensures
            spelled(r.matched_fn) == Some(matched_fn@),
            r == (Parser { matched_fn: r.matched_fn, ..self }),
    {
        let mut parser = self;
        parser.matched_fn = Some(matched_fn.to_owned());
        parser
    }

    /// Specifies the function template in the target program to be called when extracting
    /// matched content. The function will not be replaced until the parser is attached.
    ///
    /// # Arguments
    ///
    /// * `extract_fn` - The name of the extract callback function in the target program
    /// * `msg_buf` - The type of buffer to extract the match from
    pub fn extract_fn(self, extract_fn: &str, msg_buf: MessageBuffer) -> (r: Self)
        ensures
            r.extract_fns@ == self.extract_fns@.insert(msg_buf, extract_fn@),
            r == (Parser { extract_fns: r.extract_fns, ..self }),
    {
        let mut parser = self;
        parser.extract_fns.insert(msg_buf, extract_fn.to_owned());
        parser
    }

    /// Returns an unused match id.
    ///
    /// # Errors
    ///
    /// Returns an error if the parser is already configured with
    /// [`MAX_MATCHES`] matches, as the parser program has no room to tell one
    /// more apart from them.
    pub(crate) fn new_match(&mut self) -> (r: Result<MatchId, Error>)
        requires
            old(self).wf(),
        ensures
            final(self).wf(),
            r == next_match(old(self).num_matches),
            *final(self) == (Parser {
                num_matches: if old(self).num_matches < MAX_MATCHES {
                    (old(self).num_matches + 1) as u8
                } else {
                    old(self).num_matches
                },
                ..*old(self)
            }),
    {
        if self.num_matches >= MAX_MATCHES {
            return Err(Error::MatchLimitExceeded(MAX_MATCHES as usize));
        }
        let id = MatchId(self.num_matches);
        self.num_matches += 1;
        Ok(id)
    }
}

impl<P> Parser<P> {
    /// The functions of the target program the parser is configured to replace.
    pub open spec fn replaced(&self) -> Replaced {
        Replaced {
            parse_fns: self.parse_fns@,
            matched_fn: spelled(self.matched_fn),
            extract_fns: self.extract_fns@,
            get_dt_entry_fn: None,
        }
    }

    /// Returns what loading the parser program for the parser and attaching it
    /// to a target program takes.
    ///
    /// Every function configured with [`Parser::parse_fn`],
    /// [`Parser::matched_fn`] or [`Parser::extract_fn`] is replaced in the
    /// target program, the remaining parser programs are left unloaded.
    ///
    /// # Errors
    ///
    /// Returns an error if the patterns do not fit into the tables of the parser
    /// program.
    pub(crate) fn load(&self, limits: Limits) -> (r: Result<Attachment<Action>, Error>)
        requires
            self.wf(),
            self.dfa@.rows_in_bounds(),
            limits.actions <= 0x10000,
        ensures
            loads(self.replaced(), self.dfa@, limits, r),
    {
        match attachment(
            &self.dfa,
            &self.parse_fns,
            &self.matched_fn,
            &self.extract_fns,
            &None,
            limits,
        ) {
            Ok(attachment) => Ok(attachment),
            Err(_) => Err(Error::ParserExceedsStateLimit),
        }
    }
}

/// Whether `r` is what loading a parser takes whose patterns are compiled into
/// `auto`, or the error it is refused with.
pub open spec fn loads(
    replaced: Replaced,
    auto: Auto<Action>,
    limits: Limits,
    r: Result<Attachment<Action>, Error>,
) -> bool {
    if auto.num_states <= limits.states && auto.actions_fit(limits.actions as int)
        && auto.inputs_fit(limits.inputs as int) {
        match r {
            Ok(attachment) => {
                &&& attachment.tables.fits(limits)
                &&& attachment.tables.edges() == auto.edges
                &&& carries_out(attachment.programs@, replaced)
            },
            Err(_) => false,
        }
    } else {
        r == Err::<Attachment<Action>, Error>(Error::ParserExceedsStateLimit)
    }
}

/// The id of the next range a parser captures that captures `num_matches`
/// already, or the error it is refused with.
pub open spec fn next_match(num_matches: u8) -> Result<MatchId, Error> {
    if num_matches < MAX_MATCHES {
        Ok(MatchId(num_matches))
    } else {
        Err(Error::MatchLimitExceeded(MAX_MATCHES as usize))
    }
}

/// A parser hands out the ids from 0 on, one after the other, and 32 of them at
/// most.
pub proof fn law_ids_are_handed_out_in_order(num_matches: u8)
    ensures
        num_matches < 32 ==> next_match(num_matches) == Ok::<MatchId, Error>(MatchId(num_matches)),
        num_matches >= 32 ==> next_match(num_matches) == Err::<MatchId, Error>(
            Error::MatchLimitExceeded(32),
        ),
{
}

/// The functions a parser replaces are those it was told to: the ones that parse,
/// the one that is called upon a match and the ones that extract what was matched.
pub proof fn law_configured_functions_are_replaced<P>(
    parser: Parser<P>,
    buf: MessageBuffer,
    name: Seq<char>,
)
    ensures
        parser.replaced().parse_fns.contains_pair(buf, name) <==> parser.parse_fns@.contains_pair(
            buf,
            name,
        ),
        parser.replaced().extract_fns.contains_pair(buf, name)
            <==> parser.extract_fns@.contains_pair(buf, name),
        parser.replaced().matched_fn == Some(name) <==> (parser.matched_fn matches Some(f) && f@
            == name),
        parser.replaced().get_dt_entry_fn is None,
{
}

} // verus!

//! Configures which arguments and replies a RESP2 parser captures.

use super::model::{commands, crlf, patterns};
use super::shape::lemma_patterns;
use crate::dfa::action::Action;
use crate::dfa::builder::spellings;
use crate::dfa::model::{Auto, Draft, INIT_STATE};
use crate::dfa::parser::{self as dfa_parser, loads, next_match};
use crate::dfa::plan::Attachment;
use crate::dfa::table::Limits;
use crate::text::{digits, format_decimal, lemma_ascii, lemma_ascii_string, lemma_decimal};
use crate::{Error, MatchId, StateId};
use vstd::prelude::*;
use vstd::string::*;

verus! {

/// The number of arguments a command may have, the command's name included,
/// for the parser to parse it.
pub const MAX_ARGS: usize = 8;

const CRLF: &'static str = "\r\n";

/// What a [`Parser`] keeps track of while it is being configured.
pub struct Resp2 {
    /// The match id of every argument captured so far, by its position in the
    /// command.
    pub args: [Option<MatchId>; MAX_ARGS],

    /// The match id of the payload of a reply, if it is captured.
    pub reply: Option<MatchId>,
}

impl Default for Resp2 {
    fn default() -> (r: Resp2)
        ensures
            forall|i: int| 0 <= i < MAX_ARGS ==> #[trigger] r.args@[i] is None,
            r.reply is None,
    {
        Resp2 { args: [None, None, None, None, None, None, None, None], reply: None }
    }
}

/// A parser for RESP2 commands and replies.
///
/// The builder methods configure which arguments and replies the parser
/// captures and which functions of the target program it replaces. Nothing is loaded into
/// the kernel until the parser is attached.
pub type Parser = dfa_parser::Parser<Resp2>;

impl Resp2 {
    /// Whether every captured range has a match id of its own, out of the first
    /// `n`.
    pub open spec fn distinct(self, n: u8) -> bool {
        &&& self.reply matches Some(mid) ==> mid.0 < n
        &&& forall|i: int|
            0 <= i < MAX_ARGS ==> (#[trigger] self.args@[i] matches Some(mid) ==> mid.0 < n
                && self.reply != Some(mid))
        &&& forall|i: int, j: int|
            0 <= i < j < MAX_ARGS && (#[trigger] self.args@[i]) is Some ==> self.args@[i]
                != #[trigger] self.args@[j]
    }
}

impl Parser {
    /// Whether the two parsers differ in nothing but what they capture.
    pub open spec fn differs_in_captures(&self, other: &Parser) -> bool {
        &&& self.dfa == other.dfa
        &&& self.parse_fns == other.parse_fns
        &&& self.matched_fn == other.matched_fn
        &&& self.extract_fns == other.extract_fns
    }

    /// Configures the parser to capture an argument of a command.
    ///
    /// Arguments are addressed by their position in the command, whatever the
    /// command is: the name of the command is argument 0, the key of a `GET`
    /// or a `SET` argument 1 and the value of a `SET` argument 2. A command
    /// that has no argument at `idx` captures nothing for it.
    ///
    /// # Arguments
    ///
    /// * `idx` - The position of the argument in the command
    ///
    /// # Errors
    ///
    /// Returns an error if `idx` is not below [`MAX_ARGS`], or if the parser
    /// already captures as many arguments as the parser program has room for.
    ///
    /// # Returns
    ///
    /// The match ID that can be used in eBPF to extract the captured value. An
    /// argument that is already captured keeps the ID it was given the first
    /// time, rather than being captured a second time under a new one.
    pub fn capture_arg(&mut self, idx: usize) -> (r: Result<MatchId, Error>)
        requires
            old(self).wf(),
        ensures
            final(self).wf(),
            final(self).differs_in_captures(old(self)),
            final(self).proto.reply == old(self).proto.reply,
            idx >= MAX_ARGS ==> r == Err::<MatchId, Error>(Error::ArgLimitExceeded(MAX_ARGS)),
            idx < MAX_ARGS ==> match old(self).proto.args@[idx as int] {
                Some(mid) => r == Ok::<MatchId, Error>(mid),
                None => r == next_match(old(self).num_matches),
            },
            match r {
                Ok(mid) if old(self).proto.args@[idx as int] is None => {
                    &&& final(self).num_matches == old(self).num_matches + 1
                    &&& final(self).proto.args@ == old(self).proto.args@.update(
                        idx as int,
                        Some(mid),
                    )
                },
                _ => *final(self) == *old(self),
            },
            old(self).proto.distinct(old(self).num_matches) ==> final(self).proto.distinct(
                final(self).num_matches,
            ),
    {
        if idx >= MAX_ARGS {
            return Err(Error::ArgLimitExceeded(MAX_ARGS));
        }
        if let Some(mid) = self.proto.args[idx] {
            return Ok(mid);
        }
        match self.new_match() {
            Ok(mid) => {
                self.proto.args[idx] = Some(mid);
                Ok(mid)
            },
            Err(err) => Err(err),
        }
    }

    /// Configures the parser to capture the payload of a reply.
    ///
    /// The payload is what a simple string (`+OK`), an error (`-ERR ...`), an
    /// integer (`:1`) or a bulk string (`$5\r\nvalue`) carries, without its
    /// type, its length or its CRLF. The type is the first byte of the
    /// message. A null bulk string (`$-1`) captures nothing.
    ///
    /// A reply that is an array is walked like a command, so its elements are
    /// captured with [`Parser::capture_arg`].
    ///
    /// # Errors
    ///
    /// Returns an error if the parser already captures as many ranges as the
    /// parser program has room for.
    ///
    /// # Returns
    ///
    /// The match ID that can be used in eBPF to extract the captured value. It
    /// is the same every time the method is called.
    pub fn capture_reply(&mut self) -> (r: Result<MatchId, Error>)
        requires
            old(self).wf(),
        ensures
            final(self).wf(),
            final(self).differs_in_captures(old(self)),
            final(self).proto.args == old(self).proto.args,
            match old(self).proto.reply {
                Some(mid) => r == Ok::<MatchId, Error>(mid),
                None => r == next_match(old(self).num_matches),
            },
            match r {
                Ok(mid) if old(self).proto.reply is None => {
                    &&& final(self).num_matches == old(self).num_matches + 1
                    &&& final(self).proto.reply == Some(mid)
                },
                _ => *final(self) == *old(self),
            },
            old(self).proto.distinct(old(self).num_matches) ==> final(self).proto.distinct(
                final(self).num_matches,
            ),
    {
        if let Some(mid) = self.proto.reply {
            return Ok(mid);
        }
        match self.new_match() {
            Ok(mid) => {
                self.proto.reply = Some(mid);
                Ok(mid)
            },
            Err(err) => Err(err),
        }
    }

    /// Whether no pattern has been compiled yet, which happens once it is known
    /// what to capture.
    pub open spec fn unbuilt(&self) -> bool {
        self.dfa@ == Auto::<Action>::fresh(2)
    }

    /// Whether the two parsers differ in nothing but their patterns.
    pub open spec fn differs_in_patterns(&self, other: &Parser) -> bool {
        &&& self.num_matches == other.num_matches
        &&& self.proto == other.proto
        &&& self.parse_fns == other.parse_fns
        &&& self.matched_fn == other.matched_fn
        &&& self.extract_fns == other.extract_fns
    }

    /// Configures the parser to walk a reply that is a single element, or no
    /// element at all, and to stop behind it. See [`Parser::match_commands`]
    /// for the ones that are arrays.
    pub fn match_replies(&mut self)
        requires
            old(self).wf(),
            Draft::start(old(self).dfa@, INIT_STATE).replies(old(self).proto.reply).fits,
        ensures
            final(self).wf(),
            final(self).differs_in_patterns(old(self)),
            final(self).dfa@ == Draft::start(old(self).dfa@, INIT_STATE).replies(
                old(self).proto.reply,
            ).auto,
    {
        let ghost reply = self.proto.reply;
        let ghost c = Draft::start(self.dfa@, INIT_STATE);
        let ghost e = c.element(INIT_STATE, reply, true);
        let ghost n = e.empty_array(seq![0x2A, 0x2D, 0x31]);
        proof {
            n.lemma_empty_array_parts(seq![0x2A, 0x30]);
            e.lemma_empty_array_parts(seq![0x2A, 0x2D, 0x31]);
            c.lemma_element_parts(INIT_STATE, reply, true);
            reveal_strlit("*-1");
            reveal_strlit("*0");
            lemma_ascii("*-1", seq![0x2A, 0x2D, 0x31]);
            lemma_ascii("*0", seq![0x2A, 0x30]);
        }
        let mid = self.proto.reply;
        self.push_element(INIT_STATE, mid, true);

        // a null array and an empty array carry nothing. Their `-` and `0`
        // are spelled out, as the length of an array is
        self.push_empty_array("*-1");
        self.push_empty_array("*0");
    }

    /// Configures the parser to walk an array that carries nothing.
    fn push_empty_array(&mut self, spelling: &str)
        requires
            old(self).wf(),
            Draft::start(old(self).dfa@, INIT_STATE).empty_array(spelling.spec_bytes()).fits,
        ensures
            final(self).wf(),
            final(self).differs_in_patterns(old(self)),
            final(self).dfa@ == Draft::start(old(self).dfa@, INIT_STATE).empty_array(
                spelling.spec_bytes(),
            ).auto,
    {
        proof {
            lemma_crlf();
            Draft::start(self.dfa@, INIT_STATE).lemma_empty_array_parts(spelling.spec_bytes());
        }
        let mut pattern = self.dfa.start_pattern(INIT_STATE);
        pattern.push(spelling).push(CRLF).with(Action::Done);
        proof {
            pattern.lemma_view();
        }
    }

    /// Configures the parser to walk an array of up to [`MAX_ARGS`] elements,
    /// be it a command or a reply, and to stop behind its last one, so that
    /// the next one of a pipeline is left to a parse of its own.
    ///
    /// The DFA cannot count, so there is a pattern for every number of
    /// elements, and one for every element of it.
    pub fn match_commands(&mut self)
        requires
            old(self).wf(),
            Draft::start(old(self).dfa@, INIT_STATE).arrays(
                old(self).proto.args@,
                MAX_ARGS as nat,
            ).fits,
        ensures
            final(self).wf(),
            final(self).differs_in_patterns(old(self)),
            final(self).dfa@ == Draft::start(old(self).dfa@, INIT_STATE).arrays(
                old(self).proto.args@,
                MAX_ARGS as nat,
            ).auto,
    {
        let ghost args = self.proto.args@;
        let ghost start = Draft::start(self.dfa@, INIT_STATE);
        proof {
            lemma_crlf();
            reveal_strlit("*");
            lemma_ascii("*", seq![0x2A]);
        }
        let mut n: usize = 0;
        while n < MAX_ARGS
            invariant
                n <= MAX_ARGS,
                args == old(self).proto.args@,
                start == Draft::start(old(self).dfa@, INIT_STATE),
                start.arrays(args, MAX_ARGS as nat).fits,
                "*".spec_bytes() == seq![0x2Au8],
                CRLF.spec_bytes() == crlf(),
                self.wf(),
                self.differs_in_patterns(old(self)),
                self.dfa@ == start.arrays(args, n as nat).auto,
            decreases MAX_ARGS - n,
        {
            n += 1;
            let ghost before = start.arrays(args, (n - 1) as nat);
            let ghost h = before.array_header(n as nat);
            proof {
                start.lemma_arrays_less(args, n as nat, MAX_ARGS as nat);
                h.lemma_elements_less(args, n as nat, 0, n as nat);
                before.lemma_array_header_parts(n as nat);
                lemma_decimal(n as nat);
            }
            let count = format_decimal(n);
            proof {
                lemma_ascii_string(&count, digits(n as nat));
            }
            let mut pattern = self.dfa.start_pattern(INIT_STATE);
            pattern.push("*").push(count.as_str()).push(CRLF);
            let mut slot = pattern.state();
            proof {
                pattern.lemma_view();
            }
            let mut i: usize = 0;
            while i < n
                invariant
                    1 <= n <= MAX_ARGS,
                    i <= n,
                    args == old(self).proto.args@,
                    h.elements(args, n as nat, n as nat).fits,
                    self.wf(),
                    self.differs_in_patterns(old(self)),
                    self.dfa@ == h.elements(args, n as nat, i as nat).auto,
                    slot == h.elements(args, n as nat, i as nat).state,
                decreases n - i,
            {
                let ghost d = h.elements(args, n as nat, i as nat);
                proof {
                    h.lemma_elements_less(args, n as nat, (i + 1) as nat, n as nat);
                    d.lemma_element_parts(slot, args[i as int], i + 1 == n);
                }
                let arg = self.proto.args[i];
                slot = self.push_element(slot, arg, i == n - 1);
                i += 1;
            }
        }
    }

    /// Configures the parser to walk an element that begins in `slot`: a
    /// bulk string, a null bulk string, a simple string, an error or an
    /// integer. Its payload is captured under `mid`, if there is one, and with
    /// `done` the parse ends behind it.
    ///
    /// The length of a bulk string is read by the parser program, which skips
    /// the string rather than walking it. The payload of the other elements is
    /// not prefixed with its length, so it runs up to the CRLF.
    ///
    /// # Returns
    ///
    /// The state behind the element, which every kind of it leads into.
    fn push_element(&mut self, slot: StateId, mid: Option<MatchId>, done: bool) -> (next: StateId)
        requires
            old(self).wf(),
            Draft::start(old(self).dfa@, slot).element(slot, mid, done).fits,
        ensures
            final(self).wf(),
            final(self).differs_in_patterns(old(self)),
            final(self).dfa@ == Draft::start(old(self).dfa@, slot).element(slot, mid, done).auto,
            next == Draft::start(old(self).dfa@, slot).element(slot, mid, done).state,
    {
        let ghost d = Draft::start(self.dfa@, slot);
        let ghost bulk = d.bulk(slot, mid, done);
        let ghost null = bulk.null(slot, bulk.state, done);
        proof {
            d.lemma_element_parts(slot, mid, done);
            d.lemma_bulk_parts(slot, mid, done);
            bulk.lemma_null_parts(slot, bulk.state, done);
            null.lemma_simple_parts(slot, bulk.state, mid, done);
            lemma_crlf();
            reveal_strlit("$");
            reveal_strlit("$-1");
            reveal_strlit("+");
            reveal_strlit("-");
            reveal_strlit(":");
            lemma_ascii("$", seq![0x24]);
            lemma_ascii("$-1", seq![0x24, 0x2D, 0x31]);
            lemma_ascii("+", seq![0x2B]);
            lemma_ascii("-", seq![0x2D]);
            lemma_ascii(":", seq![0x3A]);
        }
        let mut pattern = self.dfa.start_pattern(slot);
        pattern.push("$").push_any(1, None).with(Action::LenDigit).push(CRLF).with(
            Action::Skip(mid),
        ).push(CRLF);
        if done {
            pattern.with(Action::Done);
        }
        let next = pattern.state();
        proof {
            pattern.lemma_view();
        }

        // the `-` is no digit, but spelled out, which the length above only
        // reads if nothing else matches
        let mut pattern = self.dfa.start_pattern(slot);
        pattern.push("$-1").push_to(CRLF, next);
        if done {
            pattern.with(Action::Done);
        }
        proof {
            pattern.lemma_view();
        }

        let mut pattern = self.dfa.start_pattern(slot);
        let kinds = ["+", "-", ":"];
        assert(spellings(kinds@) =~= seq![seq![0x2Bu8], seq![0x2Du8], seq![0x3Au8]]);
        pattern.push_options_ci(&kinds);
        if let Some(mid) = mid {
            pattern.with(Action::StartCapture(mid));
        }

        pattern.push_any(1, None);
        if let Some(mid) = mid {
            pattern.with(Action::EndCapture(mid));
        }

        pattern.push_to(CRLF, next);
        if done {
            pattern.with(Action::Done);
        }
        proof {
            pattern.lemma_view();
        }
        next
    }
}

impl Parser {
    /// Returns what attaching the configured parser to a target program takes.
    ///
    /// Every function configured with [`Parser::parse_fn`],
    /// [`Parser::matched_fn`] or [`Parser::extract_fn`] is replaced in the
    /// target program, the remaining parser programs are left unloaded. The
    /// parser always stops behind the first command or reply of a message,
    /// and reports the number of bytes it takes up.
    ///
    /// # Arguments
    ///
    /// * `limits` - The room the tables of the parser program have
    ///
    /// # Errors
    ///
    /// Returns an error if the patterns do not fit into the tables of the parser
    /// program.
    pub fn attach(self, limits: Limits) -> (r: Result<Attachment<Action>, Error>)
        requires
            self.wf(),
            self.unbuilt(),
            limits.actions <= 0x10000,
        ensures
            loads(
                self.replaced(),
                patterns(self.proto.args@, self.proto.reply).auto,
                limits,
                r,
            ),
    {
        let mut parser = self;
        proof {
            let args = self.proto.args@;
            let reply = self.proto.reply;
            lemma_patterns(args, reply);
            let c = commands(args);
            let e = c.element(INIT_STATE, reply, true);
            let n = e.empty_array(seq![0x2A, 0x2D, 0x31]);
            n.lemma_empty_array_parts(seq![0x2A, 0x30]);
            e.lemma_empty_array_parts(seq![0x2A, 0x2D, 0x31]);
            c.lemma_element_parts(INIT_STATE, reply, true);
            assert(Draft::start(c.auto, INIT_STATE).replies(reply) == patterns(args, reply));
        }
        parser.match_commands();
        parser.match_replies();
        parser.load(limits)
    }
}

/// The end of a line is spelled with the bytes it is made of.
proof fn lemma_crlf()
    ensures
        CRLF.spec_bytes() == crlf(),
{
    reveal_strlit("\r\n");
    lemma_ascii("\r\n", crlf());
}

} // verus!

//! The patterns of an HTTP/1.x parser.
//!
//! They are the same whichever actions they carry, so they take the actions as
//! arguments.

use crate::dfa::action::Comparable;
use crate::dfa::builder::spellings;
use crate::dfa::model::{Auto, Draft, ANY_STATE, INIT_STATE};
use crate::dfa::Dfa;
use crate::pseudo_header::{METHOD, PATH, STATUS};
use crate::text::{lemma_ascii, same_str};
use crate::StateId;
use vstd::prelude::*;
use vstd::string::*;

verus! {

const CR: &'static str = "\r";

const LF: &'static str = "\n";

/// A carriage return.
pub open spec fn cr() -> Seq<u8> {
    seq![0x0D]
}

/// A line feed.
pub open spec fn lf() -> Seq<u8> {
    seq![0x0A]
}

/// The methods a request line can begin with.
pub open spec fn methods() -> Seq<Seq<u8>> {
    seq![
        "POST".spec_bytes(),
        "GET".spec_bytes(),
        "PUT".spec_bytes(),
        "PATCH".spec_bytes(),
        "DELETE".spec_bytes(),
        "HEAD".spec_bytes(),
        "OPTIONS".spec_bytes(),
        "TRACE".spec_bytes(),
    ]
}

/// The preface of an HTTP/2 connection.
pub open spec fn preface() -> Seq<u8> {
    "PRI * HTTP/2.0\r\n\r\nSM\r\n\r\n".spec_bytes()
}

impl<A> Draft<A> {
    /// The rest of a line, up to where the next one begins.
    pub open spec fn line_end(self) -> Draft<A> {
        self.option(cr(), false).restart(lf())
    }

    /// The name of a header field up to where its value begins.
    pub open spec fn field_name(self, name: Seq<u8>, start: A) -> Draft<A> {
        self.again(ANY_STATE).steps(lf(), None, true).steps(name, None, false).option(
            seq![0x09],
            true,
        ).option(seq![0x20], true).steps(seq![0x3A], None, false).option(seq![0x09], true).option(
            seq![0x20],
            true,
        ).with(start)
    }

    /// The patterns of a header field, and those of one whose value is empty.
    pub open spec fn field(self, name: Seq<u8>, start: A, end: A) -> Draft<A> {
        let value = self.field_name(name, start);
        value.any(1, None).with(end).line_end().again(value.state).line_end()
    }

    /// The pattern of the end of the header block.
    pub open spec fn header_end(self, done: A) -> Draft<A> {
        self.again(ANY_STATE).option(cr(), false).steps(lf(), None, true).option(
            cr(),
            false,
        ).steps(lf(), None, true).with(done)
    }

    /// The pattern of the preface of an HTTP/2 connection.
    pub open spec fn h2_preface(self, start: A, end: A) -> Draft<A> {
        self.again(INIT_STATE).with(start).steps(preface(), None, true).with(end)
    }

    /// The pattern of the rest of a request line behind its path.
    pub open spec fn request_line_end(self) -> Draft<A> {
        self.steps(" HTTP/1.1".spec_bytes(), None, false).line_end()
    }

    /// The pattern of a request line whose method is marked.
    pub open spec fn request_method(self, start: A, end: A) -> Draft<A> {
        self.again(INIT_STATE).with(start).choice(methods(), false).with(end).steps(
            seq![0x20],
            None,
            true,
        ).any(1, None).request_line_end()
    }

    /// The pattern of a request line whose path is marked.
    pub open spec fn request_path(self, start: A, end: A) -> Draft<A> {
        self.again(INIT_STATE).choice(methods(), false).steps(seq![0x20], None, true).with(
            start,
        ).any(1, None).with(end).request_line_end()
    }

    /// The pattern of a status line whose status code is marked.
    pub open spec fn status_code(self, start: A, end: A) -> Draft<A> {
        self.again(INIT_STATE).steps("HTTP/1.1 ".spec_bytes(), None, false).with(start).any(
            3,
            Some(3),
        ).with(end).any(1, None).line_end()
    }
}

impl<A> Draft<A> {
    proof fn lemma_line_end_parts(self)
        requires
            self.line_end().fits,
        ensures
            self.fits,
            self.option(cr(), false).fits,
    {
        self.option(cr(), false).lemma_restart(lf());
    }

    /// If the pattern of the name of a header field fits, so does every part of
    /// it.
    proof fn lemma_field_name_parts(self, name: Seq<u8>, start: A)
        requires
            self.field_name(name, start).fits,
        ensures
            ({
                let d1 = self.again(ANY_STATE).steps(lf(), None, true);
                let d2 = d1.steps(name, None, false);
                let d3 = d2.option(seq![0x09], true).option(seq![0x20], true);
                let d4 = d3.steps(seq![0x3A], None, false);
                &&& self.fits
                &&& d1.fits
                &&& d2.fits
                &&& d3.fits
                &&& d4.fits
            }),
    {
        let d0 = self.again(ANY_STATE);
        let d1 = d0.steps(lf(), None, true);
        let d2 = d1.steps(name, None, false);
        let d3 = d2.option(seq![0x09], true).option(seq![0x20], true);
        let d4 = d3.steps(seq![0x3A], None, false);
        let d5 = d4.option(seq![0x09], true).option(seq![0x20], true);
        d5.lemma_with(start);
        d3.lemma_steps(seq![0x3A], None, false);
        d1.lemma_steps(name, None, false);
        d0.lemma_steps(lf(), None, true);
    }

    /// If the patterns of a header field fit, so does every part of them.
    proof fn lemma_field_parts(self, name: Seq<u8>, start: A, end: A)
        requires
            self.field(name, start, end).fits,
        ensures
            ({
                let value = self.field_name(name, start);
                let d1 = value.any(1, None);
                let d2 = d1.with(end);
                let d3 = d2.line_end();
                &&& self.fits
                &&& value.fits
                &&& d1.fits
                &&& d2.fits
                &&& d3.fits
                &&& d3.again(value.state).fits
            }),
    {
        let value = self.field_name(name, start);
        let d1 = value.any(1, None);
        let d2 = d1.with(end);
        let d3 = d2.line_end();
        d3.again(value.state).lemma_line_end_parts();
        d2.lemma_line_end_parts();
        d1.lemma_with(end);
        value.lemma_any(1, None);
        self.lemma_field_name_parts(name, start);
    }

    /// If the pattern of the end of the header block fits, so does every part
    /// of it.
    proof fn lemma_header_end_parts(self, done: A)
        requires
            self.header_end(done).fits,
        ensures
            ({
                let d1 = self.again(ANY_STATE).option(cr(), false).steps(lf(), None, true);
                let d2 = d1.option(cr(), false).steps(lf(), None, true);
                &&& self.fits
                &&& d1.fits
                &&& d2.fits
            }),
    {
        let d0 = self.again(ANY_STATE).option(cr(), false);
        let d1 = d0.steps(lf(), None, true);
        let d2 = d1.option(cr(), false).steps(lf(), None, true);
        d2.lemma_with(done);
        d1.option(cr(), false).lemma_steps(lf(), None, true);
        d0.lemma_steps(lf(), None, true);
    }

    /// If the pattern of the preface fits, so does every part of it.
    proof fn lemma_h2_preface_parts(self, start: A, end: A)
        requires
            self.h2_preface(start, end).fits,
        ensures
            ({
                let d1 = self.again(INIT_STATE).with(start);
                let d2 = d1.steps(preface(), None, true);
                &&& self.fits
                &&& d1.fits
                &&& d2.fits
            }),
    {
        let d0 = self.again(INIT_STATE);
        let d1 = d0.with(start);
        let d2 = d1.steps(preface(), None, true);
        d2.lemma_with(end);
        d1.lemma_steps(preface(), None, true);
        d0.lemma_with(start);
    }

    proof fn lemma_request_line_end_parts(self)
        requires
            self.request_line_end().fits,
        ensures
            self.fits,
            self.steps(" HTTP/1.1".spec_bytes(), None, false).fits,
    {
        self.steps(" HTTP/1.1".spec_bytes(), None, false).lemma_line_end_parts();
        self.lemma_steps(" HTTP/1.1".spec_bytes(), None, false);
    }

    /// If the pattern of a request line fits, so does every part of it.
    proof fn lemma_request_method_parts(self, start: A, end: A)
        requires
            self.request_method(start, end).fits,
        ensures
            ({
                let d1 = self.again(INIT_STATE).with(start);
                let d2 = d1.choice(methods(), false);
                let d3 = d2.with(end);
                let d4 = d3.steps(seq![0x20], None, true);
                let d5 = d4.any(1, None);
                &&& self.fits
                &&& d1.fits
                &&& d2.fits
                &&& d3.fits
                &&& d4.fits
                &&& d5.fits
            }),
    {
        let d0 = self.again(INIT_STATE);
        let d1 = d0.with(start);
        let d2 = d1.choice(methods(), false);
        let d3 = d2.with(end);
        let d4 = d3.steps(seq![0x20], None, true);
        let d5 = d4.any(1, None);
        d5.lemma_request_line_end_parts();
        d4.lemma_any(1, None);
        d3.lemma_steps(seq![0x20], None, true);
        d2.lemma_with(end);
        d1.lemma_choice(methods(), false);
        d0.lemma_with(start);
    }

    /// If the pattern of a request line fits, so does every part of it.
    proof fn lemma_request_path_parts(self, start: A, end: A)
        requires
            self.request_path(start, end).fits,
        ensures
            ({
                let d1 = self.again(INIT_STATE).choice(methods(), false);
                let d2 = d1.steps(seq![0x20], None, true);
                let d3 = d2.with(start);
                let d4 = d3.any(1, None);
                let d5 = d4.with(end);
                &&& self.fits
                &&& d1.fits
                &&& d2.fits
                &&& d3.fits
                &&& d4.fits
                &&& d5.fits
            }),
    {
        let d0 = self.again(INIT_STATE);
        let d1 = d0.choice(methods(), false);
        let d2 = d1.steps(seq![0x20], None, true);
        let d3 = d2.with(start);
        let d4 = d3.any(1, None);
        let d5 = d4.with(end);
        d5.lemma_request_line_end_parts();
        d4.lemma_with(end);
        d3.lemma_any(1, None);
        d2.lemma_with(start);
        d1.lemma_steps(seq![0x20], None, true);
        d0.lemma_choice(methods(), false);
    }

    /// If the pattern of a status line fits, so does every part of it.
    proof fn lemma_status_code_parts(self, start: A, end: A)
        requires
            self.status_code(start, end).fits,
        ensures
            ({
                let d1 = self.again(INIT_STATE).steps("HTTP/1.1 ".spec_bytes(), None, false);
                let d2 = d1.with(start);
                let d3 = d2.any(3, Some(3));
                let d4 = d3.with(end);
                let d5 = d4.any(1, None);
                &&& self.fits
                &&& d1.fits
                &&& d2.fits
                &&& d3.fits
                &&& d4.fits
                &&& d5.fits
            }),
    {
        let d0 = self.again(INIT_STATE);
        let d1 = d0.steps("HTTP/1.1 ".spec_bytes(), None, false);
        let d2 = d1.with(start);
        let d3 = d2.any(3, Some(3));
        let d4 = d3.with(end);
        let d5 = d4.any(1, None);
        d5.lemma_line_end_parts();
        d4.lemma_any(1, None);
        d3.lemma_with(end);
        d2.lemma_any(3, Some(3));
        d1.lemma_with(start);
        d0.lemma_steps("HTTP/1.1 ".spec_bytes(), None, false);
    }
}

/// Whether every transition of the automaton leaves and leads to a state it
/// has, the ones every automaton has among them.
pub open spec fn closed_auto<A>(auto: Auto<A>) -> bool {
    &&& auto.in_bounds()
    &&& 2 <= auto.num_states <= u16::MAX
}

impl<A> Draft<A> {
    proof fn lemma_line_end_bounded(self)
        requires
            self.bounded(),
            self.auto.num_states >= 2,
            self.line_end().fits,
        ensures
            self.line_end().bounded(),
            self.auto.num_states <= self.line_end().auto.num_states,
    {
        self.option(cr(), false).lemma_restart_bounded(lf());
    }

    /// The patterns of a header field lead to no state the automaton does not
    /// have.
    pub proof fn lemma_field_bounded(self, name: Seq<u8>, start: A, end: A)
        requires
            closed_auto(self.auto),
            self.field(name, start, end).fits,
        ensures
            closed_auto(self.field(name, start, end).auto),
    {
        self.lemma_field_parts(name, start, end);
        self.lemma_field_name_parts(name, start);
        let d0 = self.again(ANY_STATE);
        let d1 = d0.steps(lf(), None, true);
        let d2 = d1.steps(name, None, false);
        let d3 = d2.option(seq![0x09], true).option(seq![0x20], true);
        let d4 = d3.steps(seq![0x3A], None, false);
        let d5 = d4.option(seq![0x09], true).option(seq![0x20], true);
        let v = d5.with(start);
        d0.lemma_steps(lf(), None, true);
        d0.lemma_steps_bounded(lf(), None, true);
        d1.lemma_steps_bounded(name, None, false);
        d3.lemma_steps(seq![0x3A], None, false);
        d3.lemma_steps_bounded(seq![0x3A], None, false);
        d5.lemma_with(start);
        d5.lemma_with_bounded(start);
        let e1 = v.any(1, None);
        v.lemma_any(1, None);
        v.lemma_any_bounded(1, None);
        let e2 = e1.with(end);
        e1.lemma_with_bounded(end);
        e2.lemma_line_end_bounded();
        let e3 = e2.line_end();
        e3.again(v.state).lemma_line_end_bounded();
    }

    /// The pattern of the end of the header block leads to no state the
    /// automaton does not have.
    pub proof fn lemma_header_end_bounded(self, done: A)
        requires
            closed_auto(self.auto),
            self.header_end(done).fits,
        ensures
            closed_auto(self.header_end(done).auto),
    {
        self.lemma_header_end_parts(done);
        let d0 = self.again(ANY_STATE).option(cr(), false);
        let d1 = d0.steps(lf(), None, true);
        let d2 = d1.option(cr(), false);
        let d3 = d2.steps(lf(), None, true);
        d0.lemma_steps_bounded(lf(), None, true);
        d2.lemma_steps(lf(), None, true);
        d2.lemma_steps_bounded(lf(), None, true);
        d3.lemma_with_bounded(done);
    }

    /// The pattern of the preface leads to no state the automaton does not have.
    pub proof fn lemma_h2_preface_bounded(self, start: A, end: A)
        requires
            closed_auto(self.auto),
            self.h2_preface(start, end).fits,
        ensures
            closed_auto(self.h2_preface(start, end).auto),
    {
        self.lemma_h2_preface_parts(start, end);
        let d0 = self.again(INIT_STATE);
        let d1 = d0.with(start);
        let d2 = d1.steps(preface(), None, true);
        d0.lemma_with(start);
        d0.lemma_with_bounded(start);
        d1.lemma_steps(preface(), None, true);
        d1.lemma_steps_bounded(preface(), None, true);
        d2.lemma_with_bounded(end);
    }

    proof fn lemma_request_line_end_bounded(self)
        requires
            self.bounded(),
            self.auto.num_states >= 2,
            self.request_line_end().fits,
        ensures
            self.request_line_end().bounded(),
            self.auto.num_states <= self.request_line_end().auto.num_states,
    {
        self.lemma_request_line_end_parts();
        self.lemma_steps_bounded(" HTTP/1.1".spec_bytes(), None, false);
        self.steps(" HTTP/1.1".spec_bytes(), None, false).lemma_line_end_bounded();
    }

    /// The pattern of a request line leads to no state the automaton does not
    /// have.
    pub proof fn lemma_request_method_bounded(self, start: A, end: A)
        requires
            closed_auto(self.auto),
            self.request_method(start, end).fits,
        ensures
            closed_auto(self.request_method(start, end).auto),
    {
        self.lemma_request_method_parts(start, end);
        let d0 = self.again(INIT_STATE);
        let d1 = d0.with(start);
        let d2 = d1.choice(methods(), false);
        let d3 = d2.with(end);
        let d4 = d3.steps(seq![0x20], None, true);
        let d5 = d4.any(1, None);
        d0.lemma_with(start);
        d0.lemma_with_bounded(start);
        d1.lemma_choice(methods(), false);
        d1.lemma_choice_bounded(methods(), false);
        d2.lemma_with_bounded(end);
        d3.lemma_steps_bounded(seq![0x20], None, true);
        d4.lemma_any_bounded(1, None);
        d5.lemma_request_line_end_bounded();
    }

    /// The pattern of a request line leads to no state the automaton does not
    /// have.
    pub proof fn lemma_request_path_bounded(self, start: A, end: A)
        requires
            closed_auto(self.auto),
            self.request_path(start, end).fits,
        ensures
            closed_auto(self.request_path(start, end).auto),
    {
        self.lemma_request_path_parts(start, end);
        let d0 = self.again(INIT_STATE);
        let d1 = d0.choice(methods(), false);
        let d2 = d1.steps(seq![0x20], None, true);
        let d3 = d2.with(start);
        let d4 = d3.any(1, None);
        let d5 = d4.with(end);
        d0.lemma_choice_bounded(methods(), false);
        d1.lemma_steps(seq![0x20], None, true);
        d1.lemma_steps_bounded(seq![0x20], None, true);
        d2.lemma_with(start);
        d2.lemma_with_bounded(start);
        d3.lemma_any(1, None);
        d3.lemma_any_bounded(1, None);
        d4.lemma_with_bounded(end);
        d5.lemma_request_line_end_bounded();
    }

    /// The pattern of a status line leads to no state the automaton does not
    /// have.
    pub proof fn lemma_status_code_bounded(self, start: A, end: A)
        requires
            closed_auto(self.auto),
            self.status_code(start, end).fits,
        ensures
            closed_auto(self.status_code(start, end).auto),
    {
        self.lemma_status_code_parts(start, end);
        let d0 = self.again(INIT_STATE);
        let d1 = d0.steps("HTTP/1.1 ".spec_bytes(), None, false);
        let d2 = d1.with(start);
        let d3 = d2.any(3, Some(3));
        let d4 = d3.with(end);
        let d5 = d4.any(1, None);
        d0.lemma_steps("HTTP/1.1 ".spec_bytes(), None, false);
        d0.lemma_steps_bounded("HTTP/1.1 ".spec_bytes(), None, false);
        d1.lemma_with(start);
        d1.lemma_with_bounded(start);
        d2.lemma_any(3, Some(3));
        d2.lemma_any_bounded(3, Some(3));
        d3.lemma_with_bounded(end);
        d4.lemma_any_bounded(1, None);
        d5.lemma_line_end_bounded();
    }
}

/// The strings the patterns are spelled with.
proof fn lemma_spellings()
    ensures
        CR.spec_bytes() == cr(),
        LF.spec_bytes() == lf(),
        "\t".spec_bytes() == seq![0x09u8],
        " ".spec_bytes() == seq![0x20u8],
        ":".spec_bytes() == seq![0x3Au8],
{
    reveal_strlit("\r");
    reveal_strlit("\n");
    reveal_strlit("\t");
    reveal_strlit(" ");
    reveal_strlit(":");
    lemma_ascii("\r", cr());
    lemma_ascii("\n", lf());
    lemma_ascii("\t", seq![0x09]);
    lemma_ascii(" ", seq![0x20]);
    lemma_ascii(":", seq![0x3A]);
}

/// Builds the patterns of a header field whose name is spelled `name`.
pub(crate) fn push_field<A: Copy>(dfa: &mut Dfa<A>, name: &str, start: A, end: A)
    requires
        old(dfa).wf(),
        Draft::start(old(dfa)@, ANY_STATE).field(name.spec_bytes(), start, end).fits,
    ensures
        final(dfa).wf(),
        final(dfa)@ == Draft::start(old(dfa)@, ANY_STATE).field(
            name.spec_bytes(),
            start,
            end,
        ).auto,
{
    let ghost d = Draft::start(dfa@, ANY_STATE);
    let ghost v = d.field_name(name.spec_bytes(), start);
    let ghost w = v.any(1, None).with(end).line_end();
    proof {
        lemma_spellings();
        d.lemma_field_parts(name.spec_bytes(), start, end);
        d.lemma_field_name_parts(name.spec_bytes(), start);
        assert(d.again(ANY_STATE) =~= d);
        assert(w.again(v.state) =~= Draft::start(w.auto, v.state));
    }
    let mut pattern = dfa.start_pattern(ANY_STATE);
    pattern.push(LF).push_ci(name).push_optional("\t", true).push_optional(" ", true).push_ci(
        ":",
    ).push_optional("\t", true).push_optional(" ", true).with(start);

    // the value begins here, and it may be empty
    let value = pattern.state();
    pattern.push_any(1, None).with(end).push_optional(CR, false).restart_with(LF);
    proof {
        pattern.lemma_view();
    }

    // an empty value ends its line where it would have begun, and there is
    // nothing in it to capture
    let mut pattern = dfa.start_pattern(value);
    pattern.push_optional(CR, false).restart_with(LF);
    proof {
        pattern.lemma_view();
    }
}

/// Builds the pattern of the empty line that ends the header block.
pub(crate) fn push_header_end<A: Copy>(dfa: &mut Dfa<A>, done: A)
    requires
        old(dfa).wf(),
        Draft::start(old(dfa)@, ANY_STATE).header_end(done).fits,
    ensures
        final(dfa).wf(),
        final(dfa)@ == Draft::start(old(dfa)@, ANY_STATE).header_end(done).auto,
{
    proof {
        lemma_spellings();
        let d = Draft::start(dfa@, ANY_STATE);
        d.lemma_header_end_parts(done);
        assert(d.again(ANY_STATE) =~= d);
    }
    let mut pattern = dfa.start_pattern(ANY_STATE);
    pattern.push_optional(CR, false).push(LF).push_optional(CR, false).push(LF).with(done);
    proof {
        pattern.lemma_view();
    }
}

/// Returns whether the pattern of the end of the header block fits.
pub(crate) fn header_end_fits<A: Comparable>(dfa: &Dfa<A>, done: A) -> (r: bool)
    requires
        dfa.wf(),
        closed_auto(dfa@),
    ensures
        r == Draft::start(dfa@, ANY_STATE).header_end(done).fits,
{
    let ghost d = Draft::start(dfa@, ANY_STATE);
    let ghost a0 = d.option(cr(), false);
    let ghost s0 = a0.settle();
    let ghost d1 = a0.steps(lf(), None, true);
    let ghost a1 = d1.option(cr(), false);
    let ghost s1 = a1.settle();
    let ghost d2 = a1.steps(lf(), None, true);
    let ghost n = dfa@.num_states;
    proof {
        assert(d.again(ANY_STATE) =~= d);
        assert(a0.optional =~= seq![(cr(), false)]);
        a0.lemma_settle_one(0x0D, false);
        a0.lemma_steps_one(0x0A, None, true);
        a0.lemma_settled_step(0x0A, None, true);
        a0.lemma_step(0x0A, None, true);
        assert(a1.optional =~= seq![(cr(), false)]);
        a1.lemma_settle_one(0x0D, false);
        a1.lemma_steps_one(0x0A, None, true);
        a1.lemma_settled_step(0x0A, None, true);
        a1.lemma_step(0x0A, None, true);
        d2.lemma_with(done);
        d2.lemma_settle();
        assert(s0.fits <==> d.auto.accepts(ANY_STATE, 0x0D, ANY_STATE, None));
        assert forall|from: StateId, input: u16| #[trigger] dfa@.has(from, input) implies from < n
            && dfa@.to(from, input) < n by {}
    }
    if let Some(to) = dfa.successor(ANY_STATE, 0x0D) {
        if to != ANY_STATE {
            return false;
        }
    }
    match dfa.successor(ANY_STATE, 0x0A) {
        None => {
            proof {
                assert(d1.fits <==> n < u16::MAX);
                if n < u16::MAX {
                    assert(d1.state == n);
                    assert(!dfa@.has(d1.state, 0x0D));
                    assert(!dfa@.has(d1.state, 0x0A));
                    assert(s1.fits);
                    assert(d2.fits <==> n + 1 < u16::MAX);
                    assert(d2.fits ==> d2.state == n + 1);
                }
                if d2.fits {
                    assert forall|from: StateId, input: u16| #[trigger]
                        d2.auto.has(from, input) && d2.ends_in(
                            d2.auto.to(from, input),
                        ) implies d2.auto.action(from, input) is None by {
                        assert(dfa@.has(from, input) ==> dfa@.to(from, input) < n);
                    }
                }
            }
            u16::MAX - dfa.num_states() >= 2
        },
        Some(line) => {
            assert(d1.fits && d1.state == line);
            assert(s1.fits <==> dfa@.accepts(line, 0x0D, line, None));
            if let Some(to) = dfa.successor(line, 0x0D) {
                if to != line {
                    return false;
                }
            }
            match dfa.successor(line, 0x0A) {
                None => {
                    assert(d2.fits <==> n < u16::MAX);
                    assert(d2.fits ==> d2.state == n);
                    proof {
                        if d2.fits {
                            assert forall|from: StateId, input: u16| #[trigger]
                                d2.auto.has(from, input) && d2.ends_in(
                                    d2.auto.to(from, input),
                                ) implies d2.auto.action(from, input) is None by {
                                assert(dfa@.has(from, input) ==> dfa@.to(from, input) < n);
                            }
                        }
                    }
                    dfa.num_states() < u16::MAX
                },
                Some(end) => {
                    assert(d2.fits && d2.state == end);
                    proof {
                        let e = Draft::start(dfa@, end);
                        assert forall|from: StateId, input: u16| #[trigger]
                            e.auto.has(from, input) implies d2.auto.has(from, input)
                            && d2.auto.edges[(from, input)] == e.auto.edges[(from, input)] by {}
                        assert forall|from: StateId, input: u16| #[trigger]
                            d2.auto.has(from, input) && !e.auto.has(
                                from,
                                input,
                            ) implies d2.auto.action(from, input) is None by {}
                        assert(d2.takes_action(done) <==> e.takes_action(done));
                    }
                    dfa.takes_action(end, done)
                },
            }
        },
    }
}

/// Builds the pattern of the preface of an HTTP/2 connection.
pub(crate) fn push_h2_preface<A: Copy>(dfa: &mut Dfa<A>, start: A, end: A)
    requires
        old(dfa).wf(),
        Draft::start(old(dfa)@, INIT_STATE).h2_preface(start, end).fits,
    ensures
        final(dfa).wf(),
        final(dfa)@ == Draft::start(old(dfa)@, INIT_STATE).h2_preface(start, end).auto,
{
    proof {
        let d = Draft::start(dfa@, INIT_STATE);
        d.lemma_h2_preface_parts(start, end);
        assert(d.again(INIT_STATE) =~= d);
    }
    let mut pattern = dfa.start_pattern(INIT_STATE);
    pattern.with(start).push("PRI * HTTP/2.0\r\n\r\nSM\r\n\r\n").with(end);
    proof {
        pattern.lemma_view();
    }
}

/// Builds the pattern of a request line whose method is marked.
pub(crate) fn push_request_method<A: Copy>(dfa: &mut Dfa<A>, start: A, end: A)
    requires
        old(dfa).wf(),
        Draft::start(old(dfa)@, INIT_STATE).request_method(start, end).fits,
    ensures
        final(dfa).wf(),
        final(dfa)@ == Draft::start(old(dfa)@, INIT_STATE).request_method(start, end).auto,
{
    let names = ["POST", "GET", "PUT", "PATCH", "DELETE", "HEAD", "OPTIONS", "TRACE"];
    proof {
        lemma_spellings();
        let d = Draft::start(dfa@, INIT_STATE);
        d.lemma_request_method_parts(start, end);
        let d5 = d.with(start).choice(methods(), false).with(end).steps(
            seq![0x20],
            None,
            true,
        ).any(1, None);
        d5.lemma_request_line_end_parts();
        assert(d.again(INIT_STATE) =~= d);
        assert(spellings(names@) =~= methods());
    }
    let mut pattern = dfa.start_pattern(INIT_STATE);
    pattern.with(start).push_options_ci(&names).with(end).push(" ").push_any(1, None).push_ci(
        " HTTP/1.1",
    ).push_optional(CR, false).restart_with(LF);
    proof {
        pattern.lemma_view();
    }
}

/// Builds the pattern of a request line whose path is marked.
pub(crate) fn push_request_path<A: Copy>(dfa: &mut Dfa<A>, start: A, end: A)
    requires
        old(dfa).wf(),
        Draft::start(old(dfa)@, INIT_STATE).request_path(start, end).fits,
    ensures
        final(dfa).wf(),
        final(dfa)@ == Draft::start(old(dfa)@, INIT_STATE).request_path(start, end).auto,
{
    let names = ["POST", "GET", "PUT", "PATCH", "DELETE", "HEAD", "OPTIONS", "TRACE"];
    proof {
        lemma_spellings();
        let d = Draft::start(dfa@, INIT_STATE);
        d.lemma_request_path_parts(start, end);
        let d5 = d.choice(methods(), false).steps(seq![0x20], None, true).with(start).any(
            1,
            None,
        ).with(end);
        d5.lemma_request_line_end_parts();
        assert(d.again(INIT_STATE) =~= d);
        assert(spellings(names@) =~= methods());
    }
    let mut pattern = dfa.start_pattern(INIT_STATE);
    pattern.push_options_ci(&names).push(" ").with(start).push_any(1, None).with(end).push_ci(
        " HTTP/1.1",
    ).push_optional(CR, false).restart_with(LF);
    proof {
        pattern.lemma_view();
    }
}

/// Builds the pattern of a status line whose status code is marked.
pub(crate) fn push_status_code<A: Copy>(dfa: &mut Dfa<A>, start: A, end: A)
    requires
        old(dfa).wf(),
        Draft::start(old(dfa)@, INIT_STATE).status_code(start, end).fits,
    ensures
        final(dfa).wf(),
        final(dfa)@ == Draft::start(old(dfa)@, INIT_STATE).status_code(start, end).auto,
{
    proof {
        lemma_spellings();
        let d = Draft::start(dfa@, INIT_STATE);
        d.lemma_status_code_parts(start, end);
        assert(d.again(INIT_STATE) =~= d);
    }
    let mut pattern = dfa.start_pattern(INIT_STATE);
    pattern.push_ci("HTTP/1.1 ").with(start).push_any(3, Some(3)).with(end).push_any(
        1,
        None,
    ).push_optional(CR, false).restart_with(LF);
    proof {
        pattern.lemma_view();
    }
}

/// The automaton with the patterns that mark the value of the field `key` names
/// with `start` and `end`. A field of the request or status line is named the
/// way HTTP/2 spells it.
pub open spec fn captured<A>(auto: Auto<A>, key: Seq<u8>, start: A, end: A) -> Draft<A> {
    let d = Draft::start(auto, INIT_STATE);
    if key == METHOD.spelling().spec_bytes() {
        d.request_method(start, end)
    } else if key == PATH.spelling().spec_bytes() {
        d.request_path(start, end)
    } else if key == STATUS.spelling().spec_bytes() {
        d.status_code(start, end)
    } else {
        d.field(key, start, end)
    }
}

/// The patterns of a field lead to no state the automaton does not have.
pub proof fn lemma_captured_bounded<A>(auto: Auto<A>, key: Seq<u8>, start: A, end: A)
    requires
        closed_auto(auto),
        captured(auto, key, start, end).fits,
    ensures
        closed_auto(captured(auto, key, start, end).auto),
{
    let d = Draft::start(auto, INIT_STATE);
    if key == METHOD.spelling().spec_bytes() {
        d.lemma_request_method_bounded(start, end);
    } else if key == PATH.spelling().spec_bytes() {
        d.lemma_request_path_bounded(start, end);
    } else if key == STATUS.spelling().spec_bytes() {
        d.lemma_status_code_bounded(start, end);
    } else {
        d.lemma_field_bounded(key, start, end);
    }
}

/// Builds the patterns of the field `name` names.
pub(crate) fn push_captured<A: Copy>(dfa: &mut Dfa<A>, name: &str, start: A, end: A)
    requires
        old(dfa).wf(),
        captured(old(dfa)@, name.spec_bytes(), start, end).fits,
    ensures
        final(dfa).wf(),
        final(dfa)@ == captured(old(dfa)@, name.spec_bytes(), start, end).auto,
{
    if same_str(name, METHOD.as_str()) {
        push_request_method(dfa, start, end);
    } else if same_str(name, PATH.as_str()) {
        push_request_path(dfa, start, end);
    } else if same_str(name, STATUS.as_str()) {
        push_status_code(dfa, start, end);
    } else {
        proof {
            assert(Draft::start(dfa@, INIT_STATE).again(ANY_STATE) =~= Draft::start(
                dfa@,
                ANY_STATE,
            ).again(ANY_STATE));
        }
        push_field(dfa, name, start, end);
    }
}

} // verus!

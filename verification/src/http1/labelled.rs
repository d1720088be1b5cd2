//! Every pattern of an HTTP/1.x parser keeps the states of the automaton
//! standing for the places in a message they are to stand for.

use super::heads::lemma_more_patterns;
use super::label::{
    extends, goes, has_parent, is_free, is_name_byte, leads_to, lemma_first_states, lemma_goes_kept,
    mark_of, models, parent, Label, Labels, Marks, Patterns,
};
use super::pattern::{cr, lf};
use crate::dfa::model::{lower, other_case, Auto, Draft, ANY_INPUT, ANY_STATE};
use crate::StateId;
use vstd::prelude::*;

verus! {

/// Whether `later` has the transitions of `auto`, under the same labels.
pub open spec fn grows<A>(
    auto: Auto<A>,
    labels: Labels,
    later: Auto<A>,
    later_labels: Labels,
) -> bool {
    &&& extends(labels, later_labels)
    &&& auto.num_states <= later.num_states
    &&& forall|s: StateId, i: u16| #[trigger]
        auto.has(s, i) ==> later.has(s, i) && later.to(s, i) == auto.to(s, i)
}

/// What grows step by step grows all in all.
pub proof fn lemma_grows<A>(
    a: Auto<A>,
    la: Labels,
    b: Auto<A>,
    lb: Labels,
    c: Auto<A>,
    lc: Labels,
)
    requires
        grows(a, la, b, lb),
        grows(b, lb, c, lc),
    ensures
        grows(a, la, c, lc),
{
    assert forall|s: StateId, i: u16| #[trigger] a.has(s, i) implies c.has(s, i) && c.to(s, i)
        == a.to(s, i) by {
        assert(b.has(s, i));
    }
}

/// Whether a name is one that can be told from what is around it, spelled in
/// lower case.
pub open spec fn is_key(name: Seq<u8>) -> bool {
    forall|i: int|
        0 <= i < name.len() ==> is_name_byte(#[trigger] name[i] as u16) && lower(name[i] as u16)
            == name[i]
}

impl<A> Draft<A> {
    /// Whether the draft is in the middle of a pattern of an automaton that
    /// stands for what it is to, at the place `label`.
    pub open spec fn is_at(self, labels: Labels, marks: Marks<A>, label: Label) -> bool {
        &&& self.fits
        &&& self.plain()
        &&& models(self.auto, labels, marks)
        &&& labels.contains_key(self.state)
        &&& labels[self.state] == label
    }

    /// One more input, read at `label`, leads to `x`.
    pub proof fn lemma_labelled_step(
        self,
        labels: Labels,
        marks: Marks<A>,
        label: Label,
        b: u16,
        case_sensitive: bool,
        x: Label,
    ) -> (later: Labels)
        requires
            self.is_at(labels, marks, label),
            leads_to(marks.patterns, label, b) == Some(x),
            parent(x) == Some((label, b)),
            self.auto.num_states < u16::MAX,
            case_sensitive || leads_to(marks.patterns, label, other_case(b)) == Some(x),
        ensures
            ({
                let e = self.step(b, None, case_sensitive);
                &&& e.is_at(later, marks, x)
                &&& grows(self.auto, labels, e.auto, later)
                &&& e.auto.num_states <= self.auto.num_states + 1
                &&& e.auto.has(self.state, b)
                &&& !case_sensitive ==> e.auto.has(self.state, other_case(b))
            }),
    {
        self.lemma_plain_step(b, None, case_sensitive);
        self.lemma_labelled_edge(labels, marks, self.state, b, None, case_sensitive, x)
    }

    /// The end of a line, at a place that is left by nothing else.
    pub proof fn lemma_labelled_line_end(
        self,
        labels: Labels,
        marks: Marks<A>,
        label: Label,
    ) -> (later: Labels)
        requires
            self.is_at(labels, marks, label),
            leads_to(marks.patterns, label, 0x0D) == Some(label),
            leads_to(marks.patterns, label, 0x0A) == Some(Label::Node(Seq::empty())),
            self.auto.num_states < u16::MAX,
        ensures
            ({
                let e = self.line_end();
                &&& e.fits
                &&& e.plain()
                &&& models(e.auto, later, marks)
                &&& grows(self.auto, labels, e.auto, later)
                &&& e.auto.num_states <= self.auto.num_states + 1
                &&& goes(e.auto, later, label, 0x0D)
                &&& goes(e.auto, later, label, 0x0A)
                &&& goes(e.auto, later, Label::Any, 0x0A)
            }),
    {
        lemma_first_states(self.auto, labels, marks);
        let d0 = self.option(cr(), false);
        assert(d0.optional =~= seq![(seq![0x0Du8], false)]);
        let line = Label::Node(Seq::empty());
        let later = d0.lemma_labelled_edge(labels, marks, ANY_STATE, 0x0A, None, false, line);
        let led = d0.edge(ANY_STATE, 0x0A, None, false);
        let l = d0.target(ANY_STATE, 0x0A, None);
        reveal_with_fuel(Draft::lead, 2);
        reveal_with_fuel(Draft::lead_end, 2);
        assert(lf().drop_first() =~= Seq::<u8>::empty());
        assert(d0.lead(ANY_STATE, lf()) == led);
        assert(d0.lead_end(ANY_STATE, lf()) == l);
        led.lemma_steps_one(0x0A, Some(l), false);
        led.lemma_settled_step(0x0A, Some(l), false);
        led.lemma_settle_one(0x0D, false);
        let later1 = led.lemma_labelled_edge(
            later,
            marks,
            led.state,
            0x0D,
            Some(led.state),
            false,
            label,
        );
        let s = led.settle();
        let later2 = s.lemma_labelled_edge(later, marks, s.state, 0x0A, Some(l), false, line);
        let e = self.line_end();
        assert(e.skipped =~= self.skipped);
        assert(later.contains_key(self.state) && later[self.state] == label && e.auto.has(
            self.state,
            0x0D,
        ));
        assert(later.contains_key(ANY_STATE) && later[ANY_STATE] == Label::Any && e.auto.has(
            ANY_STATE,
            0x0A,
        ));
        later
    }

    /// One byte of a name, of which `p` has been read.
    proof fn lemma_labelled_name_byte(
        self,
        labels: Labels,
        marks: Marks<A>,
        p: Seq<u8>,
        b: u8,
    ) -> (later: Labels)
        requires
            self.is_at(labels, marks, Label::Node(p)),
            is_name_byte(b as u16),
            lower(b as u16) == b,
            self.auto.num_states < u16::MAX,
        ensures
            ({
                let e = self.step(b as u16, None, false);
                &&& e.is_at(later, marks, Label::Node(p.push(b)))
                &&& grows(self.auto, labels, e.auto, later)
                &&& e.auto.num_states <= self.auto.num_states + 1
                &&& goes(e.auto, later, Label::Node(p), b as u16)
                &&& goes(e.auto, later, Label::Node(p), other_case(b as u16))
            }),
    {
        let q = p.push(b);
        assert(q.drop_last() =~= p);
        let o = other_case(b as u16);
        assert(is_name_byte(o));
        assert(lower(o) == b);
        let later = self.lemma_labelled_step(
            labels,
            marks,
            Label::Node(p),
            b as u16,
            false,
            Label::Node(q),
        );
        let e = self.step(b as u16, None, false);
        assert(later.contains_key(self.state) && later[self.state] == Label::Node(p)
            && e.auto.has(self.state, b as u16) && e.auto.has(self.state, o));
        later
    }

    /// The rest of a name, of which `p` has been read.
    proof fn lemma_labelled_name(
        self,
        labels: Labels,
        marks: Marks<A>,
        p: Seq<u8>,
        rest: Seq<u8>,
    ) -> (later: Labels)
        requires
            self.is_at(labels, marks, Label::Node(p)),
            is_key(rest),
            self.auto.num_states + rest.len() <= u16::MAX,
        ensures
            ({
                let e = self.steps(rest, None, false);
                &&& e.is_at(later, marks, Label::Node(p + rest))
                &&& grows(self.auto, labels, e.auto, later)
                &&& e.auto.num_states <= self.auto.num_states + rest.len()
                &&& forall|k: int|
                    0 <= k < rest.len() ==> #[trigger] goes_on(e.auto, later, p, rest, k)
            }),
        decreases rest.len(),
    {
        if rest.len() == 0 {
            assert(p + rest =~= p);
            labels
        } else {
            let b = rest[0];
            assert(is_name_byte(rest[0] as u16) && lower(rest[0] as u16) == rest[0]);
            let l1 = self.lemma_labelled_name_byte(labels, marks, p, b);
            let d = self.step(b as u16, None, false);
            let tail = rest.drop_first();
            assert(is_key(tail)) by {
                assert forall|i: int| 0 <= i < tail.len() implies is_name_byte(
                    #[trigger] tail[i] as u16,
                ) && lower(tail[i] as u16) == tail[i] by {
                    assert(is_name_byte(rest[i + 1] as u16));
                }
            }
            let q = p.push(b);
            let l2 = d.lemma_labelled_name(l1, marks, q, tail);
            let e = self.steps(rest, None, false);
            assert(e == d.steps(tail, None, false));
            assert(q + tail =~= p + rest);
            lemma_grows(self.auto, labels, d.auto, l1, e.auto, l2);
            lemma_goes_kept(d.auto, l1, e.auto, l2, Label::Node(p), b as u16);
            lemma_goes_kept(d.auto, l1, e.auto, l2, Label::Node(p), other_case(b as u16));
            assert forall|k: int| 0 <= k < rest.len() implies #[trigger] goes_on(
                e.auto,
                l2,
                p,
                rest,
                k,
            ) by {
                if k == 0 {
                    assert(p + rest.take(0) =~= p);
                } else {
                    assert(goes_on(e.auto, l2, q, tail, k - 1));
                    assert(q + tail.take(k - 1) =~= p + rest.take(k));
                }
            }
            l2
        }
    }
}

/// Whether the `k`th byte of `rest` is read behind `p` and those before it, in
/// either case.
pub open spec fn goes_on<A>(
    auto: Auto<A>,
    labels: Labels,
    p: Seq<u8>,
    rest: Seq<u8>,
    k: int,
) -> bool {
    &&& goes(auto, labels, Label::Node(p + rest.take(k)), rest[k] as u16)
    &&& goes(auto, labels, Label::Node(p + rest.take(k)), other_case(rest[k] as u16))
}

/// Whether all of the patterns of the field `name` are there.
pub open spec fn has_field<A>(auto: Auto<A>, labels: Labels, name: Seq<u8>) -> bool {
    &&& goes(auto, labels, Label::Any, 0x0A)
    &&& forall|k: int|
        0 <= k < name.len() ==> #[trigger] goes_on(auto, labels, Seq::empty(), name, k)
    &&& goes(auto, labels, Label::Node(name), 0x09)
    &&& goes(auto, labels, Label::Node(name), 0x20)
    &&& goes(auto, labels, Label::Node(name), 0x3A)
    &&& goes(auto, labels, Label::Value(name), 0x09)
    &&& goes(auto, labels, Label::Value(name), 0x20)
    &&& goes(auto, labels, Label::Value(name), 0x0D)
    &&& goes(auto, labels, Label::Value(name), 0x0A)
    &&& goes(auto, labels, Label::Value(name), ANY_INPUT)
    &&& goes(auto, labels, Label::Text(name), ANY_INPUT)
    &&& goes(auto, labels, Label::Text(name), 0x0D)
    &&& goes(auto, labels, Label::Text(name), 0x0A)
}

/// The patterns of a field that are there stay there.
pub proof fn lemma_has_field_kept<A>(
    auto: Auto<A>,
    labels: Labels,
    later: Auto<A>,
    later_labels: Labels,
    name: Seq<u8>,
)
    requires
        has_field(auto, labels, name),
        grows(auto, labels, later, later_labels),
    ensures
        has_field(later, later_labels, name),
{
    lemma_goes_kept(auto, labels, later, later_labels, Label::Any, 0x0A);
    lemma_goes_kept(auto, labels, later, later_labels, Label::Node(name), 0x09);
    lemma_goes_kept(auto, labels, later, later_labels, Label::Node(name), 0x20);
    lemma_goes_kept(auto, labels, later, later_labels, Label::Node(name), 0x3A);
    lemma_goes_kept(auto, labels, later, later_labels, Label::Value(name), 0x09);
    lemma_goes_kept(auto, labels, later, later_labels, Label::Value(name), 0x20);
    lemma_goes_kept(auto, labels, later, later_labels, Label::Value(name), 0x0D);
    lemma_goes_kept(auto, labels, later, later_labels, Label::Value(name), 0x0A);
    lemma_goes_kept(auto, labels, later, later_labels, Label::Value(name), ANY_INPUT);
    lemma_goes_kept(auto, labels, later, later_labels, Label::Text(name), ANY_INPUT);
    lemma_goes_kept(auto, labels, later, later_labels, Label::Text(name), 0x0D);
    lemma_goes_kept(auto, labels, later, later_labels, Label::Text(name), 0x0A);
    assert forall|k: int| 0 <= k < name.len() implies #[trigger] goes_on(
        later,
        later_labels,
        Seq::empty(),
        name,
        k,
    ) by {
        assert(goes_on(auto, labels, Seq::empty(), name, k));
        let l = Label::Node(Seq::<u8>::empty() + name.take(k));
        lemma_goes_kept(auto, labels, later, later_labels, l, name[k] as u16);
        lemma_goes_kept(auto, labels, later, later_labels, l, other_case(name[k] as u16));
    }
}

impl<A> Marks<A> {
    /// Whether the patterns can become `patterns`, which have that of the field
    /// `name` besides.
    pub open spec fn gives_way_to(self, patterns: Patterns, name: Seq<u8>) -> bool {
        &&& self.patterns.within(patterns)
        &&& !self.patterns.names.contains(name)
        &&& patterns.names.contains(name)
        &&& self.method is Some ==> self.patterns.request
        &&& self.status_start is Some ==> self.patterns.status
        &&& self.preface is Some ==> self.patterns.preface
    }

    /// The marks with another action where the value of a field begins.
    pub open spec fn start_field(self, name: Seq<u8>, start: A) -> Marks<A> {
        Marks { starts: self.starts.insert(name, start), ..self }
    }

    /// The marks with another action where the value of a field may end.
    pub open spec fn end_field(self, name: Seq<u8>, end: A) -> Marks<A> {
        Marks { ends: self.ends.insert(name, end), ..self }
    }
}

impl<A> Draft<A> {
    /// Whitespace that may appear any number of times.
    proof fn lemma_labelled_blanks(self, labels: Labels, marks: Marks<A>, label: Label)
        requires
            self.is_at(labels, marks, label),
            leads_to(marks.patterns, label, 0x09) == Some(label),
            leads_to(marks.patterns, label, 0x20) == Some(label),
        ensures
            ({
                let d = self.option(seq![0x09], true).option(seq![0x20], true);
                let e = d.settle();
                &&& d.skipped.len() == 0
                &&& e.is_at(labels, marks, label)
                &&& e.state == self.state
                &&& grows(self.auto, labels, e.auto, labels)
                &&& e.auto.num_states == self.auto.num_states
                &&& e.auto.has(self.state, 0x09)
                &&& e.auto.has(self.state, 0x20)
                &&& forall|i: u16| #[trigger]
                    e.auto.has(self.state, i) ==> self.auto.has(self.state, i) || i == 0x09 || i
                        == 0x20
            }),
    {
        let d = self.option(seq![0x09], true).option(seq![0x20], true);
        assert(d.optional =~= seq![(seq![0x09u8], true), (seq![0x20u8], true)]);
        d.lemma_settle_two(0x09, 0x20, true);
        let l1 = d.lemma_labelled_edge(labels, marks, d.state, 0x20, Some(d.state), true, label);
        let d1 = d.edge(d.state, 0x20, Some(d.state), true);
        let l2 = d1.lemma_labelled_edge(labels, marks, d.state, 0x09, Some(d.state), true, label);
        let e = d.settle();
        assert(e.skipped =~= self.skipped);
        assert forall|s: StateId, i: u16| #[trigger] self.auto.has(s, i) implies e.auto.has(s, i)
            && e.auto.to(s, i) == self.auto.to(s, i) by {
            assert(d1.auto.has(s, i));
        }
        assert(d1.auto.has(d.state, 0x20));
    }

    /// The action that marks where the value of a field begins.
    proof fn lemma_mark_start(
        self,
        labels: Labels,
        marks: Marks<A>,
        name: Seq<u8>,
        node: StateId,
        start: A,
    )
        requires
            self.is_at(labels, marks, Label::Value(name)),
            labels.contains_key(node),
            labels[node] == Label::Node(name),
            self.auto.has(node, 0x3A),
            self.auto.has(self.state, 0x20),
            self.auto.has(self.state, 0x09),
            forall|i: u16| #[trigger] self.auto.has(self.state, i) ==> i == 0x09 || i == 0x20,
            mark_of(marks.starts, name) is None,
            marks.patterns.names.contains(name),
        ensures
            ({
                let e = self.with(start);
                &&& e.is_at(labels, marks.start_field(name, start), Label::Value(name))
                &&& e.state == self.state
                &&& grows(self.auto, labels, e.auto, labels)
                &&& e.auto.num_states == self.auto.num_states
            }),
    {
        reveal(models);
        let m2 = marks.start_field(name, start);
        assert forall|s: StateId, i: u16| #[trigger] self.auto.has(s, i) implies if leads_to(
            marks.patterns,
            labels[s],
            i,
        ) == Some(labels[self.state]) {
            &&& is_free(marks.action(labels[s], i), start)
            &&& m2.action(labels[s], i) == Some(start)
        } else {
            m2.action(labels[s], i) == marks.action(labels[s], i)
        } by {
            assert(labels.contains_key(s));
            if labels[s] == Label::Value(name) {
                assert(s == self.state);
            }
        }
        assert forall|l: Label, i: u16| (#[trigger] m2.action(l, i)) is Some implies goes(
            self.auto,
            labels,
            l,
            i,
        ) by {
            if marks.action(l, i) is None {
                assert(labels.contains_key(node) && self.auto.has(node, 0x3A));
                assert(labels.contains_key(self.state) && self.auto.has(self.state, 0x20)
                    && self.auto.has(self.state, 0x09));
            }
        }
        self.lemma_labelled_with(labels, marks, m2, start);
    }

    /// A field that is none of the patterns has no state for its value, and no
    /// action.
    proof fn lemma_field_is_new(self, labels: Labels, marks: Marks<A>, name: Seq<u8>)
        requires
            self.is_at(labels, marks, Label::Node(name)),
            !marks.patterns.names.contains(name),
        ensures
            !self.auto.has(self.state, 0x3A),
            forall|i: u16| !(#[trigger] self.auto.has(self.auto.num_states as u16, i)),
            mark_of(marks.starts, name) is None,
            mark_of(marks.ends, name) is None,
    {
        reveal(models);
        assert(!self.auto.has(self.state, 0x3A));
        assert(self.state < self.auto.num_states);
        if marks.action(Label::Node(name), 0x3A) is Some {
            assert(goes(self.auto, labels, Label::Node(name), 0x3A));
        }
        if marks.action(Label::Value(name), ANY_INPUT) is Some {
            assert(goes(self.auto, labels, Label::Value(name), ANY_INPUT));
            let s = choose|s: StateId| #[trigger]
                labels.contains_key(s) && labels[s] == Label::Value(name) && self.auto.has(
                    s,
                    ANY_INPUT,
                );
            assert(has_parent(self.auto, labels, labels[s]));
        }
    }

    /// The pattern of the name of a field, up to where its value begins.
    proof fn lemma_labelled_field_name(
        self,
        labels: Labels,
        marks: Marks<A>,
        patterns: Patterns,
        name: Seq<u8>,
        start: A,
    ) -> (later: Labels)
        requires
            self.fits,
            models(self.auto, labels, marks),
            is_key(name),
            marks.gives_way_to(patterns, name),
            self.auto.num_states + name.len() + 2 <= u16::MAX,
        ensures
            ({
                let e = self.field_name(name, start);
                let m = Marks { patterns, ..marks };
                &&& e.is_at(later, m.start_field(name, start), Label::Value(name))
                &&& forall|i: u16| #[trigger] e.auto.has(e.state, i) ==> i == 0x09 || i == 0x20
                &&& mark_of(marks.ends, name) is None
                &&& grows(self.auto, labels, e.auto, later)
                &&& e.auto.num_states <= self.auto.num_states + name.len() + 2
                &&& goes(e.auto, later, Label::Any, 0x0A)
                &&& forall|k: int|
                    0 <= k < name.len() ==> #[trigger] goes_on(
                        e.auto,
                        later,
                        Seq::empty(),
                        name,
                        k,
                    )
                &&& goes(e.auto, later, Label::Node(name), 0x09)
                &&& goes(e.auto, later, Label::Node(name), 0x20)
                &&& goes(e.auto, later, Label::Node(name), 0x3A)
                &&& goes(e.auto, later, Label::Value(name), 0x09)
                &&& goes(e.auto, later, Label::Value(name), 0x20)
            }),
    {
        lemma_first_states(self.auto, labels, marks);
        let empty = Seq::<u8>::empty();
        let d0 = self.again(ANY_STATE);
        d0.lemma_steps_one(0x0A, None, true);
        let l1 = d0.lemma_labelled_step(labels, marks, Label::Any, 0x0A, true, Label::Node(empty));
        let d1 = d0.steps(lf(), None, true);
        let l2 = d1.lemma_labelled_name(l1, marks, empty, name);
        let d2 = d1.steps(name, None, false);
        assert(empty + name =~= name);

        // nothing stands for the value of the field yet, and whitespace may
        // precede the colon
        let node = Label::Node(name);
        let value = Label::Value(name);
        d2.lemma_field_is_new(l2, marks, name);
        lemma_more_patterns(d2.auto, l2, marks, patterns);
        let m = Marks { patterns, ..marks };
        d2.lemma_labelled_blanks(l2, m, node);
        let d3 = d2.option(seq![0x09], true).option(seq![0x20], true);
        let s3 = d3.settle();
        d3.lemma_steps_one(0x3A, None, false);
        d3.lemma_settled_step(0x3A, None, false);
        s3.lemma_plain_step(0x3A, None, false);
        s3.lemma_new_edge(s3.state, 0x3A, None, false);
        let l3 = s3.lemma_labelled_step(l2, m, node, 0x3A, false, value);
        let d4 = d3.steps(seq![0x3A], None, false);
        assert(d4 == s3.step(0x3A, None, false));
        assert forall|i: u16| !(#[trigger] d4.auto.has(d4.state, i)) by {
            reveal(models);
            assert(!s3.auto.has(d4.state, i));
            assert(s3.state != d4.state);
        }

        // and follow it
        d4.lemma_labelled_blanks(l3, m, value);
        let d5 = d4.option(seq![0x09], true).option(seq![0x20], true);
        let s5 = d5.settle();
        assert(d4.auto.has(d2.state, 0x3A));
        assert(s5.auto.has(d2.state, 0x3A));
        s5.lemma_mark_start(l3, m, name, d2.state, start);
        s5.lemma_settle();
        let e = self.field_name(name, start);
        assert(e == s5.with(start));
        s5.lemma_mark(start);

        lemma_grows(self.auto, labels, d1.auto, l1, d2.auto, l2);
        lemma_grows(d2.auto, l2, s3.auto, l2, d4.auto, l3);
        lemma_grows(d2.auto, l2, d4.auto, l3, s5.auto, l3);
        lemma_grows(d2.auto, l2, s5.auto, l3, e.auto, l3);
        lemma_grows(self.auto, labels, d2.auto, l2, e.auto, l3);
        lemma_grows(s3.auto, l2, d4.auto, l3, s5.auto, l3);
        lemma_grows(s3.auto, l2, s5.auto, l3, e.auto, l3);
        assert forall|k: int| 0 <= k < name.len() implies #[trigger] goes_on(
            e.auto,
            l3,
            empty,
            name,
            k,
        ) by {
            assert(goes_on(d2.auto, l2, empty, name, k));
            let l = Label::Node(empty + name.take(k));
            lemma_goes_kept(d2.auto, l2, e.auto, l3, l, name[k] as u16);
            lemma_goes_kept(d2.auto, l2, e.auto, l3, l, other_case(name[k] as u16));
        }
        assert(d1.auto.has(ANY_STATE, 0x0A));
        assert(l1.contains_key(ANY_STATE) && l1[ANY_STATE] == Label::Any);
        lemma_grows(d1.auto, l1, d2.auto, l2, e.auto, l3);
        lemma_goes_kept(d1.auto, l1, e.auto, l3, Label::Any, 0x0A);
        assert(l2.contains_key(d2.state) && l2[d2.state] == node && s3.auto.has(d2.state, 0x09));
        lemma_goes_kept(s3.auto, l2, e.auto, l3, node, 0x09);
        assert(l2.contains_key(d2.state) && l2[d2.state] == node && s3.auto.has(d2.state, 0x20));
        lemma_goes_kept(s3.auto, l2, e.auto, l3, node, 0x20);
        assert(l3.contains_key(d2.state) && l3[d2.state] == node && s5.auto.has(d2.state, 0x3A));
        lemma_goes_kept(s5.auto, l3, e.auto, l3, node, 0x3A);
        assert(l3.contains_key(d4.state) && l3[d4.state] == value && s5.auto.has(d4.state, 0x09));
        lemma_goes_kept(s5.auto, l3, e.auto, l3, value, 0x09);
        assert(l3.contains_key(d4.state) && l3[d4.state] == value && s5.auto.has(d4.state, 0x20));
        lemma_goes_kept(s5.auto, l3, e.auto, l3, value, 0x20);
        l3
    }

    /// At least one byte of any value, at a place that is left by it.
    pub proof fn lemma_labelled_any(
        self,
        labels: Labels,
        marks: Marks<A>,
        label: Label,
        x: Label,
    ) -> (later: Labels)
        requires
            self.is_at(labels, marks, label),
            leads_to(marks.patterns, label, ANY_INPUT) == Some(x),
            leads_to(marks.patterns, x, ANY_INPUT) == Some(x),
            parent(x) == Some((label, ANY_INPUT)),
            self.auto.num_states < u16::MAX,
        ensures
            ({
                let e = self.any(1, None);
                &&& e.is_at(later, marks, x)
                &&& grows(self.auto, labels, e.auto, later)
                &&& e.auto.num_states <= self.auto.num_states + 1
                &&& !self.auto.has(self.state, ANY_INPUT) ==> forall|i: u16| #[trigger]
                    e.auto.has(e.state, i) ==> i == ANY_INPUT
                &&& e.auto.has(self.state, ANY_INPUT)
                &&& e.auto.has(e.state, ANY_INPUT)
            }),
    {
        reveal_with_fuel(Draft::any_steps, 2);
        let later = self.lemma_labelled_step(labels, marks, label, ANY_INPUT, true, x);
        let t = self.step(ANY_INPUT, None, true);
        assert(self.any_steps(1) == t);
        let l2 = t.lemma_labelled_edge(later, marks, t.state, ANY_INPUT, Some(t.state), true, x);
        let e = self.any(1, None);
        if !self.auto.has(self.state, ANY_INPUT) {
            self.lemma_plain_step(ANY_INPUT, None, true);
            self.lemma_new_edge(self.state, ANY_INPUT, None, true);
            reveal(models);
            assert forall|i: u16| #[trigger] e.auto.has(e.state, i) implies i == ANY_INPUT by {
                assert(!self.auto.has(e.state, i));
                assert(self.state != e.state);
            }
        }
        assert forall|s: StateId, i: u16| #[trigger] self.auto.has(s, i) implies e.auto.has(s, i)
            && e.auto.to(s, i) == self.auto.to(s, i) by {
            assert(t.auto.has(s, i));
        }
        assert(t.auto.has(self.state, ANY_INPUT));
        later
    }

    /// The action that marks where the value of a field may end.
    proof fn lemma_mark_end(
        self,
        labels: Labels,
        marks: Marks<A>,
        name: Seq<u8>,
        value: StateId,
        end: A,
    )
        requires
            self.is_at(labels, marks, Label::Text(name)),
            labels.contains_key(value),
            labels[value] == Label::Value(name),
            self.auto.has(value, ANY_INPUT),
            self.auto.has(self.state, ANY_INPUT),
            forall|i: u16| #[trigger] self.auto.has(self.state, i) ==> i == ANY_INPUT,
            mark_of(marks.ends, name) is None,
        ensures
            ({
                let e = self.with(end);
                &&& e.is_at(labels, marks.end_field(name, end), Label::Text(name))
                &&& e.state == self.state
                &&& grows(self.auto, labels, e.auto, labels)
                &&& e.auto.num_states == self.auto.num_states
            }),
    {
        reveal(models);
        let m2 = marks.end_field(name, end);
        assert forall|s: StateId, i: u16| #[trigger] self.auto.has(s, i) implies if leads_to(
            marks.patterns,
            labels[s],
            i,
        ) == Some(labels[self.state]) {
            &&& is_free(marks.action(labels[s], i), end)
            &&& m2.action(labels[s], i) == Some(end)
        } else {
            m2.action(labels[s], i) == marks.action(labels[s], i)
        } by {
            assert(labels.contains_key(s));
            if labels[s] == Label::Text(name) {
                assert(s == self.state);
            }
        }
        assert forall|l: Label, i: u16| (#[trigger] m2.action(l, i)) is Some implies goes(
            self.auto,
            labels,
            l,
            i,
        ) by {
            if marks.action(l, i) is None {
                assert(labels.contains_key(value) && self.auto.has(value, ANY_INPUT));
                assert(labels.contains_key(self.state) && self.auto.has(self.state, ANY_INPUT));
            }
        }
        self.lemma_labelled_with(labels, marks, m2, end);
    }

    /// The patterns of a field fit, and mark what they are to.
    pub proof fn lemma_labelled_field(
        self,
        labels: Labels,
        marks: Marks<A>,
        patterns: Patterns,
        name: Seq<u8>,
        start: A,
        end: A,
    ) -> (later: Labels)
        requires
            self.fits,
            models(self.auto, labels, marks),
            is_key(name),
            marks.gives_way_to(patterns, name),
            self.auto.num_states + name.len() + 5 <= u16::MAX,
        ensures
            ({
                let e = self.field(name, start, end);
                let m = Marks { patterns, ..marks };
                &&& e.fits
                &&& models(e.auto, later, m.start_field(name, start).end_field(name, end))
                &&& grows(self.auto, labels, e.auto, later)
                &&& has_field(e.auto, later, name)
                &&& e.auto.num_states <= self.auto.num_states + name.len() + 5
            }),
    {
        let value = Label::Value(name);
        let text = Label::Text(name);
        let m1 = (Marks { patterns, ..marks }).start_field(name, start);
        let m2 = m1.end_field(name, end);
        let l0 = self.lemma_labelled_field_name(labels, marks, patterns, name, start);
        let v = self.field_name(name, start);

        // a byte of any value, and any number of them after it
        let l1 = v.lemma_labelled_any(l0, m1, value, text);
        let a = v.any(1, None);
        a.lemma_mark_end(l1, m1, name, v.state, end);
        let w = a.with(end);

        // up to the end of the line
        let l3 = w.lemma_labelled_line_end(l1, m2, text);
        let x = w.line_end();
        let y = x.again(v.state);
        let l4 = y.lemma_labelled_line_end(l3, m2, value);
        let e = self.field(name, start, end);
        assert(e == y.line_end());
        lemma_grows(v.auto, l0, a.auto, l1, w.auto, l1);
        lemma_grows(v.auto, l0, w.auto, l1, x.auto, l3);
        lemma_grows(v.auto, l0, x.auto, l3, e.auto, l4);
        lemma_grows(self.auto, labels, v.auto, l0, e.auto, l4);
        lemma_grows(a.auto, l1, w.auto, l1, x.auto, l3);
        lemma_grows(a.auto, l1, x.auto, l3, e.auto, l4);
        lemma_goes_kept(v.auto, l0, e.auto, l4, Label::Any, 0x0A);
        lemma_goes_kept(v.auto, l0, e.auto, l4, Label::Node(name), 0x09);
        lemma_goes_kept(v.auto, l0, e.auto, l4, Label::Node(name), 0x20);
        lemma_goes_kept(v.auto, l0, e.auto, l4, Label::Node(name), 0x3A);
        lemma_goes_kept(v.auto, l0, e.auto, l4, value, 0x09);
        lemma_goes_kept(v.auto, l0, e.auto, l4, value, 0x20);
        assert forall|k: int| 0 <= k < name.len() implies #[trigger] goes_on(
            e.auto,
            l4,
            Seq::empty(),
            name,
            k,
        ) by {
            assert(goes_on(v.auto, l0, Seq::empty(), name, k));
            let l = Label::Node(Seq::<u8>::empty() + name.take(k));
            lemma_goes_kept(v.auto, l0, e.auto, l4, l, name[k] as u16);
            lemma_goes_kept(v.auto, l0, e.auto, l4, l, other_case(name[k] as u16));
        }
        assert(l1.contains_key(v.state) && l1[v.state] == value && a.auto.has(v.state, ANY_INPUT));
        lemma_goes_kept(a.auto, l1, e.auto, l4, value, ANY_INPUT);
        assert(l1.contains_key(a.state) && l1[a.state] == text && a.auto.has(a.state, ANY_INPUT));
        lemma_goes_kept(a.auto, l1, e.auto, l4, text, ANY_INPUT);
        lemma_goes_kept(x.auto, l3, e.auto, l4, text, 0x0D);
        lemma_goes_kept(x.auto, l3, e.auto, l4, text, 0x0A);
        l4
    }
}

} // verus!

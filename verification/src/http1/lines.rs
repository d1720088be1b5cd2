//! The patterns of request and status lines keep the states of the automaton
//! standing for the places in a message they are to stand for.

use super::heads::{
    goes_head, head, is_head, lemma_goes_head_kept, lemma_head_bytes, lemma_is_head,
    lemma_method_letters, lemma_methods, lemma_status_mark,
};
use super::label::{
    goes, is_free, is_method, leads_to, lemma_first_states, lemma_goes_kept, method, models,
    status_bytes, version_bytes, Label, Labels, Marks, Patterns,
};
use super::labelled::{grows, lemma_grows};
use super::pattern::methods;
use crate::dfa::model::{other_case, upper, Auto, Draft, ANY_INPUT, INIT_STATE};
use crate::StateId;
use vstd::prelude::*;
use vstd::string::*;

verus! {

/// Whether all of the pattern of a status line is there.
pub open spec fn has_status<A>(auto: Auto<A>, labels: Labels) -> bool {
    &&& forall|k: int| 0 <= k < 9 ==> #[trigger] goes_head(auto, labels, status_bytes(), k, false)
    &&& goes(auto, labels, Label::Head(status_bytes()), ANY_INPUT)
    &&& goes(auto, labels, Label::Code(1), ANY_INPUT)
    &&& goes(auto, labels, Label::Code(2), ANY_INPUT)
    &&& goes(auto, labels, Label::Code(3), ANY_INPUT)
    &&& goes(auto, labels, Label::Reason, ANY_INPUT)
    &&& goes(auto, labels, Label::Reason, 0x0D)
    &&& goes(auto, labels, Label::Reason, 0x0A)
    &&& goes(auto, labels, Label::Any, 0x0A)
}

impl<A> Draft<A> {
    /// What a status line begins with.
    proof fn lemma_labelled_status_start(
        self,
        labels: Labels,
        marks: Marks<A>,
        start: A,
    ) -> (later: Labels)
        requires
            self.fits,
            models(self.auto, labels, marks),
            marks.patterns.status,
            is_free(marks.status_start, start),
            self.auto.num_states + 9 <= u16::MAX,
        ensures
            ({
                let e = self.again(INIT_STATE).steps("HTTP/1.1 ".spec_bytes(), None, false).with(
                    start,
                );
                let m = Marks { status_start: Some(start), ..marks };
                &&& e.is_at(later, m, Label::Head(status_bytes()))
                &&& grows(self.auto, labels, e.auto, later)
                &&& e.auto.num_states <= self.auto.num_states + 9
                &&& forall|k: int|
                    0 <= k < 9 ==> #[trigger] goes_head(e.auto, later, status_bytes(), k, false)
            }),
    {
        lemma_first_states(self.auto, labels, marks);
        let s = status_bytes();
        let d0 = self.again(INIT_STATE);
        lemma_head_bytes();
        lemma_is_head(marks.patterns);
        assert(s.take(0) =~= Seq::empty());
        assert(s.subrange(0, 9) =~= s);
        assert(s.take(9) =~= s);
        assert(s.take(8) =~= s.drop_last());
        assert(s[8] == 0x20);
        let l1 = d0.lemma_labelled_head(labels, marks, s, 0, 9, false);
        let d1 = d0.steps(s, None, false);
        let m = Marks { status_start: Some(start), ..marks };
        lemma_status_mark(marks, start);
        assert(goes_head(d1.auto, l1, s, 8, false));
        assert(is_head(marks.patterns, s, 8));
        assert(m.action(head(s.drop_last()), 0x20) == m.status_start);
        d1.lemma_mark_head(l1, marks, s, false, m, start);
        let e = d1.with(start);
        lemma_grows(self.auto, labels, d1.auto, l1, e.auto, l1);
        assert forall|k: int| 0 <= k < 9 implies #[trigger] goes_head(e.auto, l1, s, k, false) by {
            lemma_goes_head_kept(d1.auto, l1, e.auto, l1, s, k, false);
        }
        l1
    }

    /// The status code of a status line.
    proof fn lemma_labelled_code(
        self,
        labels: Labels,
        marks: Marks<A>,
        end: A,
    ) -> (later: Labels)
        requires
            self.is_at(labels, marks, Label::Head(status_bytes())),
            marks.patterns.status,
            is_free(marks.status_end, end),
            self.auto.num_states + 3 <= u16::MAX,
        ensures
            ({
                let e = self.any(3, Some(3)).with(end);
                let m = Marks { status_end: Some(end), ..marks };
                &&& e.is_at(later, m, Label::Code(3))
                &&& grows(self.auto, labels, e.auto, later)
                &&& e.auto.num_states <= self.auto.num_states + 3
                &&& goes(e.auto, later, Label::Head(status_bytes()), ANY_INPUT)
                &&& goes(e.auto, later, Label::Code(1), ANY_INPUT)
                &&& goes(e.auto, later, Label::Code(2), ANY_INPUT)
            }),
    {
        reveal_with_fuel(Draft::any_steps, 4);
        reveal_with_fuel(Draft::any_or_nones, 1);
        let h = Label::Head(status_bytes());
        let l1 = self.lemma_labelled_step(labels, marks, h, ANY_INPUT, true, Label::Code(1));
        let d1 = self.step(ANY_INPUT, None, true);
        let l2 = d1.lemma_labelled_step(
            l1,
            marks,
            Label::Code(1),
            ANY_INPUT,
            true,
            Label::Code(2),
        );
        let d2 = d1.step(ANY_INPUT, None, true);
        let l3 = d2.lemma_labelled_step(
            l2,
            marks,
            Label::Code(2),
            ANY_INPUT,
            true,
            Label::Code(3),
        );
        let d3 = d2.step(ANY_INPUT, None, true);
        assert(self.any(3, Some(3)) == d3);
        let m = Marks { status_end: Some(end), ..marks };
        assert(l3.contains_key(d2.state) && l3[d2.state] == Label::Code(2) && d3.auto.has(
            d2.state,
            ANY_INPUT,
        ));
        d3.lemma_labelled_mark(l3, marks, Label::Code(3), m, end);
        let e = d3.with(end);
        lemma_grows(d2.auto, l2, d3.auto, l3, e.auto, l3);
        lemma_grows(d1.auto, l1, d2.auto, l2, e.auto, l3);
        lemma_grows(self.auto, labels, d1.auto, l1, e.auto, l3);
        assert(l1.contains_key(self.state) && l1[self.state] == h && d1.auto.has(
            self.state,
            ANY_INPUT,
        ));
        lemma_goes_kept(d1.auto, l1, e.auto, l3, h, ANY_INPUT);
        assert(l2.contains_key(d1.state) && l2[d1.state] == Label::Code(1) && d2.auto.has(
            d1.state,
            ANY_INPUT,
        ));
        lemma_goes_kept(d2.auto, l2, e.auto, l3, Label::Code(1), ANY_INPUT);
        assert(l3.contains_key(d2.state) && l3[d2.state] == Label::Code(2) && d3.auto.has(
            d2.state,
            ANY_INPUT,
        ));
        lemma_goes_kept(d3.auto, l3, e.auto, l3, Label::Code(2), ANY_INPUT);
        l3
    }

    /// The pattern of a status line fits, and marks what it is to.
    pub proof fn lemma_labelled_status(
        self,
        labels: Labels,
        marks: Marks<A>,
        start: A,
        end: A,
    ) -> (later: Labels)
        requires
            self.fits,
            models(self.auto, labels, marks),
            marks.patterns.status,
            is_free(marks.status_start, start),
            is_free(marks.status_end, end),
            self.auto.num_states + 14 <= u16::MAX,
        ensures
            ({
                let e = self.status_code(start, end);
                let m = Marks { status_start: Some(start), status_end: Some(end), ..marks };
                &&& e.fits
                &&& models(e.auto, later, m)
                &&& grows(self.auto, labels, e.auto, later)
                &&& has_status(e.auto, later)
                &&& e.auto.num_states <= self.auto.num_states + 14
            }),
    {
        let l1 = self.lemma_labelled_status_start(labels, marks, start);
        let d1 = self.again(INIT_STATE).steps("HTTP/1.1 ".spec_bytes(), None, false).with(start);
        let m1 = Marks { status_start: Some(start), ..marks };
        let l2 = d1.lemma_labelled_code(l1, m1, end);
        let d2 = d1.any(3, Some(3)).with(end);
        let m2 = Marks { status_end: Some(end), ..m1 };
        let l3 = d2.lemma_labelled_any(l2, m2, Label::Code(3), Label::Reason);
        let d3 = d2.any(1, None);
        let l4 = d3.lemma_labelled_line_end(l3, m2, Label::Reason);
        let e = self.status_code(start, end);
        assert(e == d3.line_end());
        lemma_grows(d2.auto, l2, d3.auto, l3, e.auto, l4);
        lemma_grows(d1.auto, l1, d2.auto, l2, e.auto, l4);
        lemma_grows(self.auto, labels, d1.auto, l1, e.auto, l4);
        assert forall|k: int| 0 <= k < 9 implies #[trigger] goes_head(
            e.auto,
            l4,
            status_bytes(),
            k,
            false,
        ) by {
            lemma_goes_head_kept(d1.auto, l1, e.auto, l4, status_bytes(), k, false);
        }
        lemma_goes_kept(d2.auto, l2, e.auto, l4, Label::Head(status_bytes()), ANY_INPUT);
        lemma_goes_kept(d2.auto, l2, e.auto, l4, Label::Code(1), ANY_INPUT);
        lemma_goes_kept(d2.auto, l2, e.auto, l4, Label::Code(2), ANY_INPUT);
        assert(l3.contains_key(d2.state) && l3[d2.state] == Label::Code(3) && d3.auto.has(
            d2.state,
            ANY_INPUT,
        ));
        lemma_goes_kept(d3.auto, l3, e.auto, l4, Label::Code(3), ANY_INPUT);
        assert(l3.contains_key(d3.state) && l3[d3.state] == Label::Reason && d3.auto.has(
            d3.state,
            ANY_INPUT,
        ));
        lemma_goes_kept(d3.auto, l3, e.auto, l4, Label::Reason, ANY_INPUT);
        l4
    }
}

/// Whether all of the `k`th method is read.
pub open spec fn has_method<A>(auto: Auto<A>, labels: Labels, k: int) -> bool {
    forall|j: int|
        0 <= j < method(k).len() ==> #[trigger] goes_head(auto, labels, method(k), j, false)
}

/// A method that is read stays read.
pub proof fn lemma_has_method_kept<A>(
    auto: Auto<A>,
    labels: Labels,
    later: Auto<A>,
    later_labels: Labels,
    k: int,
)
    requires
        has_method(auto, labels, k),
        grows(auto, labels, later, later_labels),
    ensures
        has_method(later, later_labels, k),
{
    assert forall|j: int| 0 <= j < method(k).len() implies #[trigger] goes_head(
        later,
        later_labels,
        method(k),
        j,
        false,
    ) by {
        lemma_goes_head_kept(auto, labels, later, later_labels, method(k), j, false);
    }
}

/// Whether the first `n` methods and the longest are read.
pub open spec fn has_methods<A>(auto: Auto<A>, labels: Labels, n: int) -> bool {
    forall|k: int| 0 <= k < 8 && (k < n || k == 6) ==> #[trigger] has_method(auto, labels, k)
}

/// Reading the last letter of a method leads behind it.
pub(crate) proof fn lemma_method_ends(patterns: Patterns, k: int)
    requires
        0 <= k < 8,
        patterns.request,
    ensures
        ({
            let b = method(k).last() as u16;
            let label = head(method(k).drop_last());
            &&& leads_to(patterns, label, b) == Some(Label::Method)
            &&& leads_to(patterns, label, other_case(b)) == Some(Label::Method)
            &&& b < 256
            &&& upper(b) == b
        }),
{
    let m = method(k);
    lemma_method_letters(k);
    assert(0x41 <= m[m.len() - 1] <= 0x5A);
    assert(m.drop_last().push(m.last()) =~= m);
    assert(is_method(m));
}

/// A transition that leads behind a method reads the last letter of one.
proof fn lemma_leads_behind_method(patterns: Patterns, label: Label, i: u16) -> (k: int)
    requires
        label is Root || label is Head,
        leads_to(patterns, label, i) == Some(Label::Method),
    ensures
        0 <= k < 8,
        label == head(method(k).drop_last()),
        upper(i) == method(k).last(),
        i < 256,
{
    let p = match label {
        Label::Head(p) => p,
        _ => Seq::empty(),
    };
    let q = p.push(upper(i) as u8);
    let k = choose|k: int| 0 <= k < 8 && #[trigger] method(k) == q;
    lemma_method_letters(k);
    assert(q.drop_last() =~= p);
    assert(p.len() >= 2);
    k
}

impl<A> Draft<A> {
    /// One of the methods, read at the beginning of a message.
    proof fn lemma_labelled_method(
        self,
        labels: Labels,
        marks: Marks<A>,
        k: int,
        to: Option<StateId>,
    ) -> (later: Labels)
        requires
            0 <= k < 8,
            self.is_at(labels, marks, Label::Root),
            marks.patterns.request,
            match to {
                Some(t) => labels.contains_key(t) && labels[t] == Label::Method,
                None => k == 6,
            },
            self.auto.num_states + 7 <= u16::MAX,
        ensures
            ({
                let e = self.steps(method(k), to, false);
                &&& e.is_at(later, marks, Label::Method)
                &&& to is Some ==> e.state == to->0
                &&& grows(self.auto, labels, e.auto, later)
                &&& e.auto.num_states <= self.auto.num_states + 7
                &&& to is Some && k != 6 ==> e.auto.num_states <= self.auto.num_states + 5
                &&& has_method(e.auto, later, k)
            }),
    {
        let m = method(k);
        let n = m.len() - 1;
        lemma_method_letters(k);
        lemma_is_head(marks.patterns);
        assert(m.take(0) =~= Seq::empty());
        assert(m.subrange(0, n) =~= m.drop_last());
        assert(m.take(n) =~= m.drop_last());
        assert forall|j: int| 0 <= j < n implies #[trigger] is_head(marks.patterns, m, j) by {
            assert(is_head(marks.patterns, method(k), j));
        }
        let l1 = self.lemma_labelled_head(labels, marks, m, 0, n, false);
        let d = self.steps(m.drop_last(), None, false);
        self.lemma_steps_split(m, to, false);
        let b = m.last() as u16;
        lemma_method_ends(marks.patterns, k);
        d.lemma_plain_step(b, to, false);
        let l2 = d.lemma_labelled_edge(l1, marks, d.state, b, to, false, Label::Method);
        let e = d.step(b, to, false);
        assert(grows(d.auto, l1, e.auto, l2));
        lemma_grows(self.auto, labels, d.auto, l1, e.auto, l2);
        assert(l2.contains_key(d.state) && l2[d.state] == head(m.take(n)) && e.auto.has(d.state, b)
            && e.auto.has(d.state, other_case(b)));
        assert forall|j: int| 0 <= j < m.len() implies #[trigger] goes_head(
            e.auto,
            l2,
            m,
            j,
            false,
        ) by {
            if j < n {
                lemma_goes_head_kept(d.auto, l1, e.auto, l2, m, j, false);
            }
        }
        l2
    }

    /// The first `n` of the methods, behind the longest.
    proof fn lemma_labelled_branches(
        self,
        start: Draft<A>,
        labels: Labels,
        marks: Marks<A>,
        n: nat,
    ) -> (later: Labels)
        requires
            n <= 8,
            start.state == INIT_STATE,
            start.plain(),
            self.is_at(labels, marks, Label::Method),
            marks.patterns.request,
            has_methods(self.auto, labels, 0),
            self.auto.num_states + 5 * n + 7 <= u16::MAX,
        ensures
            ({
                let e = self.branches(start, method(6), methods(), n, false);
                &&& e.is_at(later, marks, Label::Method)
                &&& e.state == self.state
                &&& grows(self.auto, labels, e.auto, later)
                &&& has_methods(e.auto, later, n as int)
                &&& e.auto.num_states <= self.auto.num_states + 5 * n
            }),
        decreases n,
    {
        lemma_first_states(self.auto, labels, marks);
        if n == 0 {
            labels
        } else {
            let k = n - 1;
            lemma_methods();
            lemma_method_letters(k);
            lemma_method_letters(6);
            let l1 = self.lemma_labelled_branches(start, labels, marks, (n - 1) as nat);
            let d = self.branches(start, method(6), methods(), (n - 1) as nat, false);
            let input = methods()[k];
            assert(input == method(k));
            if k == 6 {
                l1
            } else {
                assert(method(k)[0] != method(6)[0] || method(k)[1] != method(6)[1]);
                assert(input != method(6));
                let back = Draft {
                    state: start.state,
                    skipped: start.skipped,
                    fits: d.fits && input.len() > 0,
                    ..d
                };
                let l2 = back.lemma_labelled_method(l1, marks, k, Some(d.state));
                let e = back.steps(input, Some(d.state), false);
                let r = self.branches(start, method(6), methods(), n, false);
                assert(r == e);
                lemma_grows(self.auto, labels, d.auto, l1, e.auto, l2);
                assert forall|j: int| 0 <= j < 8 && (j < n || j == 6) implies #[trigger] has_method(
                    e.auto,
                    l2,
                    j,
                ) by {
                    if j != k {
                        assert(has_method(d.auto, l1, j));
                        lemma_has_method_kept(d.auto, l1, e.auto, l2, j);
                    }
                }
                l2
            }
        }
    }

    /// Whichever of the methods a request line begins with.
    proof fn lemma_labelled_methods(self, labels: Labels, marks: Marks<A>) -> (later: Labels)
        requires
            self.fits,
            models(self.auto, labels, marks),
            marks.patterns.request,
            self.auto.num_states + 54 <= u16::MAX,
        ensures
            ({
                let e = self.again(INIT_STATE).choice(methods(), false);
                &&& e.is_at(later, marks, Label::Method)
                &&& grows(self.auto, labels, e.auto, later)
                &&& has_methods(e.auto, later, 8)
                &&& e.auto.num_states <= self.auto.num_states + 47
            }),
    {
        lemma_first_states(self.auto, labels, marks);
        let d0 = self.again(INIT_STATE);
        lemma_methods();
        let l1 = d0.lemma_labelled_method(labels, marks, 6, None);
        let d1 = d0.steps(method(6), None, false);
        assert(has_methods(d1.auto, l1, 0));
        let l2 = d1.lemma_labelled_branches(d0, l1, marks, 8);
        let e = d0.choice(methods(), false);
        lemma_grows(self.auto, labels, d1.auto, l1, e.auto, l2);
        l2
    }

    /// The action that marks where a method ends.
    proof fn lemma_mark_method(self, labels: Labels, marks: Marks<A>, end: A)
        requires
            self.is_at(labels, marks, Label::Method),
            marks.patterns.request,
            has_methods(self.auto, labels, 8),
            is_free(marks.method, end),
        ensures
            ({
                let e = self.with(end);
                &&& e.is_at(labels, Marks { method: Some(end), ..marks }, Label::Method)
                &&& e.state == self.state
                &&& grows(self.auto, labels, e.auto, labels)
                &&& e.auto.num_states == self.auto.num_states
            }),
    {
        let m = Marks { method: Some(end), ..marks };
        assert forall|l: Label, i: u16| (#[trigger] leads_to(marks.patterns, l, i)) == Some(
            Label::Method,
        ) implies is_free(marks.action(l, i), end) && goes(self.auto, labels, l, i) by {
            let k = lemma_leads_behind_method(marks.patterns, l, i);
            let s = method(k);
            assert(has_method(self.auto, labels, k));
            assert(goes_head(self.auto, labels, s, s.len() - 1, false));
            assert(s.take(s.len() - 1) =~= s.drop_last());
            lemma_method_ends(marks.patterns, k);
        }
        self.lemma_labelled_mark(labels, marks, Label::Method, m, end);
    }
}

/// The place behind the path of a request line where `j` bytes of what follows
/// have been read.
pub open spec fn version(j: int) -> Label {
    if j == 0 {
        Label::Path
    } else {
        Label::Version(j)
    }
}

/// Whether the `k`th byte behind the path of a request line is read, in either
/// case.
pub open spec fn goes_version<A>(auto: Auto<A>, labels: Labels, k: int) -> bool {
    &&& goes(auto, labels, version(k), version_bytes()[k] as u16)
    &&& goes(auto, labels, version(k), other_case(version_bytes()[k] as u16))
}

/// Whether all of the pattern of a request line behind its method is there.
pub open spec fn has_target<A>(auto: Auto<A>, labels: Labels) -> bool {
    &&& goes(auto, labels, Label::Method, 0x20)
    &&& goes(auto, labels, Label::Target, ANY_INPUT)
    &&& goes(auto, labels, Label::Path, ANY_INPUT)
    &&& forall|k: int| 0 <= k < 9 ==> #[trigger] goes_version(auto, labels, k)
    &&& goes(auto, labels, Label::Version(9), 0x0D)
    &&& goes(auto, labels, Label::Version(9), 0x0A)
    &&& goes(auto, labels, Label::Any, 0x0A)
}

/// Whether all of the pattern of a request line is there.
pub open spec fn has_request<A>(auto: Auto<A>, labels: Labels) -> bool {
    &&& forall|k: int| 0 <= k < 8 ==> #[trigger] has_method(auto, labels, k)
    &&& has_target(auto, labels)
}

impl<A> Draft<A> {
    /// The first `m` bytes behind the path of a request line.
    proof fn lemma_labelled_version(self, labels: Labels, marks: Marks<A>, m: int) -> (later:
        Labels)
        requires
            0 <= m <= 9,
            self.is_at(labels, marks, Label::Path),
            self.auto.num_states + m <= u16::MAX,
        ensures
            ({
                let e = self.steps(version_bytes().take(m), None, false);
                &&& e.is_at(later, marks, version(m))
                &&& grows(self.auto, labels, e.auto, later)
                &&& e.auto.num_states <= self.auto.num_states + m
                &&& forall|k: int| 0 <= k < m ==> #[trigger] goes_version(e.auto, later, k)
            }),
        decreases m,
    {
        let v = version_bytes();
        if m == 0 {
            assert(v.take(0) =~= Seq::empty());
            labels
        } else {
            self.lemma_steps_split(v.take(m), None, false);
            assert(v.take(m).drop_last() =~= v.take(m - 1));
            let l1 = self.lemma_labelled_version(labels, marks, m - 1);
            let d = self.steps(v.take(m - 1), None, false);
            let b = v[m - 1] as u16;
            assert(upper(b) == b);
            assert(upper(other_case(b)) == b);
            assert(m == 1 ==> b == 0x20);
            let l2 = d.lemma_labelled_step(l1, marks, version(m - 1), b, false, version(m));
            let e = d.step(b, None, false);
            lemma_grows(self.auto, labels, d.auto, l1, e.auto, l2);
            assert(l2.contains_key(d.state) && l2[d.state] == version(m - 1) && e.auto.has(
                d.state,
                b,
            ) && e.auto.has(d.state, other_case(b)));
            assert forall|k: int| 0 <= k < m implies #[trigger] goes_version(e.auto, l2, k) by {
                if k < m - 1 {
                    assert(goes_version(d.auto, l1, k));
                    lemma_goes_kept(d.auto, l1, e.auto, l2, version(k), v[k] as u16);
                    lemma_goes_kept(d.auto, l1, e.auto, l2, version(k), other_case(v[k] as u16));
                }
            }
            l2
        }
    }

    /// The rest of a request line behind its path.
    proof fn lemma_labelled_request_end(self, labels: Labels, marks: Marks<A>) -> (later: Labels)
        requires
            self.is_at(labels, marks, Label::Path),
            goes(self.auto, labels, Label::Method, 0x20),
            goes(self.auto, labels, Label::Target, ANY_INPUT),
            goes(self.auto, labels, Label::Path, ANY_INPUT),
            self.auto.num_states + 10 <= u16::MAX,
        ensures
            ({
                let e = self.request_line_end();
                &&& e.fits
                &&& models(e.auto, later, marks)
                &&& grows(self.auto, labels, e.auto, later)
                &&& e.auto.num_states <= self.auto.num_states + 10
                &&& has_target(e.auto, later)
            }),
    {
        let v = version_bytes();
        lemma_head_bytes();
        assert(v.take(9) =~= v);
        let l1 = self.lemma_labelled_version(labels, marks, 9);
        let d = self.steps(v, None, false);
        let l2 = d.lemma_labelled_line_end(l1, marks, Label::Version(9));
        let e = self.request_line_end();
        lemma_grows(self.auto, labels, d.auto, l1, e.auto, l2);
        lemma_goes_kept(self.auto, labels, e.auto, l2, Label::Method, 0x20);
        lemma_goes_kept(self.auto, labels, e.auto, l2, Label::Target, ANY_INPUT);
        lemma_goes_kept(self.auto, labels, e.auto, l2, Label::Path, ANY_INPUT);
        assert forall|k: int| 0 <= k < 9 implies #[trigger] goes_version(e.auto, l2, k) by {
            assert(goes_version(d.auto, l1, k));
            lemma_goes_kept(d.auto, l1, e.auto, l2, version(k), v[k] as u16);
            lemma_goes_kept(d.auto, l1, e.auto, l2, version(k), other_case(v[k] as u16));
        }
        l2
    }

    /// The pattern of a request line whose method is marked fits, and marks
    /// what it is to.
    pub proof fn lemma_labelled_request_method(
        self,
        labels: Labels,
        marks: Marks<A>,
        start: A,
        end: A,
    ) -> (later: Labels)
        requires
            self.fits,
            models(self.auto, labels, marks),
            marks.patterns.request,
            is_free(marks.method, end),
            self.auto.num_states + 59 <= u16::MAX,
        ensures
            ({
                let e = self.request_method(start, end);
                &&& e.fits
                &&& models(e.auto, later, Marks { method: Some(end), ..marks })
                &&& grows(self.auto, labels, e.auto, later)
                &&& has_request(e.auto, later)
                &&& e.auto.num_states <= self.auto.num_states + 59
            }),
    {
        let d0 = self.again(INIT_STATE);
        lemma_first_states(self.auto, labels, marks);
        d0.lemma_labelled_root(labels, marks, start);
        let l1 = self.lemma_labelled_methods(labels, marks);
        let d1 = d0.choice(methods(), false);
        d1.lemma_mark_method(l1, marks, end);
        let d2 = d1.with(end);
        let m = Marks { method: Some(end), ..marks };
        let l3 = d2.lemma_labelled_step(l1, m, Label::Method, 0x20, true, Label::Target);
        let d3 = d2.step(0x20, None, true);
        d2.lemma_steps_one(0x20, None, true);
        let l4 = d3.lemma_labelled_any(l3, m, Label::Target, Label::Path);
        let d4 = d3.any(1, None);
        lemma_grows(d2.auto, l1, d3.auto, l3, d4.auto, l4);
        assert(l3.contains_key(d2.state) && l3[d2.state] == Label::Method && d3.auto.has(
            d2.state,
            0x20,
        ));
        lemma_goes_kept(d3.auto, l3, d4.auto, l4, Label::Method, 0x20);
        assert(l4.contains_key(d3.state) && l4[d3.state] == Label::Target);
        assert(l4.contains_key(d4.state) && l4[d4.state] == Label::Path);
        let l5 = d4.lemma_labelled_request_end(l4, m);
        let e = self.request_method(start, end);
        assert(e == d4.request_line_end());
        lemma_grows(d2.auto, l1, d4.auto, l4, e.auto, l5);
        lemma_grows(d1.auto, l1, d2.auto, l1, e.auto, l5);
        lemma_grows(self.auto, labels, d1.auto, l1, e.auto, l5);
        assert forall|k: int| 0 <= k < 8 implies #[trigger] has_method(e.auto, l5, k) by {
            assert(has_method(d1.auto, l1, k));
            lemma_has_method_kept(d1.auto, l1, e.auto, l5, k);
        }
        l5
    }

    /// The action that marks where a path begins.
    proof fn lemma_mark_path_start(
        self,
        labels: Labels,
        marks: Marks<A>,
        from: StateId,
        start: A,
    )
        requires
            self.is_at(labels, marks, Label::Target),
            labels.contains_key(from),
            labels[from] == Label::Method,
            self.auto.has(from, 0x20),
            is_free(marks.path_start, start),
        ensures
            ({
                let e = self.with(start);
                &&& e.is_at(labels, Marks { path_start: Some(start), ..marks }, Label::Target)
                &&& e.state == self.state
                &&& grows(self.auto, labels, e.auto, labels)
                &&& e.auto.num_states == self.auto.num_states
            }),
    {
        let m = Marks { path_start: Some(start), ..marks };
        assert(goes(self.auto, labels, Label::Method, 0x20));
        self.lemma_labelled_mark(labels, marks, Label::Target, m, start);
    }

    /// The action that marks where a path may end.
    proof fn lemma_mark_path_end(
        self,
        labels: Labels,
        marks: Marks<A>,
        from: StateId,
        end: A,
    )
        requires
            self.is_at(labels, marks, Label::Path),
            labels.contains_key(from),
            labels[from] == Label::Target,
            self.auto.has(from, ANY_INPUT),
            self.auto.has(self.state, ANY_INPUT),
            is_free(marks.path_end, end),
        ensures
            ({
                let e = self.with(end);
                &&& e.is_at(labels, Marks { path_end: Some(end), ..marks }, Label::Path)
                &&& e.state == self.state
                &&& grows(self.auto, labels, e.auto, labels)
                &&& e.auto.num_states == self.auto.num_states
            }),
    {
        let m = Marks { path_end: Some(end), ..marks };
        assert(goes(self.auto, labels, Label::Target, ANY_INPUT));
        assert(goes(self.auto, labels, Label::Path, ANY_INPUT));
        self.lemma_labelled_mark(labels, marks, Label::Path, m, end);
    }

    /// The pattern of a request line whose path is marked fits, and marks what
    /// it is to.
    pub proof fn lemma_labelled_request_path(
        self,
        labels: Labels,
        marks: Marks<A>,
        start: A,
        end: A,
    ) -> (later: Labels)
        requires
            self.fits,
            models(self.auto, labels, marks),
            marks.patterns.request,
            is_free(marks.path_start, start),
            is_free(marks.path_end, end),
            self.auto.num_states + 59 <= u16::MAX,
        ensures
            ({
                let e = self.request_path(start, end);
                let m = Marks { path_start: Some(start), path_end: Some(end), ..marks };
                &&& e.fits
                &&& models(e.auto, later, m)
                &&& grows(self.auto, labels, e.auto, later)
                &&& has_request(e.auto, later)
                &&& e.auto.num_states <= self.auto.num_states + 59
            }),
    {
        let d0 = self.again(INIT_STATE);
        let l1 = self.lemma_labelled_methods(labels, marks);
        let d1 = d0.choice(methods(), false);
        let l2 = d1.lemma_labelled_step(l1, marks, Label::Method, 0x20, true, Label::Target);
        let d2 = d1.step(0x20, None, true);
        d1.lemma_steps_one(0x20, None, true);
        d2.lemma_mark_path_start(l2, marks, d1.state, start);
        let m1 = Marks { path_start: Some(start), ..marks };
        let d3 = d2.with(start);
        let l4 = d3.lemma_labelled_any(l2, m1, Label::Target, Label::Path);
        let d4 = d3.any(1, None);
        d4.lemma_mark_path_end(l4, m1, d3.state, end);
        let m2 = Marks { path_end: Some(end), ..m1 };
        let d5 = d4.with(end);
        lemma_grows(d3.auto, l2, d4.auto, l4, d5.auto, l4);
        lemma_grows(d2.auto, l2, d3.auto, l2, d5.auto, l4);
        lemma_grows(d1.auto, l1, d2.auto, l2, d5.auto, l4);
        assert(l2.contains_key(d1.state) && l2[d1.state] == Label::Method && d2.auto.has(
            d1.state,
            0x20,
        ));
        lemma_goes_kept(d2.auto, l2, d5.auto, l4, Label::Method, 0x20);
        assert(l4.contains_key(d3.state) && l4[d3.state] == Label::Target && d4.auto.has(
            d3.state,
            ANY_INPUT,
        ));
        lemma_goes_kept(d4.auto, l4, d5.auto, l4, Label::Target, ANY_INPUT);
        assert(l4.contains_key(d4.state) && l4[d4.state] == Label::Path && d4.auto.has(
            d4.state,
            ANY_INPUT,
        ));
        lemma_goes_kept(d4.auto, l4, d5.auto, l4, Label::Path, ANY_INPUT);
        let l6 = d5.lemma_labelled_request_end(l4, m2);
        let e = self.request_path(start, end);
        assert(e == d5.request_line_end());
        lemma_grows(d1.auto, l1, d5.auto, l4, e.auto, l6);
        lemma_grows(self.auto, labels, d1.auto, l1, e.auto, l6);
        assert forall|k: int| 0 <= k < 8 implies #[trigger] has_method(e.auto, l6, k) by {
            assert(has_method(d1.auto, l1, k));
            lemma_has_method_kept(d1.auto, l1, e.auto, l6, k);
        }
        l6
    }
}

} // verus!

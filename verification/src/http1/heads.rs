//! The patterns of the first line and of the end of the header block keep the
//! states of the automaton standing for the places in a message they are to
//! stand for.

use super::label::{
    begins, begins_method, goes, is_free, is_method, leads_to, lemma_first_states, lemma_goes_kept,
    method, models, preface_bytes, status_bytes, version_bytes, Label, Labels, Marks, Patterns,
};
use super::labelled::{grows, lemma_grows};
use super::pattern::{cr, lf, methods, preface};
use crate::dfa::model::{longest_of, lower, other_case, upper, Auto, Draft, ANY_STATE, INIT_STATE};
use crate::text::lemma_ascii;
use crate::StateId;
use vstd::prelude::*;
use vstd::string::*;

verus! {

/// A method is told from the others by its first two letters.
pub proof fn lemma_method_letters(k: int)
    requires
        0 <= k < 8,
    ensures
        3 <= method(k).len() <= 7,
        k != 6 ==> method(k).len() <= 6,
        method(k)[0] == (if k == 0 || k == 2 || k == 3 {
            0x50u8
        } else if k == 1 {
            0x47
        } else if k == 4 {
            0x44
        } else if k == 5 {
            0x48
        } else if k == 6 {
            0x4F
        } else {
            0x54
        }),
        method(k)[1] == (if k == 0 {
            0x4Fu8
        } else if k == 1 || k == 4 || k == 5 {
            0x45
        } else if k == 2 {
            0x55
        } else if k == 3 {
            0x41
        } else if k == 6 {
            0x50
        } else {
            0x52
        }),
        forall|j: int|
            0 <= j < method(k).len() ==> 0x41 <= #[trigger] method(k)[j] <= 0x5A,
{
}

/// No method is what another one begins with, nor what a status line or a
/// preface begins with.
pub proof fn lemma_method_apart(q: Seq<u8>)
    ensures
        begins(status_bytes(), q) ==> !is_method(q),
        begins(preface_bytes(), q) ==> !is_method(q),
        begins_method(q) ==> !is_method(q),
{
    if is_method(q) {
        let k = choose|k: int| 0 <= k < 8 && #[trigger] method(k) == q;
        lemma_method_letters(k);
        if begins(status_bytes(), q) {
            assert(status_bytes().take(q.len() as int)[1] == status_bytes()[1]);
            assert(status_bytes().take(q.len() as int)[0] == status_bytes()[0]);
        }
        if begins(preface_bytes(), q) {
            assert(preface_bytes().take(q.len() as int)[1] == preface_bytes()[1]);
            assert(preface_bytes().take(q.len() as int)[0] == preface_bytes()[0]);
        }
        if begins_method(q) {
            let j = choose|j: int|
                0 <= j < 8 && q.len() < method(j).len() && #[trigger] begins(method(j), q);
            lemma_method_letters(j);
            assert(method(j).take(q.len() as int)[0] == method(j)[0]);
            assert(method(j).take(q.len() as int)[1] == method(j)[1]);
            assert(j == k);
        }
    }
}

impl Patterns {
    /// Whether `later` has the patterns of `self`, and perhaps others.
    pub open spec fn within(self, later: Patterns) -> bool {
        &&& self.request ==> later.request
        &&& self.status ==> later.status
        &&& self.preface ==> later.preface
        &&& self.names.subset_of(later.names)
    }

    /// What is read of one pattern leads to the same place if there are others.
    pub proof fn lemma_step_within(self, later: Patterns, p: Seq<u8>, i: u16)
        requires
            self.within(later),
            self.step(p, i) is Some,
        ensures
            later.step(p, i) == self.step(p, i),
    {
        lemma_method_apart(p.push(upper(i) as u8));
    }
}

/// An automaton that stands for what it is to goes on doing so if there may be
/// more patterns, none of which is there yet.
pub proof fn lemma_more_patterns<A>(auto: Auto<A>, labels: Labels, marks: Marks<A>, patterns: Patterns)
    requires
        models(auto, labels, marks),
        marks.patterns.within(patterns),
        marks.method is Some ==> marks.patterns.request,
        marks.status_start is Some ==> marks.patterns.status,
        marks.preface is Some ==> marks.patterns.preface,
    ensures
        models(auto, labels, Marks { patterns, ..marks }),
{
    reveal(models);
    let later = Marks { patterns, ..marks };
    assert forall|l: Label, i: u16| #[trigger] leads_to(marks.patterns, l, i) is Some implies leads_to(
        patterns,
        l,
        i,
    ) == leads_to(marks.patterns, l, i) && later.action(l, i) == marks.action(l, i) by {
        match l {
            Label::Root => {
                marks.patterns.lemma_step_within(patterns, Seq::empty(), i);
            },
            Label::Head(p) => {
                if marks.patterns.step(p, i) is Some {
                    marks.patterns.lemma_step_within(patterns, p, i);
                }
            },
            _ => {},
        }
    }
    assert forall|s: StateId, i: u16| #[trigger] auto.has(s, i) implies {
        &&& labels.contains_key(s)
        &&& labels.contains_key(auto.to(s, i))
        &&& leads_to(later.patterns, labels[s], i) == Some(labels[auto.to(s, i)])
        &&& auto.action(s, i) == later.action(labels[s], i)
    } by {
        assert(leads_to(marks.patterns, labels[s], i) is Some);
    }
    assert forall|l: Label, i: u16| (#[trigger] later.action(l, i)) is Some implies goes(
        auto,
        labels,
        l,
        i,
    ) by {
        if leads_to(marks.patterns, l, i) is Some {
            assert(later.action(l, i) == marks.action(l, i));
        } else {
            match l {
                Label::Root => {
                    let q = Seq::<u8>::empty().push(upper(i) as u8);
                    lemma_method_apart(q);
                    lemma_whole();
                },
                Label::Head(p) => {
                    let q = p.push(upper(i) as u8);
                    lemma_method_apart(q);
                    lemma_whole();
                },
                _ => {
                    assert(later.action(l, i) == marks.action(l, i));
                },
            }
        }
    }
}

/// What is all of a line is what it begins with.
proof fn lemma_whole()
    ensures
        begins(status_bytes(), status_bytes()),
        begins(preface_bytes(), preface_bytes()),
{
    assert(status_bytes().take(status_bytes().len() as int) =~= status_bytes());
    assert(preface_bytes().take(preface_bytes().len() as int) =~= preface_bytes());
}

/// The place where `q` has been read of the first line.
pub open spec fn head(q: Seq<u8>) -> Label {
    if q.len() == 0 {
        Label::Root
    } else {
        Label::Head(q)
    }
}

/// Whether the `k`th byte of `s` is read behind those before it, in either case
/// unless its case matters.
pub open spec fn goes_head<A>(
    auto: Auto<A>,
    labels: Labels,
    s: Seq<u8>,
    k: int,
    case_sensitive: bool,
) -> bool {
    &&& goes(auto, labels, head(s.take(k)), s[k] as u16)
    &&& case_sensitive || goes(auto, labels, head(s.take(k)), other_case(s[k] as u16))
}

/// What is read of the first line stays there.
pub proof fn lemma_goes_head_kept<A>(
    auto: Auto<A>,
    labels: Labels,
    later: Auto<A>,
    later_labels: Labels,
    s: Seq<u8>,
    k: int,
    case_sensitive: bool,
)
    requires
        goes_head(auto, labels, s, k, case_sensitive),
        grows(auto, labels, later, later_labels),
    ensures
        goes_head(later, later_labels, s, k, case_sensitive),
{
    lemma_goes_kept(auto, labels, later, later_labels, head(s.take(k)), s[k] as u16);
    if !case_sensitive {
        lemma_goes_kept(auto, labels, later, later_labels, head(s.take(k)), other_case(s[k] as u16));
    }
}

/// Whether the `k`th byte of `s` is one of a pattern of the first line.
pub open spec fn is_head(patterns: Patterns, s: Seq<u8>, k: int) -> bool {
    &&& patterns.step(s.take(k), s[k] as u16) == Some(Label::Head(s.take(k + 1)))
    &&& upper(s[k] as u16) == s[k]
}

impl<A> Draft<A> {
    /// Pushing a string pushes all but its last byte and then that byte.
    pub proof fn lemma_steps_split(
        self,
        input: Seq<u8>,
        end: Option<StateId>,
        case_sensitive: bool,
    )
        requires
            input.len() > 0,
        ensures
            self.steps(input, end, case_sensitive) == self.steps(
                input.drop_last(),
                None,
                case_sensitive,
            ).step(input.last() as u16, end, case_sensitive),
        decreases input.len(),
    {
        let tail = input.drop_first();
        if input.len() == 1 {
            assert(input =~= seq![input[0]]);
            self.lemma_steps_one(input[0], end, case_sensitive);
            assert(input.drop_last() =~= Seq::empty());
        } else {
            let d = self.step(input[0] as u16, None, case_sensitive);
            let front = input.drop_last();
            d.lemma_steps_split(tail, end, case_sensitive);
            assert(front[0] == input[0]);
            assert(front.drop_first() =~= tail.drop_last());
            assert(self.steps(front, None, case_sensitive) == d.steps(
                front.drop_first(),
                None,
                case_sensitive,
            ));
            assert(tail.last() == input.last());
        }
    }

    /// The bytes of `s` from the `n`th to the `m`th, read at the beginning of a
    /// message behind those before them.
    pub proof fn lemma_labelled_head(
        self,
        labels: Labels,
        marks: Marks<A>,
        s: Seq<u8>,
        n: int,
        m: int,
        case_sensitive: bool,
    ) -> (later: Labels)
        requires
            0 <= n <= m <= s.len(),
            self.is_at(labels, marks, head(s.take(n))),
            forall|k: int| n <= k < m ==> #[trigger] is_head(marks.patterns, s, k),
            self.auto.num_states + (m - n) <= u16::MAX,
        ensures
            ({
                let e = self.steps(s.subrange(n, m), None, case_sensitive);
                &&& e.is_at(later, marks, head(s.take(m)))
                &&& grows(self.auto, labels, e.auto, later)
                &&& e.auto.num_states <= self.auto.num_states + (m - n)
                &&& forall|k: int|
                    n <= k < m ==> #[trigger] goes_head(e.auto, later, s, k, case_sensitive)
            }),
        decreases m - n,
    {
        if n == m {
            assert(s.subrange(n, m) =~= Seq::empty());
            labels
        } else {
            // all but the last byte first
            let part = s.subrange(n, m);
            self.lemma_steps_split(part, None, case_sensitive);
            assert(part.drop_last() =~= s.subrange(n, m - 1));
            let l1 = self.lemma_labelled_head(labels, marks, s, n, m - 1, case_sensitive);
            let d = self.steps(s.subrange(n, m - 1), None, case_sensitive);
            let b = s[m - 1] as u16;
            assert(is_head(marks.patterns, s, m - 1));
            let p = s.take(m - 1);
            let q = s.take(m);
            assert(q.drop_last() =~= p);
            assert(p.len() == 0 ==> p =~= Seq::empty());
            assert(upper(other_case(b)) == b);
            let l2 = d.lemma_labelled_step(l1, marks, head(p), b, case_sensitive, Label::Head(q));
            let e = d.step(b, None, case_sensitive);
            assert(l2.contains_key(d.state) && l2[d.state] == head(p) && e.auto.has(d.state, b));
            lemma_grows(self.auto, labels, d.auto, l1, e.auto, l2);
            assert forall|k: int| n <= k < m implies #[trigger] goes_head(
                e.auto,
                l2,
                s,
                k,
                case_sensitive,
            ) by {
                if k < m - 1 {
                    lemma_goes_head_kept(d.auto, l1, e.auto, l2, s, k, case_sensitive);
                }
            }
            l2
        }
    }

    /// Putting an action on the edges that lead into the state of a draft puts
    /// it where `later` says.
    pub proof fn lemma_labelled_mark(
        self,
        labels: Labels,
        marks: Marks<A>,
        label: Label,
        later: Marks<A>,
        action: A,
    )
        requires
            self.is_at(labels, marks, label),
            later.patterns == marks.patterns,
            forall|l: Label, i: u16| #[trigger]
                later.action(l, i) == if leads_to(marks.patterns, l, i) == Some(label) {
                    Some(action)
                } else {
                    marks.action(l, i)
                },
            forall|l: Label, i: u16| #[trigger]
                leads_to(marks.patterns, l, i) == Some(label) ==> is_free(
                    marks.action(l, i),
                    action,
                ) && goes(self.auto, labels, l, i),
        ensures
            ({
                let e = self.with(action);
                &&& e.is_at(labels, later, label)
                &&& e.state == self.state
                &&& grows(self.auto, labels, e.auto, labels)
                &&& e.auto.num_states == self.auto.num_states
            }),
    {
        reveal(models);
        assert forall|l: Label, i: u16| (#[trigger] later.action(l, i)) is Some implies goes(
            self.auto,
            labels,
            l,
            i,
        ) by {
            assert(leads_to(marks.patterns, l, i) == Some(label) || marks.action(l, i) is Some);
        }
        assert forall|s: StateId, i: u16| #[trigger] self.auto.has(s, i) implies if leads_to(
            marks.patterns,
            labels[s],
            i,
        ) == Some(labels[self.state]) {
            &&& is_free(marks.action(labels[s], i), action)
            &&& later.action(labels[s], i) == Some(action)
        } else {
            later.action(labels[s], i) == marks.action(labels[s], i)
        } by {
            assert(later.action(labels[s], i) == later.action(labels[s], i));
        }
        self.lemma_labelled_with(labels, marks, later, action);
    }
}

/// The strings the patterns of the first line are spelled with.
pub proof fn lemma_head_bytes()
    ensures
        "HTTP/1.1 ".spec_bytes() == status_bytes(),
        " HTTP/1.1".spec_bytes() == version_bytes(),
        preface() == preface_bytes(),
{
    reveal_strlit("HTTP/1.1 ");
    lemma_ascii("HTTP/1.1 ", status_bytes());
    reveal_strlit(" HTTP/1.1");
    lemma_ascii(" HTTP/1.1", version_bytes());
    reveal_strlit("PRI * HTTP/2.0\r\n\r\nSM\r\n\r\n");
    lemma_ascii("PRI * HTTP/2.0\r\n\r\nSM\r\n\r\n", preface_bytes());
}

/// The methods, and the longest of them.
pub proof fn lemma_methods()
    ensures
        methods().len() == 8,
        forall|k: int| 0 <= k < 8 ==> #[trigger] methods()[k] == method(k),
        longest_of(methods(), 8) == 6,
{
    reveal_strlit("POST");
    lemma_ascii("POST", method(0));
    reveal_strlit("GET");
    lemma_ascii("GET", method(1));
    reveal_strlit("PUT");
    lemma_ascii("PUT", method(2));
    reveal_strlit("PATCH");
    lemma_ascii("PATCH", method(3));
    reveal_strlit("DELETE");
    lemma_ascii("DELETE", method(4));
    reveal_strlit("HEAD");
    lemma_ascii("HEAD", method(5));
    reveal_strlit("OPTIONS");
    lemma_ascii("OPTIONS", method(6));
    reveal_strlit("TRACE");
    lemma_ascii("TRACE", method(7));
    assert forall|k: int| 0 <= k < 8 implies #[trigger] methods()[k] == method(k) by {
        assert(k == 0 || k == 1 || k == 2 || k == 3 || k == 4 || k == 5 || k == 6 || k == 7);
    }
    reveal_with_fuel(longest_of, 9);
    assert(methods()[0].len() == 4);
    assert(methods()[1].len() == 3);
    assert(methods()[2].len() == 3);
    assert(methods()[3].len() == 5);
    assert(methods()[4].len() == 6);
    assert(methods()[5].len() == 4);
    assert(methods()[6].len() == 7);
    assert(methods()[7].len() == 5);
}

/// The bytes of a status line, of a preface and of a method are those of a
/// pattern of the first line.
pub proof fn lemma_is_head(patterns: Patterns)
    ensures
        patterns.status ==> forall|k: int|
            0 <= k < status_bytes().len() ==> #[trigger] is_head(patterns, status_bytes(), k),
        patterns.preface ==> forall|k: int|
            0 <= k < preface_bytes().len() ==> #[trigger] is_head(patterns, preface_bytes(), k),
        patterns.request ==> forall|m: int, k: int|
            0 <= m < 8 && 0 <= k < method(m).len() - 1 ==> #[trigger] is_head(patterns, method(m), k),
{
    if patterns.status {
        let s = status_bytes();
        assert forall|k: int| 0 <= k < s.len() implies #[trigger] is_head(patterns, s, k) by {
            assert(s.take(k).push(s[k]) =~= s.take(k + 1));
            lemma_method_apart(s.take(k + 1));
            assert(begins(s, s.take(k + 1)));
        }
    }
    if patterns.preface {
        let s = preface_bytes();
        assert forall|k: int| 0 <= k < s.len() implies #[trigger] is_head(patterns, s, k) by {
            assert(s.take(k).push(s[k]) =~= s.take(k + 1));
            lemma_method_apart(s.take(k + 1));
            assert(begins(s, s.take(k + 1)));
        }
    }
    if patterns.request {
        assert forall|m: int, k: int|
            0 <= m < 8 && 0 <= k < method(m).len() - 1 implies #[trigger] is_head(
            patterns,
            method(m),
            k,
        ) by {
            let s = method(m);
            lemma_method_letters(m);
            assert(0x41 <= s[k] <= 0x5A);
            assert(s.take(k).push(s[k]) =~= s.take(k + 1));
            assert(begins(method(m), s.take(k + 1)));
            lemma_method_apart(s.take(k + 1));
        }
    }
}

/// A string is one byte longer than another if that is all but its last byte.
proof fn lemma_push(p: Seq<u8>, b: u8, s: Seq<u8>)
    requires
        s.len() > 0,
    ensures
        p.push(b) == s <==> p == s.drop_last() && b == s.last(),
{
    if p.push(b) == s {
        assert(p.push(b).drop_last() =~= p);
    } else if p == s.drop_last() && b == s.last() {
        assert(p.push(b) =~= s);
    }
}

/// The transition that reads the last byte of the preface is the one that is
/// marked as its end.
proof fn lemma_preface_mark<A>(marks: Marks<A>, end: A)
    requires
        marks.patterns.preface,
    ensures
        ({
            let s = preface_bytes();
            forall|l: Label, i: u16| #[trigger]
                (Marks { preface: Some(end), ..marks }).action(l, i) == if l == head(s.drop_last())
                    && i < 256 && upper(i) == s.last() {
                    Some(end)
                } else {
                    marks.action(l, i)
                }
        }),
{
    let s = preface_bytes();
    let m = Marks { preface: Some(end), ..marks };
    assert(s.len() == 24 && status_bytes().len() == 9 && s[23] == 0x0A);
    lemma_method_apart(s);
    lemma_whole();
    assert forall|l: Label, i: u16| #[trigger] m.action(l, i) == if l == head(s.drop_last()) && i
        < 256 && upper(i) == s.last() {
        Some(end)
    } else {
        marks.action(l, i)
    } by {
        match l {
            Label::Root => lemma_push(Seq::empty(), upper(i) as u8, s),
            Label::Head(p) => lemma_push(p, upper(i) as u8, s),
            _ => {},
        }
    }
}

/// The transition that reads the last byte of what a status line begins with is
/// the one that is marked as the beginning of the status code.
pub(crate) proof fn lemma_status_mark<A>(marks: Marks<A>, start: A)
    requires
        marks.patterns.status,
    ensures
        ({
            let s = status_bytes();
            forall|l: Label, i: u16| #[trigger]
                (Marks { status_start: Some(start), ..marks }).action(l, i) == if l == head(
                    s.drop_last(),
                ) && i < 256 && upper(i) == s.last() {
                    Some(start)
                } else {
                    marks.action(l, i)
                }
        }),
{
    let s = status_bytes();
    let m = Marks { status_start: Some(start), ..marks };
    assert(s.len() == 9 && s[8] == 0x20);
    lemma_method_apart(s);
    lemma_whole();
    assert forall|l: Label, i: u16| #[trigger] m.action(l, i) == if l == head(s.drop_last()) && i
        < 256 && upper(i) == s.last() {
        Some(start)
    } else {
        marks.action(l, i)
    } by {
        match l {
            Label::Root => lemma_push(Seq::empty(), upper(i) as u8, s),
            Label::Head(p) => lemma_push(p, upper(i) as u8, s),
            _ => {},
        }
    }
}

impl<A> Draft<A> {
    /// Putting an action on the edge that reads the last byte of `s`.
    pub(crate) proof fn lemma_mark_head(
        self,
        labels: Labels,
        marks: Marks<A>,
        s: Seq<u8>,
        case_sensitive: bool,
        later: Marks<A>,
        action: A,
    )
        requires
            s.len() > 1,
            self.is_at(labels, marks, Label::Head(s)),
            goes_head(self.auto, labels, s, s.len() - 1, case_sensitive),
            is_head(marks.patterns, s, s.len() - 1),
            lower(s.last() as u16) == s.last(),
            later.patterns == marks.patterns,
            forall|l: Label, i: u16| #[trigger]
                later.action(l, i) == if l == head(s.drop_last()) && i < 256 && upper(i) == s.last() {
                    Some(action)
                } else {
                    marks.action(l, i)
                },
            is_free(marks.action(head(s.drop_last()), s.last() as u16), action),
        ensures
            ({
                let e = self.with(action);
                &&& e.is_at(labels, later, Label::Head(s))
                &&& e.state == self.state
                &&& grows(self.auto, labels, e.auto, labels)
                &&& e.auto.num_states == self.auto.num_states
            }),
    {
        assert(s.take(s.len() - 1) =~= s.drop_last());
        assert(s.take(s.len() as int) =~= s);
        assert forall|l: Label, i: u16| (#[trigger] leads_to(marks.patterns, l, i) == Some(
            Label::Head(s),
        )) <==> l == head(s.drop_last()) && i == s.last() by {
            match l {
                Label::Root => lemma_push(Seq::empty(), upper(i) as u8, s),
                Label::Head(p) => lemma_push(p, upper(i) as u8, s),
                _ => {},
            }
        }
        assert forall|l: Label, i: u16| #[trigger] later.action(l, i) == if leads_to(
            marks.patterns,
            l,
            i,
        ) == Some(Label::Head(s)) {
            Some(action)
        } else {
            marks.action(l, i)
        } by {
            assert(leads_to(marks.patterns, l, i) == Some(Label::Head(s)) <==> l == head(
                s.drop_last(),
            ) && i == s.last());
        }
        self.lemma_labelled_mark(labels, marks, Label::Head(s), later, action);
    }

    /// No transition leads to the first byte of a message, so an action there
    /// changes nothing.
    pub proof fn lemma_labelled_root(self, labels: Labels, marks: Marks<A>, action: A)
        requires
            self.is_at(labels, marks, Label::Root),
        ensures
            self.with(action) == self,
    {
        reveal(models);
        self.lemma_settle();
        assert forall|s: StateId, i: u16| #[trigger] self.auto.has(s, i) implies !self.ends_in(
            self.auto.to(s, i),
        ) by {
            assert(leads_to(marks.patterns, labels[s], i) != Some(Label::Root));
        }
        let e = self.with(action);
        assert forall|key: (StateId, u16)| #[trigger] self.auto.edges.contains_key(
            key,
        ) implies e.auto.edges[key] == self.auto.edges[key] by {
            assert(self.auto.has(key.0, key.1));
        }
        assert(e.auto.edges =~= self.auto.edges);
        assert(e =~= self);
    }

    /// The pattern of the preface fits, and marks what it is to.
    pub proof fn lemma_labelled_preface(
        self,
        labels: Labels,
        marks: Marks<A>,
        start: A,
        end: A,
    ) -> (later: Labels)
        requires
            self.fits,
            models(self.auto, labels, marks),
            marks.patterns.preface,
            is_free(marks.preface, end),
            self.auto.num_states + 24 <= u16::MAX,
        ensures
            ({
                let e = self.h2_preface(start, end);
                &&& e.fits
                &&& models(e.auto, later, Marks { preface: Some(end), ..marks })
                &&& grows(self.auto, labels, e.auto, later)
                &&& has_preface(e.auto, later)
                &&& e.auto.num_states <= self.auto.num_states + 24
            }),
    {
        lemma_first_states(self.auto, labels, marks);
        let s = preface_bytes();
        let d0 = self.again(INIT_STATE);
        lemma_head_bytes();
        lemma_is_head(marks.patterns);
        d0.lemma_labelled_root(labels, marks, start);
        assert(s.take(0) =~= Seq::empty());
        assert(s.subrange(0, 24) =~= s);
        assert(s.take(24) =~= s);
        assert(s.take(23) =~= s.drop_last());
        assert(s[23] == 0x0A);
        let l1 = d0.lemma_labelled_head(labels, marks, s, 0, 24, true);
        let d1 = d0.steps(s, None, true);
        let m = Marks { preface: Some(end), ..marks };
        lemma_preface_mark(marks, end);
        assert(goes_head(d1.auto, l1, s, 23, true));
        assert(is_head(marks.patterns, s, 23));
        assert(m.action(head(s.drop_last()), 0x0A) == m.preface);
        d1.lemma_mark_head(l1, marks, s, true, m, end);
        let e = d1.with(end);
        lemma_grows(self.auto, labels, d1.auto, l1, e.auto, l1);
        assert forall|k: int| 0 <= k < 24 implies #[trigger] goes_head(e.auto, l1, s, k, true) by {
            lemma_goes_head_kept(d1.auto, l1, e.auto, l1, s, k, true);
        }
        l1
    }

    /// The pattern of the end of the header block fits, and marks what it is to.
    pub proof fn lemma_labelled_end(
        self,
        labels: Labels,
        marks: Marks<A>,
        done: A,
    ) -> (later: Labels)
        requires
            self.fits,
            models(self.auto, labels, marks),
            is_free(marks.done, done),
            self.auto.num_states + 2 <= u16::MAX,
        ensures
            ({
                let e = self.header_end(done);
                &&& e.fits
                &&& models(e.auto, later, Marks { done: Some(done), ..marks })
                &&& grows(self.auto, labels, e.auto, later)
                &&& has_end(e.auto, later)
                &&& e.auto.num_states <= self.auto.num_states + 2
            }),
    {
        lemma_first_states(self.auto, labels, marks);
        let empty = Seq::<u8>::empty();
        let line = Label::Node(empty);
        let a = self.again(ANY_STATE);
        a.lemma_blank_line(labels, marks, Label::Any);
        let d0 = a.option(cr(), false);
        let s0 = d0.settle();
        let l1 = s0.lemma_labelled_step(labels, marks, Label::Any, 0x0A, true, line);
        let d1 = s0.step(0x0A, None, true);
        d0.lemma_steps_one(0x0A, None, true);
        d0.lemma_settled_step(0x0A, None, true);
        s0.lemma_plain_step(0x0A, None, true);
        assert(d0.steps(lf(), None, true) == d1);

        d1.lemma_blank_line(l1, marks, line);
        let d2 = d1.option(cr(), false);
        let s2 = d2.settle();
        let l2 = s2.lemma_labelled_step(l1, marks, line, 0x0A, true, Label::End);
        let d3 = s2.step(0x0A, None, true);
        d2.lemma_steps_one(0x0A, None, true);
        d2.lemma_settled_step(0x0A, None, true);
        s2.lemma_plain_step(0x0A, None, true);
        assert(d2.steps(lf(), None, true) == d3);

        let m = Marks { done: Some(done), ..marks };
        assert forall|l: Label, i: u16| (#[trigger] leads_to(marks.patterns, l, i)) == Some(
            Label::End,
        ) implies is_free(marks.action(l, i), done) && goes(d3.auto, l2, l, i) by {
            assert(l->Node_0 =~= empty);
            assert(l2.contains_key(d1.state) && l2[d1.state] == line && d3.auto.has(
                d1.state,
                0x0A,
            ));
        }
        d3.lemma_labelled_mark(l2, marks, Label::End, m, done);
        let e = self.header_end(done);
        assert(e == d3.with(done));
        lemma_grows(self.auto, labels, s0.auto, labels, d1.auto, l1);
        lemma_grows(s0.auto, labels, d1.auto, l1, s2.auto, l1);
        lemma_grows(d1.auto, l1, s2.auto, l1, d3.auto, l2);
        lemma_grows(d1.auto, l1, d3.auto, l2, e.auto, l2);
        lemma_grows(self.auto, labels, d1.auto, l1, e.auto, l2);
        lemma_grows(s0.auto, labels, d1.auto, l1, e.auto, l2);
        lemma_grows(s2.auto, l1, d3.auto, l2, e.auto, l2);
        assert(labels.contains_key(ANY_STATE) && labels[ANY_STATE] == Label::Any && s0.auto.has(
            ANY_STATE,
            0x0D,
        ));
        lemma_goes_kept(s0.auto, labels, e.auto, l2, Label::Any, 0x0D);
        assert(l1.contains_key(ANY_STATE) && l1[ANY_STATE] == Label::Any && d1.auto.has(
            ANY_STATE,
            0x0A,
        ));
        lemma_goes_kept(d1.auto, l1, e.auto, l2, Label::Any, 0x0A);
        assert(l1.contains_key(d1.state) && l1[d1.state] == line && s2.auto.has(d1.state, 0x0D));
        lemma_goes_kept(s2.auto, l1, e.auto, l2, line, 0x0D);
        assert(l2.contains_key(d1.state) && l2[d1.state] == line && d3.auto.has(d1.state, 0x0A));
        lemma_goes_kept(d3.auto, l2, e.auto, l2, line, 0x0A);
        l2
    }

    /// A carriage return that may appear any number of times.
    proof fn lemma_blank_line(self, labels: Labels, marks: Marks<A>, label: Label)
        requires
            self.is_at(labels, marks, label),
            leads_to(marks.patterns, label, 0x0D) == Some(label),
        ensures
            ({
                let d = self.option(cr(), false);
                let e = d.settle();
                &&& d.skipped.len() == 0
                &&& e.is_at(labels, marks, label)
                &&& e.state == self.state
                &&& grows(self.auto, labels, e.auto, labels)
                &&& e.auto.num_states == self.auto.num_states
                &&& e.auto.has(self.state, 0x0D)
            }),
    {
        let d = self.option(cr(), false);
        assert(d.optional =~= seq![(seq![0x0Du8], false)]);
        d.lemma_settle_one(0x0D, false);
        let l1 = d.lemma_labelled_edge(labels, marks, d.state, 0x0D, Some(d.state), false, label);
        assert(d.settle().skipped =~= self.skipped);
    }
}

/// Whether all of the pattern of the preface is there.
pub open spec fn has_preface<A>(auto: Auto<A>, labels: Labels) -> bool {
    forall|k: int|
        0 <= k < 24 ==> #[trigger] goes_head(auto, labels, preface_bytes(), k, true)
}

/// Whether all of the pattern of the end of the header block is there.
pub open spec fn has_end<A>(auto: Auto<A>, labels: Labels) -> bool {
    &&& goes(auto, labels, Label::Any, 0x0D)
    &&& goes(auto, labels, Label::Any, 0x0A)
    &&& goes(auto, labels, Label::Node(Seq::empty()), 0x0D)
    &&& goes(auto, labels, Label::Node(Seq::empty()), 0x0A)
}

} // verus!

//! What the states of an HTTP/1.x automaton stand for.
//!
//! However the patterns of a parser are configured, every state of the
//! automaton they are compiled into stands for a place in a message, and where
//! a transition leads and which action it carries depends on nothing but the
//! place it leaves, the input it reads and what is captured.

use crate::dfa::model::{lower, other_case, upper, Auto, Draft, ANY_INPUT, ANY_STATE, INIT_STATE};
use crate::StateId;
use vstd::prelude::*;

verus! {

/// A place in a message.
pub enum Label {
    /// At its first byte.
    Root,

    /// In what a request line, a status line or a preface begins with, having
    /// read that much of it, in upper case.
    Head(Seq<u8>),

    /// Behind the method of a request line.
    Method,

    /// At the path of a request line.
    Target,

    /// In the path of a request line.
    Path,

    /// Behind the path of a request line, having read that many bytes of what
    /// follows.
    Version(int),

    /// In the status code of a status line, having read that many digits of it.
    Code(int),

    /// Behind the status code of a status line.
    Reason,

    /// Anywhere, having read nothing of interest.
    Any,

    /// In the name of a header field, having read that much of it, in lower
    /// case. Nothing of it has been read at the beginning of a line.
    Node(Seq<u8>),

    /// At the value of a header field.
    Value(Seq<u8>),

    /// In the value of a header field.
    Text(Seq<u8>),

    /// Behind the header block.
    End,
}

/// Which patterns there are.
pub struct Patterns {
    /// That of a request line.
    pub request: bool,

    /// That of a status line.
    pub status: bool,

    /// That of a preface.
    pub preface: bool,

    /// Those of header fields, by their names.
    pub names: Set<Seq<u8>>,
}

/// The actions the patterns carry.
pub struct Marks<A> {
    pub patterns: Patterns,

    /// The actions where the value of a field begins, by the name of the field.
    pub starts: Map<Seq<u8>, A>,

    /// The actions where the value of a field may end, by the name of the field.
    pub ends: Map<Seq<u8>, A>,

    /// The action where the method ends.
    pub method: Option<A>,

    /// The actions where the path begins and where it may end.
    pub path_start: Option<A>,
    pub path_end: Option<A>,

    /// The actions where the status code begins and where it ends.
    pub status_start: Option<A>,
    pub status_end: Option<A>,

    /// The action where the preface ends.
    pub preface: Option<A>,

    /// The action where the header block ends.
    pub done: Option<A>,
}

/// The methods a request line can begin with.
pub open spec fn method(k: int) -> Seq<u8> {
    if k == 0 {
        seq![0x50, 0x4F, 0x53, 0x54]
    } else if k == 1 {
        seq![0x47, 0x45, 0x54]
    } else if k == 2 {
        seq![0x50, 0x55, 0x54]
    } else if k == 3 {
        seq![0x50, 0x41, 0x54, 0x43, 0x48]
    } else if k == 4 {
        seq![0x44, 0x45, 0x4C, 0x45, 0x54, 0x45]
    } else if k == 5 {
        seq![0x48, 0x45, 0x41, 0x44]
    } else if k == 6 {
        seq![0x4F, 0x50, 0x54, 0x49, 0x4F, 0x4E, 0x53]
    } else {
        seq![0x54, 0x52, 0x41, 0x43, 0x45]
    }
}

/// What a status line begins with.
pub open spec fn status_bytes() -> Seq<u8> {
    seq![0x48, 0x54, 0x54, 0x50, 0x2F, 0x31, 0x2E, 0x31, 0x20]
}

/// What follows the path of a request line.
pub open spec fn version_bytes() -> Seq<u8> {
    seq![0x20, 0x48, 0x54, 0x54, 0x50, 0x2F, 0x31, 0x2E, 0x31]
}

/// The preface of an HTTP/2 connection.
pub open spec fn preface_bytes() -> Seq<u8> {
    seq![
        0x50,
        0x52,
        0x49,
        0x20,
        0x2A,
        0x20,
        0x48,
        0x54,
        0x54,
        0x50,
        0x2F,
        0x32,
        0x2E,
        0x30,
        0x0D,
        0x0A,
        0x0D,
        0x0A,
        0x53,
        0x4D,
        0x0D,
        0x0A,
        0x0D,
        0x0A,
    ]
}

/// Whether `q` is what `s` begins with.
pub open spec fn begins(s: Seq<u8>, q: Seq<u8>) -> bool {
    q.len() <= s.len() && s.take(q.len() as int) == q
}

/// Whether `q` is a method.
pub open spec fn is_method(q: Seq<u8>) -> bool {
    exists|k: int| 0 <= k < 8 && #[trigger] method(k) == q
}

/// Whether `q` is what a method begins with, but not all of it.
pub open spec fn begins_method(q: Seq<u8>) -> bool {
    exists|k: int| 0 <= k < 8 && q.len() < method(k).len() && #[trigger] begins(method(k), q)
}

impl Patterns {
    /// Whether one of the patterns of the first line begins with `q`.
    pub open spec fn begin(self, q: Seq<u8>) -> bool {
        ||| self.request && begins_method(q)
        ||| self.status && begins(status_bytes(), q)
        ||| self.preface && begins(preface_bytes(), q)
    }

    /// Where reading `i` leads that has read `p` of the first line.
    pub open spec fn step(self, p: Seq<u8>, i: u16) -> Option<Label> {
        if i >= 256 {
            None
        } else {
            let q = p.push(upper(i) as u8);
            if self.request && is_method(q) {
                Some(Label::Method)
            } else if self.begin(q) {
                Some(Label::Head(q))
            } else {
                None
            }
        }
    }
}

/// Whether a byte may be part of the name of a field: it is none that separates
/// the name from what is around it.
pub open spec fn is_name_byte(b: u16) -> bool {
    b < 256 && b != 0x09 && b != 0x0A && b != 0x0D && b != 0x20 && b != 0x3A
}

/// Where a transition leads that leaves `label` and reads `i`.
pub open spec fn leads_to(patterns: Patterns, label: Label, i: u16) -> Option<Label> {
    match label {
        Label::Root => patterns.step(Seq::empty(), i),
        Label::Head(p) => if i == ANY_INPUT && patterns.status && p == status_bytes() {
            Some(Label::Code(1))
        } else {
            patterns.step(p, i)
        },
        Label::Method => if i == 0x20 {
            Some(Label::Target)
        } else {
            None
        },
        Label::Target => if i == ANY_INPUT {
            Some(Label::Path)
        } else {
            None
        },
        Label::Path => if i == ANY_INPUT {
            Some(Label::Path)
        } else if i == 0x20 {
            Some(Label::Version(1))
        } else {
            None
        },
        Label::Version(j) => if 1 <= j < 9 && upper(i) == version_bytes()[j] {
            Some(Label::Version(j + 1))
        } else if j == 9 && i == 0x0D {
            Some(Label::Version(9))
        } else if j == 9 && i == 0x0A {
            Some(Label::Node(Seq::empty()))
        } else {
            None
        },
        Label::Code(j) => if i == ANY_INPUT && 1 <= j < 3 {
            Some(Label::Code(j + 1))
        } else if i == ANY_INPUT && j == 3 {
            Some(Label::Reason)
        } else {
            None
        },
        Label::Reason => if i == ANY_INPUT || i == 0x0D {
            Some(Label::Reason)
        } else if i == 0x0A {
            Some(Label::Node(Seq::empty()))
        } else {
            None
        },
        Label::Any => if i == 0x0D {
            Some(Label::Any)
        } else if i == 0x0A {
            Some(Label::Node(Seq::empty()))
        } else {
            None
        },
        Label::Node(p) => if is_name_byte(i) {
            Some(Label::Node(p.push(lower(i) as u8)))
        } else if (i == 0x09 || i == 0x20) && patterns.names.contains(p) {
            Some(Label::Node(p))
        } else if i == 0x3A && patterns.names.contains(p) {
            Some(Label::Value(p))
        } else if i == 0x0D && p.len() == 0 {
            Some(Label::Node(p))
        } else if i == 0x0A && p.len() == 0 {
            Some(Label::End)
        } else {
            None
        },
        Label::Value(p) => if i == 0x09 || i == 0x20 || i == 0x0D {
            Some(Label::Value(p))
        } else if i == 0x0A {
            Some(Label::Node(Seq::empty()))
        } else if i == ANY_INPUT {
            Some(Label::Text(p))
        } else {
            None
        },
        Label::Text(p) => if i == ANY_INPUT || i == 0x0D {
            Some(Label::Text(p))
        } else if i == 0x0A {
            Some(Label::Node(Seq::empty()))
        } else {
            None
        },
        Label::End => None,
    }
}

/// The place a new state for `label` is reached from, and by which input.
pub open spec fn parent(label: Label) -> Option<(Label, u16)> {
    match label {
        Label::Root => None,
        Label::Head(p) => if p.len() == 0 {
            None
        } else if p.len() == 1 {
            Some((Label::Root, p[0] as u16))
        } else {
            Some((Label::Head(p.drop_last()), p.last() as u16))
        },
        Label::Method => Some((Label::Head(method(6).drop_last()), 0x53)),
        Label::Target => Some((Label::Method, 0x20)),
        Label::Path => Some((Label::Target, ANY_INPUT)),
        Label::Version(j) => if j == 1 {
            Some((Label::Path, 0x20))
        } else {
            Some((Label::Version(j - 1), version_bytes()[j - 1] as u16))
        },
        Label::Code(j) => if j == 1 {
            Some((Label::Head(status_bytes()), ANY_INPUT))
        } else {
            Some((Label::Code(j - 1), ANY_INPUT))
        },
        Label::Reason => Some((Label::Code(3), ANY_INPUT)),
        Label::Any => None,
        Label::Node(p) => if p.len() == 0 {
            Some((Label::Any, 0x0A))
        } else {
            Some((Label::Node(p.drop_last()), p.last() as u16))
        },
        Label::Value(p) => Some((Label::Node(p), 0x3A)),
        Label::Text(p) => Some((Label::Value(p), ANY_INPUT)),
        Label::End => Some((Label::Node(Seq::empty()), 0x0A)),
    }
}

/// Whether `action` can be put where `mark` is: there is no other.
pub open spec fn is_free<A>(mark: Option<A>, action: A) -> bool {
    mark is None || mark == Some(action)
}

/// The action a name is marked with, if it is.
pub open spec fn mark_of<A>(marks: Map<Seq<u8>, A>, name: Seq<u8>) -> Option<A> {
    if marks.contains_key(name) {
        Some(marks[name])
    } else {
        None
    }
}

impl<A> Marks<A> {
    /// The action a transition carries that leaves `label` and reads `i`.
    pub open spec fn action(self, label: Label, i: u16) -> Option<A> {
        match label {
            Label::Root | Label::Head(_) => match leads_to(self.patterns, label, i) {
                Some(Label::Method) => self.method,
                Some(Label::Head(q)) => if q == status_bytes() {
                    self.status_start
                } else if q == preface_bytes() {
                    self.preface
                } else {
                    None
                },
                _ => None,
            },
            Label::Method => if i == 0x20 {
                self.path_start
            } else {
                None
            },
            Label::Target => if i == ANY_INPUT {
                self.path_end
            } else {
                None
            },
            Label::Path => if i == ANY_INPUT {
                self.path_end
            } else {
                None
            },
            Label::Code(j) => if i == ANY_INPUT && j == 2 {
                self.status_end
            } else {
                None
            },
            Label::Node(p) => if i == 0x3A {
                mark_of(self.starts, p)
            } else if i == 0x0A && p.len() == 0 {
                self.done
            } else {
                None
            },
            Label::Value(p) => if i == 0x09 || i == 0x20 {
                mark_of(self.starts, p)
            } else if i == ANY_INPUT {
                mark_of(self.ends, p)
            } else {
                None
            },
            Label::Text(p) => if i == ANY_INPUT {
                mark_of(self.ends, p)
            } else {
                None
            },
            _ => None,
        }
    }
}

/// The labels of the states of an automaton.
pub type Labels = Map<StateId, Label>;

/// Whether the state for `label` has a transition for `i`.
pub open spec fn goes<A>(auto: Auto<A>, labels: Labels, label: Label, i: u16) -> bool {
    exists|s: StateId| #[trigger] labels.contains_key(s) && labels[s] == label && auto.has(s, i)
}

/// A transition that is there stays there.
pub proof fn lemma_goes_kept<A>(
    auto: Auto<A>,
    labels: Labels,
    later: Auto<A>,
    later_labels: Labels,
    label: Label,
    i: u16,
)
    requires
        goes(auto, labels, label, i),
        extends(labels, later_labels),
        forall|s: StateId, i: u16| #[trigger] auto.has(s, i) ==> later.has(s, i),
    ensures
        goes(later, later_labels, label, i),
{
    let s = choose|s: StateId| #[trigger]
        labels.contains_key(s) && labels[s] == label && auto.has(s, i);
    assert(later_labels.contains_key(s) && later_labels[s] == label && later.has(s, i));
}

/// Whether the states of the automaton stand for the places `labels` says, each
/// for another one, and its transitions lead where they are to and carry the
/// actions they are to, none of which is missing.
#[verifier::opaque]
pub open spec fn models<A>(auto: Auto<A>, labels: Labels, marks: Marks<A>) -> bool {
    &&& 2 <= auto.num_states <= u16::MAX
    &&& forall|s: StateId| #[trigger] labels.contains_key(s) <==> s < auto.num_states
    &&& forall|s: StateId, t: StateId|
        labels.contains_key(s) && labels.contains_key(t) && #[trigger] labels[s]
            == #[trigger] labels[t] ==> s == t
    &&& labels[INIT_STATE] == Label::Root
    &&& labels[ANY_STATE] == Label::Any
    &&& forall|s: StateId, i: u16| #[trigger]
        auto.has(s, i) ==> {
            &&& labels.contains_key(s)
            &&& labels.contains_key(auto.to(s, i))
            &&& leads_to(marks.patterns, labels[s], i) == Some(labels[auto.to(s, i)])
            &&& auto.action(s, i) == marks.action(labels[s], i)
        }
    &&& forall|s: StateId| #[trigger]
        labels.contains_key(s) && s >= 2 ==> has_parent(auto, labels, labels[s])
    &&& forall|l: Label, i: u16| (#[trigger] marks.action(l, i)) is Some ==> goes(auto, labels, l, i)
}

/// The states every automaton has stand for the places they are to.
pub proof fn lemma_first_states<A>(auto: Auto<A>, labels: Labels, marks: Marks<A>)
    requires
        models(auto, labels, marks),
    ensures
        2 <= auto.num_states <= u16::MAX,
        labels.contains_key(INIT_STATE),
        labels[INIT_STATE] == Label::Root,
        labels.contains_key(ANY_STATE),
        labels[ANY_STATE] == Label::Any,
{
    reveal(models);
}

/// Whether there is a state a new one for `label` would have been reached from,
/// and a transition out of it.
pub open spec fn has_parent<A>(auto: Auto<A>, labels: Labels, label: Label) -> bool {
    match parent(label) {
        Some((from, input)) => exists|p: StateId| #[trigger]
            labels.contains_key(p) && labels[p] == from && auto.has(p, input),
        None => false,
    }
}

/// Whether `later` is `labels` with labels for more states.
pub open spec fn extends(labels: Labels, later: Labels) -> bool {
    forall|s: StateId| #[trigger]
        labels.contains_key(s) ==> later.contains_key(s) && later[s] == labels[s]
}

/// Whether `later` has the transitions of `auto`, with the same actions.
pub open spec fn keeps<A>(auto: Auto<A>, later: Auto<A>) -> bool {
    &&& auto.num_states <= later.num_states
    &&& forall|s: StateId, i: u16| #[trigger]
        auto.has(s, i) ==> later.has(s, i) && later.edges[(s, i)] == auto.edges[(s, i)]
}

impl<A> Draft<A> {
    /// An edge that leads where it is to keeps the automaton what it is, and
    /// fits.
    pub proof fn lemma_labelled_edge(
        self,
        labels: Labels,
        marks: Marks<A>,
        from: StateId,
        b: u16,
        to: Option<StateId>,
        case_sensitive: bool,
        x: Label,
    ) -> (later: Labels)
        requires
            self.fits,
            models(self.auto, labels, marks),
            labels.contains_key(from),
            leads_to(marks.patterns, labels[from], b) == Some(x),
            match to {
                Some(t) => labels.contains_key(t) && labels[t] == x,
                None => parent(x) == Some((labels[from], b)) && self.auto.num_states < u16::MAX,
            },
            case_sensitive || leads_to(marks.patterns, labels[from], other_case(b)) == Some(x),
        ensures
            ({
                let e = self.edge(from, b, to, case_sensitive);
                let t = self.target(from, b, to);
                &&& e.fits
                &&& models(e.auto, later, marks)
                &&& extends(labels, later)
                &&& keeps(self.auto, e.auto)
                &&& later.contains_key(t)
                &&& later[t] == x
                &&& e.auto.has(from, b)
                &&& e.auto.to(from, b) == t
                &&& !case_sensitive ==> e.auto.has(from, other_case(b)) && e.auto.to(
                    from,
                    other_case(b),
                ) == t
                &&& e.auto.num_states <= self.auto.num_states + 1
                &&& to is Some ==> e.auto.num_states == self.auto.num_states && later == labels
            }),
    {
        let e = self.edge(from, b, to, case_sensitive);
        let t = self.target(from, b, to);
        let o = other_case(b);
        let new = self.takes_state(from, b, to);
        reveal(models);
        if new {
            // no state stands for the place the edge leads to yet
            assert forall|s: StateId| #[trigger] labels.contains_key(s) implies labels[s] != x by {
                if labels[s] == x {
                    assert(s >= 2);
                    assert(has_parent(self.auto, labels, labels[s]));
                    let p = choose|p: StateId| #[trigger]
                        labels.contains_key(p) && labels[p] == labels[from] && self.auto.has(p, b);
                    assert(p == from);
                }
            }
        }
        let later = if new {
            labels.insert(t, x)
        } else {
            labels
        };
        if self.auto.has(from, b) {
            assert(labels.contains_key(self.auto.to(from, b)));
        }
        if self.auto.has(from, o) {
            assert(labels.contains_key(self.auto.to(from, o)));
        }
        assert(e.fits);
        // what is marked is there already
        assert(!self.auto.has(from, b) ==> marks.action(labels[from], b) is None);
        assert(!self.auto.has(from, o) ==> marks.action(labels[from], o) is None);
        assert forall|s: StateId, i: u16| #[trigger] e.auto.has(s, i) implies {
            &&& later.contains_key(s)
            &&& later.contains_key(e.auto.to(s, i))
            &&& leads_to(marks.patterns, later[s], i) == Some(later[e.auto.to(s, i)])
            &&& e.auto.action(s, i) == marks.action(later[s], i)
        } by {
            if self.auto.has(s, i) {
                assert(labels.contains_key(self.auto.to(s, i)));
            }
        }
        assert(keeps(self.auto, e.auto));
        assert forall|s: StateId| #[trigger] later.contains_key(s) && s >= 2 implies has_parent(
            e.auto,
            later,
            later[s],
        ) by {
            if new && s == t {
                assert(later.contains_key(from) && later[from] == labels[from] && e.auto.has(
                    from,
                    b,
                ));
            } else {
                assert(has_parent(self.auto, labels, labels[s]));
                let (pl, pi) = parent(labels[s])->0;
                let p = choose|p: StateId| #[trigger]
                    labels.contains_key(p) && labels[p] == pl && self.auto.has(p, pi);
                assert(later.contains_key(p) && later[p] == pl && e.auto.has(p, pi));
            }
        }
        assert forall|l: Label, i: u16| (#[trigger] marks.action(l, i)) is Some implies goes(
            e.auto,
            later,
            l,
            i,
        ) by {
            lemma_goes_kept(self.auto, labels, e.auto, later, l, i);
        }
        later
    }
}

impl<A> Draft<A> {
    /// Putting an action on the edges that lead into the state of a draft puts
    /// it where `later` says.
    pub proof fn lemma_labelled_with(
        self,
        labels: Labels,
        marks: Marks<A>,
        later: Marks<A>,
        action: A,
    )
        requires
            self.plain(),
            self.fits,
            models(self.auto, labels, marks),
            labels.contains_key(self.state),
            later.patterns == marks.patterns,
            forall|s: StateId, i: u16| #[trigger]
                self.auto.has(s, i) ==> if leads_to(marks.patterns, labels[s], i) == Some(
                    labels[self.state],
                ) {
                    &&& is_free(marks.action(labels[s], i), action)
                    &&& later.action(labels[s], i) == Some(action)
                } else {
                    later.action(labels[s], i) == marks.action(labels[s], i)
                },
            forall|l: Label, i: u16| (#[trigger] later.action(l, i)) is Some ==> goes(
                self.auto,
                labels,
                l,
                i,
            ),
        ensures
            ({
                let e = self.with(action);
                &&& e.fits
                &&& models(e.auto, labels, later)
                &&& e == (Draft { auto: e.auto, ..self })
                &&& e.auto.num_states == self.auto.num_states
                &&& forall|s: StateId, i: u16|
                    {
                        &&& #[trigger] e.auto.has(s, i) <==> self.auto.has(s, i)
                        &&& self.auto.has(s, i) ==> e.auto.to(s, i) == self.auto.to(s, i)
                    }
            }),
    {
        reveal(models);
        self.lemma_settle();
        self.lemma_mark(action);
        let e = self.with(action);
        assert forall|s: StateId, i: u16| #[trigger] self.auto.has(s, i) implies (self.ends_in(
            self.auto.to(s, i),
        ) <==> leads_to(marks.patterns, labels[s], i) == Some(labels[self.state])) by {
            assert(labels.contains_key(self.auto.to(s, i)));
        }
        assert(self.takes_action(action));
        assert forall|s: StateId, i: u16| #[trigger] e.auto.has(s, i) implies {
            &&& labels.contains_key(s)
            &&& labels.contains_key(e.auto.to(s, i))
            &&& leads_to(later.patterns, labels[s], i) == Some(labels[e.auto.to(s, i)])
            &&& e.auto.action(s, i) == later.action(labels[s], i)
        } by {
            assert(self.auto.has(s, i));
        }
        assert forall|s: StateId| #[trigger] labels.contains_key(s) && s >= 2 implies has_parent(
            e.auto,
            labels,
            labels[s],
        ) by {
            assert(has_parent(self.auto, labels, labels[s]));
            let (pl, pi) = parent(labels[s])->0;
            let p = choose|p: StateId| #[trigger]
                labels.contains_key(p) && labels[p] == pl && self.auto.has(p, pi);
            assert(labels.contains_key(p) && labels[p] == pl && e.auto.has(p, pi));
        }
        assert forall|l: Label, i: u16| (#[trigger] later.action(l, i)) is Some implies goes(
            e.auto,
            labels,
            l,
            i,
        ) by {
            lemma_goes_kept(self.auto, labels, e.auto, labels, l, i);
        }
    }

    /// What building in one byte that may appear any number of times comes to.
    pub proof fn lemma_settle_one(self, a: u8, case_sensitive: bool)
        requires
            self.skipped.len() == 0,
            self.optional == seq![(seq![a], case_sensitive)],
        ensures
            self.settle() == (Draft {
                optional: Seq::empty(),
                ..self.edge(self.state, a as u16, Some(self.state), case_sensitive)
            }),
    {
        reveal_with_fuel(Draft::lay, 2);
        reveal_with_fuel(Draft::detours, 2);
        reveal_with_fuel(Draft::detour, 2);
        assert(self.optional[0] == (seq![a], case_sensitive));
    }

    /// What building in two bytes that may appear any number of times comes to.
    pub proof fn lemma_settle_two(self, a: u8, b: u8, case_sensitive: bool)
        requires
            self.skipped.len() == 0,
            self.optional == seq![(seq![a], case_sensitive), (seq![b], case_sensitive)],
        ensures
            ({
                let d = self.edge(self.state, b as u16, Some(self.state), case_sensitive);
                self.settle() == (Draft {
                    optional: Seq::empty(),
                    ..d.edge(self.state, a as u16, Some(self.state), case_sensitive)
                })
            }),
    {
        reveal_with_fuel(Draft::lay, 3);
        reveal_with_fuel(Draft::detours, 2);
        reveal_with_fuel(Draft::detour, 2);
        assert(self.optional[0] == (seq![a], case_sensitive));
        assert(self.optional[1] == (seq![b], case_sensitive));
    }

    /// A step lays one edge behind the bytes that may appear before it.
    pub proof fn lemma_settled_step(self, input: u16, to: Option<StateId>, case_sensitive: bool)
        requires
            self.skipped.len() == 0,
        ensures
            ({
                let s = self.settle();
                self.step(input, to, case_sensitive) == (Draft {
                    state: s.target(s.state, input, to),
                    ..s.edge(s.state, input, to, case_sensitive)
                })
            }),
    {
        self.lemma_settle();
        let s = self.settle();
        s.lemma_plain_step(input, to, case_sensitive);
        assert(self.step(input, to, case_sensitive) == s.step(input, to, case_sensitive)) by {
            s.lemma_settle();
        }
    }
}

} // verus!

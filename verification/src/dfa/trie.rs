//! Strings that are matched byte by byte share a trie.

use super::action::Comparable;
use super::model::{Auto, Draft, Edge};
use super::{lemma_edges_of, Dfa};
use crate::StateId;
use vstd::prelude::*;

verus! {

impl<A> Auto<A> {
    /// The action a run of exact inputs out of `from` ends with, if there is a
    /// transition for each of them and the last one carries one.
    pub open spec fn ends_with(self, from: StateId, inputs: Seq<u8>) -> Option<A> {
        if inputs.len() == 0 {
            None
        } else {
            match self.follow(from, inputs.drop_last()) {
                Some(s) => if self.has(s, inputs.last() as u16) {
                    self.action(s, inputs.last() as u16)
                } else {
                    None
                },
                None => None,
            }
        }
    }

    /// Whether no two strings lead from `root` to the same state.
    pub open spec fn is_trie(self, root: StateId) -> bool {
        forall|p: Seq<u8>, q: Seq<u8>|
            (#[trigger] self.follow(root, p)) is Some && self.follow(root, p)
                == #[trigger] self.follow(root, q) ==> p == q
    }

    /// Whether a transition that leads where a string out of `root` does is one
    /// that a string out of `root` is read with.
    pub open spec fn is_grounded(self, root: StateId) -> bool {
        forall|from: StateId, input: u16, p: Seq<u8>|
            #![trigger self.has(from, input), self.follow(root, p)]
            self.has(from, input) && p.len() > 0 && self.follow(root, p) == Some(
                self.to(from, input),
            ) ==> input < 256 && exists|q: Seq<u8>| #[trigger] self.follow(root, q) == Some(from)
    }

    /// A run that is one input longer.
    pub proof fn lemma_follow_push(self, from: StateId, inputs: Seq<u8>, b: u8)
        ensures
            self.follow(from, inputs.push(b)) == match self.follow(from, inputs) {
                Some(s) => if self.has(s, b as u16) {
                    Some(self.to(s, b as u16))
                } else {
                    None
                },
                None => None,
            },
        decreases inputs.len(),
    {
        let longer = inputs.push(b);
        if inputs.len() == 0 {
            assert(longer.drop_first() =~= Seq::<u8>::empty());
            reveal_with_fuel(Auto::follow, 2);
        } else {
            assert(longer[0] == inputs[0]);
            assert(longer.drop_first() =~= inputs.drop_first().push(b));
            if self.has(from, inputs[0] as u16) {
                self.lemma_follow_push(
                    self.to(from, inputs[0] as u16),
                    inputs.drop_first(),
                    b,
                );
            }
        }
    }

    /// The transitions a run follows are followed still if none of them is
    /// lost.
    pub proof fn lemma_follow_kept(self, later: Auto<A>, from: StateId, inputs: Seq<u8>)
        requires
            self.kept_by(later),
            self.follow(from, inputs) is Some,
        ensures
            later.follow(from, inputs) == self.follow(from, inputs),
        decreases inputs.len(),
    {
        if inputs.len() > 0 {
            self.lemma_follow_kept(later, self.to(from, inputs[0] as u16), inputs.drop_first());
        }
    }

    /// What a new transition to a new state adds to the runs out of `root`: the
    /// one run that takes it last.
    proof fn lemma_follow_insert(self, root: StateId, at: Seq<u8>, s: StateId, b: u8, q: Seq<u8>)
        requires
            self.is_trie(root),
            self.in_bounds(),
            self.follow(root, at) == Some(s),
            root < self.num_states <= u16::MAX,
            s < self.num_states,
            !self.has(s, b as u16),
        ensures
            ({
                let later = Auto {
                    num_states: self.num_states + 1,
                    edges: self.edges.insert(
                        (s, b as u16),
                        Edge { to: self.num_states as u16, action: None },
                    ),
                };
                later.follow(root, q) == if q == at.push(b) {
                    Some(self.num_states as u16)
                } else {
                    self.follow(root, q)
                }
            }),
        decreases q.len(),
    {
        let new = self.num_states as u16;
        let later = Auto {
            num_states: self.num_states + 1,
            edges: self.edges.insert((s, b as u16), Edge { to: new, action: None }),
        };
        if q.len() > 0 {
            let init = q.drop_last();
            let c = q.last();
            assert(init.push(c) =~= q);
            self.lemma_follow_push(root, init, c);
            later.lemma_follow_push(root, init, c);
            self.lemma_follow_insert(root, at, s, b, init);
            assert(at.push(b).drop_last() =~= at);
            if init == at.push(b) {
                assert(self.follow(root, at.push(b)) is None) by {
                    self.lemma_follow_push(root, at, b);
                }
                assert(!self.has(new, c as u16));
                assert(!later.has(new, c as u16));
                assert(q.len() != at.push(b).len());
            } else if init == at {
                assert(c == b ==> q =~= at.push(b));
                assert(q == at.push(b) ==> c == b);
            } else {
                assert(self.follow(root, init) != Some(s)) by {
                    assert(self.follow(root, at) is Some);
                }
                assert(q == at.push(b) ==> init == at);
            }
        }
    }
}

impl<A> Draft<A> {
    /// The number of states a string that is matched byte by byte out of `from`
    /// takes.
    pub open spec fn missing(self, from: StateId, input: Seq<u8>) -> nat
        decreases input.len(),
    {
        if input.len() == 0 {
            0
        } else if self.auto.has(from, input[0] as u16) {
            self.missing(self.auto.to(from, input[0] as u16), input.drop_first())
        } else {
            input.len()
        }
    }

    /// A string that is matched byte by byte fits if there is a state for every
    /// byte that leads to a new one, and takes as many.
    pub proof fn lemma_steps_fit(self, input: Seq<u8>)
        requires
            self.plain(),
            self.fits,
            self.bounded(),
        ensures
            self.steps(input, None, true).fits <==> self.auto.num_states + self.missing(
                self.state,
                input,
            ) <= u16::MAX,
            self.steps(input, None, true).fits ==> self.steps(input, None, true).auto.num_states
                == self.auto.num_states + self.missing(self.state, input),
        decreases input.len(),
    {
        if input.len() > 0 {
            let b = input[0] as u16;
            let rest = input.drop_first();
            let d = self.step(b, None, true);
            if self.auto.has(self.state, b) {
                self.lemma_old_step(b);
                self.lemma_step_bounded(b, None, true);
                d.lemma_steps_fit(rest);
                d.lemma_missing_same(self, d.state, rest);
            } else if self.auto.num_states < u16::MAX {
                self.lemma_new_step(b, None);
                self.lemma_step_bounded(b, None, true);
                d.lemma_steps_fit(rest);
                if rest.len() > 0 {
                    assert(!self.auto.has(d.state, rest[0] as u16));
                    assert(!d.auto.has(d.state, rest[0] as u16));
                }
            } else {
                self.lemma_plain_step(b, None, true);
                assert(!d.fits);
                d.lemma_steps(rest, None, true);
            }
        }
    }

    proof fn lemma_missing_same(self, other: Draft<A>, from: StateId, input: Seq<u8>)
        requires
            self.auto == other.auto,
        ensures
            self.missing(from, input) == other.missing(from, input),
        decreases input.len(),
    {
        if input.len() > 0 && self.auto.has(from, input[0] as u16) {
            self.lemma_missing_same(
                other,
                self.auto.to(from, input[0] as u16),
                input.drop_first(),
            );
        }
    }

    /// Following a string that was pushed leads to where the pattern has been
    /// built up to, its last byte over a transition an action would be put on. No
    /// transition that was there before is lost, nor is its action, and the ones
    /// that are new carry none.
    pub proof fn law_pushed_string_is_followed(self, input: Seq<u8>)
        requires
            self.plain(),
            self.bounded(),
            self.steps(input, None, true).fits,
        ensures
            ({
                let e = self.steps(input, None, true);
                &&& e.plain()
                &&& e.auto.follow(self.state, input) == Some(e.state)
                &&& forall|from: StateId, i: u16| #[trigger]
                    self.auto.has(from, i) ==> e.auto.has(from, i) && e.auto.edges[(from, i)]
                        == self.auto.edges[(from, i)]
                &&& forall|from: StateId, i: u16| #[trigger]
                    e.auto.has(from, i) && !self.auto.has(from, i) ==> e.auto.action(from, i)
                        is None
                &&& input.len() > 0 ==> {
                    &&& e.auto.follow(self.state, input.drop_last()) matches Some(s)
                    &&& e.auto.has(s, input.last() as u16)
                    &&& e.auto.to(s, input.last() as u16) == e.state
                }
            }),
        decreases input.len(),
    {
        if input.len() > 0 {
            let b = input[0] as u16;
            let rest = input.drop_first();
            let d = self.step(b, None, true);
            let e = self.steps(input, None, true);
            d.lemma_steps(rest, None, true);
            self.lemma_step(b, None, true);
            self.lemma_step_bounded(b, None, true);
            self.lemma_plain_step(b, None, true);
            d.law_pushed_string_is_followed(rest);
            assert(d.auto.has(self.state, b));
            assert(e.auto.has(self.state, b) && e.auto.to(self.state, b) == d.state);
            assert forall|from: StateId, i: u16| #[trigger] self.auto.has(from, i) implies e.auto.has(
                from,
                i,
            ) && e.auto.edges[(from, i)] == self.auto.edges[(from, i)] by {
                assert(d.auto.has(from, i));
            }
            assert forall|from: StateId, i: u16| #[trigger]
                e.auto.has(from, i) && !self.auto.has(from, i) implies e.auto.action(from, i)
                is None by {
                if d.auto.has(from, i) {
                    assert(e.auto.edges[(from, i)] == d.auto.edges[(from, i)]);
                }
            }
            assert(input.drop_last().push(input.last()) =~= input);
            e.auto.lemma_follow_push(self.state, input.drop_last(), input.last());
        }
    }

    /// Where a string that was pushed leads: to a state that was there before if
    /// there was a transition for every byte of it, or else to a new one, into
    /// which only transitions lead that carry no action.
    proof fn lemma_steps_end(self, input: Seq<u8>)
        requires
            self.plain(),
            self.bounded(),
            self.steps(input, None, true).fits,
        ensures
            ({
                let e = self.steps(input, None, true);
                match self.auto.follow(self.state, input) {
                    Some(s) => e == (Draft { state: s, ..self }),
                    None => {
                        &&& e.state >= self.auto.num_states
                        &&& forall|from: StateId, i: u16| #[trigger]
                            e.auto.has(from, i) && e.auto.to(from, i) == e.state
                                ==> e.auto.action(from, i) is None
                    },
                }
            }),
        decreases input.len(),
    {
        if input.len() > 0 {
            let b = input[0] as u16;
            let rest = input.drop_first();
            let d = self.step(b, None, true);
            let e = self.steps(input, None, true);
            d.lemma_steps(rest, None, true);
            self.lemma_step(b, None, true);
            self.lemma_step_bounded(b, None, true);
            self.lemma_plain_step(b, None, true);
            if self.auto.has(self.state, b) {
                self.lemma_old_step(b);
                d.lemma_steps_end(rest);
            } else {
                self.lemma_new_step_room(b);
                self.lemma_new_step(b, None);
                d.lemma_steps_end(rest);
                if rest.len() > 0 {
                    assert(!self.auto.has(d.state, rest[0] as u16));
                    assert(!d.auto.has(d.state, rest[0] as u16));
                }
                self.law_pushed_string_is_followed(input);
                assert forall|from: StateId, i: u16| #[trigger]
                    e.auto.has(from, i) && e.auto.to(from, i) == e.state implies e.auto.action(
                    from,
                    i,
                ) is None by {
                    if self.auto.has(from, i) {
                        assert(e.auto.edges[(from, i)] == self.auto.edges[(from, i)]);
                    }
                }
            }
        }
    }

    /// A string with an action on its end ends with that action.
    pub proof fn law_string_ends_with_its_action(self, input: Seq<u8>, action: A)
        requires
            self.plain(),
            self.bounded(),
            self.steps(input, None, true).with(action).fits,
            input.len() > 0,
        ensures
            self.steps(input, None, true).with(action).auto.ends_with(self.state, input) == Some(
                action,
            ),
            self.steps(input, None, true).with(action).auto.in_bounds(),
    {
        let e = self.steps(input, None, true);
        let w = e.with(action);
        e.lemma_with(action);
        self.law_pushed_string_is_followed(input);
        e.lemma_settle();
        e.lemma_mark(action);
        e.auto.lemma_follow_kept(w.auto, self.state, input.drop_last());
        self.lemma_steps(input, None, true);
        self.lemma_steps_bounded(input, None, true);
        e.lemma_with_bounded(action);
    }

    /// Pushing a string keeps a trie one, and adds to it the string and what the
    /// string begins with, which leads to new states.
    pub proof fn lemma_trie_steps(self, root: StateId, at: Seq<u8>, input: Seq<u8>, q: Seq<u8>)
        requires
            self.plain(),
            self.bounded(),
            root < self.auto.num_states,
            self.auto.is_trie(root),
            self.auto.follow(root, at) == Some(self.state),
            self.steps(input, None, true).fits,
        ensures
            ({
                let e = self.steps(input, None, true);
                &&& e.auto.is_trie(root)
                &&& self.auto.follow(root, q) is Some ==> e.auto.follow(root, q)
                    == self.auto.follow(root, q)
                &&& self.auto.follow(root, q) is None ==> (e.auto.follow(root, q) matches Some(s)
                    ==> s >= self.auto.num_states)
                &&& e.auto.follow(root, at + input) == Some(e.state)
            }),
        decreases input.len(),
    {
        let e = self.steps(input, None, true);
        if input.len() == 0 {
            assert(at + input =~= at);
        } else {
            let b = input[0];
            let rest = input.drop_first();
            let d = self.step(b as u16, None, true);
            d.lemma_steps(rest, None, true);
            self.lemma_step(b as u16, None, true);
            self.lemma_step_bounded(b as u16, None, true);
            self.auto.lemma_follow_push(root, at, b);
            d.auto.lemma_follow_push(root, at, b);
            if self.auto.has(self.state, b as u16) {
                self.lemma_old_step(b as u16);
            } else {
                self.lemma_new_step_room(b as u16);
                self.lemma_new_step(b as u16, None);
                assert forall|p: Seq<u8>| #[trigger] d.auto.follow(root, p) == if p == at.push(b) {
                    Some(d.state)
                } else {
                    self.auto.follow(root, p)
                } by {
                    self.auto.lemma_follow_insert(root, at, self.state, b, p);
                }
                assert forall|p: Seq<u8>, r: Seq<u8>|
                    (#[trigger] d.auto.follow(root, p)) is Some && d.auto.follow(root, p)
                        == #[trigger] d.auto.follow(root, r) implies p == r by {
                    self.auto.lemma_follow_in_bounds(root, p);
                    self.auto.lemma_follow_in_bounds(root, r);
                }
            }
            d.lemma_trie_steps(root, at.push(b), rest, q);
            assert(at.push(b) + rest =~= at + input);
        }
    }

    /// Pushing a string onto a trie adds no transition that is not one of it.
    proof fn lemma_grounded_steps(self, root: StateId, at: Seq<u8>, input: Seq<u8>)
        requires
            self.plain(),
            self.bounded(),
            root < self.auto.num_states,
            self.auto.is_trie(root),
            self.auto.is_grounded(root),
            self.auto.follow(root, at) == Some(self.state),
            self.steps(input, None, true).fits,
        ensures
            self.steps(input, None, true).auto.is_grounded(root),
        decreases input.len(),
    {
        if input.len() > 0 {
            let b = input[0];
            let rest = input.drop_first();
            let d = self.step(b as u16, None, true);
            d.lemma_steps(rest, None, true);
            self.lemma_step(b as u16, None, true);
            self.lemma_step_bounded(b as u16, None, true);
            self.lemma_steps_one(b, None, true);
            self.lemma_trie_steps(root, at, seq![b], at);
            self.auto.lemma_follow_push(root, at, b);
            assert(at + seq![b] =~= at.push(b));
            if self.auto.has(self.state, b as u16) {
                self.lemma_old_step(b as u16);
            } else {
                self.lemma_new_step_room(b as u16);
                self.lemma_new_step(b as u16, None);
                self.lemma_grounded_step(root, at, b);
            }
            d.lemma_grounded_steps(root, at.push(b), rest);
        }
    }

    proof fn lemma_grounded_step(self, root: StateId, at: Seq<u8>, b: u8)
        requires
            self.plain(),
            self.bounded(),
            root < self.auto.num_states < u16::MAX,
            self.auto.is_trie(root),
            self.auto.is_grounded(root),
            self.auto.follow(root, at) == Some(self.state),
            !self.auto.has(self.state, b as u16),
        ensures
            self.step(b as u16, None, true).auto.is_grounded(root),
    {
        let d = self.step(b as u16, None, true);
        self.lemma_new_step(b as u16, None);
        self.auto.lemma_follow_push(root, at, b);
        assert forall|p: Seq<u8>| #[trigger] d.auto.follow(root, p) == if p == at.push(b) {
            Some(d.state)
        } else {
            self.auto.follow(root, p)
        } by {
            self.auto.lemma_follow_insert(root, at, self.state, b, p);
        }
        assert forall|from: StateId, input: u16, p: Seq<u8>|
            #![trigger d.auto.has(from, input), d.auto.follow(root, p)]
            d.auto.has(from, input) && p.len() > 0 && d.auto.follow(root, p) == Some(
                d.auto.to(from, input),
            ) implies input < 256 && exists|q: Seq<u8>| #[trigger]
            d.auto.follow(root, q) == Some(from) by {
            if (from, input) == (self.state, b as u16) {
                assert(at != at.push(b)) by {
                    assert(at.len() != at.push(b).len());
                }
                assert(d.auto.follow(root, at) == Some(from));
            } else {
                assert(self.auto.has(from, input));
                assert(self.auto.follow(root, p) == Some(self.auto.to(from, input)));
                let q = choose|q: Seq<u8>| #[trigger] self.auto.follow(root, q) == Some(from);
                assert(d.auto.follow(root, q) == Some(from));
            }
        }
    }

    /// There is room for a string that ends with no other action if there is a
    /// state id left for every byte of it, and the trie stays one of nothing but
    /// its strings.
    pub proof fn law_string_has_room(self, input: Seq<u8>, action: A)
        requires
            self.plain(),
            self.fits,
            self.bounded(),
            self.auto.is_trie(self.state),
            self.auto.is_grounded(self.state),
            input.len() > 0,
            self.auto.num_states + input.len() <= u16::MAX,
            self.auto.ends_with(self.state, input) is None || self.auto.ends_with(self.state, input)
                == Some(action),
        ensures
            self.steps(input, None, true).with(action).fits,
            self.steps(input, None, true).with(action).auto.is_grounded(self.state),
    {
        let root = self.state;
        let e = self.steps(input, None, true);
        let w = e.with(action);
        self.lemma_missing_bounded(root, input);
        self.lemma_steps_fit(input);
        self.lemma_steps_end(input);
        self.law_pushed_string_is_followed(input);
        e.lemma_settle();
        e.lemma_with(action);
        e.lemma_mark(action);
        if self.auto.follow(root, input) is Some {
            assert forall|from: StateId, i: u16| #[trigger]
                e.auto.has(from, i) && e.ends_in(e.auto.to(from, i)) implies e.auto.takes_action(
                from,
                i,
                action,
            ) by {
                assert(self.auto.follow(root, input) == Some(self.auto.to(from, i)));
                let q = choose|q: Seq<u8>| #[trigger] self.auto.follow(root, q) == Some(from);
                self.auto.lemma_follow_push(root, q, i as u8);
                assert(self.auto.follow(root, q.push(i as u8)) == self.auto.follow(root, input));
                assert(q.push(i as u8).drop_last() =~= q);
            }
        }
        assert(w.fits);
        self.law_string_keeps_trie_grounded(input, action);
    }

    /// A string with an action on its end leaves a trie one of nothing but its
    /// strings.
    pub proof fn law_string_keeps_trie_grounded(self, input: Seq<u8>, action: A)
        requires
            self.plain(),
            self.bounded(),
            self.auto.is_trie(self.state),
            self.auto.is_grounded(self.state),
            input.len() > 0,
            self.steps(input, None, true).with(action).fits,
        ensures
            self.steps(input, None, true).with(action).auto.is_grounded(self.state),
    {
        let root = self.state;
        let e = self.steps(input, None, true);
        let w = e.with(action);
        e.lemma_with(action);
        self.law_pushed_string_is_followed(input);
        e.lemma_settle();
        e.lemma_mark(action);
        assert(self.auto.follow(root, Seq::empty()) == Some(root));
        self.lemma_grounded_steps(root, Seq::empty(), input);
        assert forall|p: Seq<u8>| #[trigger] w.auto.follow(root, p) == e.auto.follow(root, p) by {
            if e.auto.follow(root, p) is Some {
                e.auto.lemma_follow_kept(w.auto, root, p);
            }
            if w.auto.follow(root, p) is Some {
                w.auto.lemma_follow_kept(e.auto, root, p);
            }
        }
        assert forall|from: StateId, i: u16, p: Seq<u8>|
            #![trigger w.auto.has(from, i), w.auto.follow(root, p)]
            w.auto.has(from, i) && p.len() > 0 && w.auto.follow(root, p) == Some(
                w.auto.to(from, i),
            ) implies i < 256 && exists|q: Seq<u8>| #[trigger]
            w.auto.follow(root, q) == Some(from) by {
            assert(e.auto.has(from, i) && e.auto.follow(root, p) == Some(e.auto.to(from, i)));
            let q = choose|q: Seq<u8>| #[trigger] e.auto.follow(root, q) == Some(from);
            assert(w.auto.follow(root, q) == Some(from));
        }
    }

    /// A string takes a state for every byte at most.
    pub proof fn law_string_takes_few_states(self, input: Seq<u8>, action: A)
        requires
            self.plain(),
            self.fits,
            self.bounded(),
            self.steps(input, None, true).with(action).fits,
        ensures
            self.steps(input, None, true).with(action).auto.num_states <= self.auto.num_states
                + input.len(),
    {
        let e = self.steps(input, None, true);
        self.lemma_missing_bounded(self.state, input);
        e.lemma_with(action);
        self.lemma_steps_fit(input);
        self.lemma_plain_steps(input, true);
        e.lemma_settle();
    }

    proof fn lemma_missing_bounded(self, from: StateId, input: Seq<u8>)
        ensures
            self.missing(from, input) <= input.len(),
        decreases input.len(),
    {
        if input.len() > 0 && self.auto.has(from, input[0] as u16) {
            self.lemma_missing_bounded(self.auto.to(from, input[0] as u16), input.drop_first());
        }
    }

    proof fn lemma_new_step_room(self, input: u16)
        requires
            self.plain(),
            !self.auto.has(self.state, input),
            self.step(input, None, true).fits,
        ensures
            self.auto.num_states < u16::MAX,
    {
        self.lemma_plain_step(input, None, true);
    }

    /// An action on the end of one string changes nothing about where another
    /// string of the trie leads, or what another string ends with.
    pub proof fn law_string_leaves_others_alone(
        self,
        input: Seq<u8>,
        action: A,
        other: Seq<u8>,
    )
        requires
            self.plain(),
            self.bounded(),
            self.auto.is_trie(self.state),
            self.steps(input, None, true).with(action).fits,
            input.len() > 0,
            other != input,
        ensures
            ({
                let w = self.steps(input, None, true).with(action).auto;
                &&& w.is_trie(self.state)
                &&& self.auto.follow(self.state, other) is Some ==> w.follow(self.state, other)
                    == self.auto.follow(self.state, other)
                &&& w.ends_with(self.state, other) == self.auto.ends_with(self.state, other)
            }),
    {
        let root = self.state;
        let e = self.steps(input, None, true);
        let w = e.with(action);
        e.lemma_with(action);
        self.law_pushed_string_is_followed(input);
        self.lemma_trie_steps(root, Seq::empty(), input, other);
        self.lemma_steps(input, None, true);
        e.lemma_settle();
        e.lemma_mark(action);
        assert forall|p: Seq<u8>| #[trigger] w.auto.follow(root, p) == e.auto.follow(root, p) by {
            if e.auto.follow(root, p) is Some {
                e.auto.lemma_follow_kept(w.auto, root, p);
            }
            if w.auto.follow(root, p) is Some {
                w.auto.lemma_follow_kept(e.auto, root, p);
            }
        }
        assert(Seq::<u8>::empty() + input =~= input);
        assert(w.auto.is_trie(root));
        if other.len() > 0 {
            let init = other.drop_last();
            let c = other.last();
            assert(init.push(c) =~= other);
            self.lemma_trie_steps(root, Seq::empty(), input, init);
            assert(w.auto.follow(root, init) == e.auto.follow(root, init));
            if e.auto.follow(root, init) is Some {
                let t = e.auto.follow(root, init)->0;
                e.auto.lemma_follow_push(root, init, c);
                if e.auto.has(t, c as u16) {
                    // it leads elsewhere, as the string is another one
                    assert(e.auto.follow(root, other) == Some(e.auto.to(t, c as u16)));
                    assert(e.auto.follow(root, input) == Some(e.state));
                    assert(e.auto.to(t, c as u16) != e.state);
                }
                if self.auto.follow(root, init) is None {
                    // only new transitions leave a new state
                    assert(!self.auto.has(t, c as u16));
                }
                assert(w.auto.has(t, c as u16) == e.auto.has(t, c as u16));
                if e.auto.has(t, c as u16) {
                    assert(w.auto.action(t, c as u16) == e.auto.action(t, c as u16));
                    assert(!self.auto.has(t, c as u16) ==> e.auto.action(t, c as u16) is None);
                }
                if self.auto.has(t, c as u16) {
                    assert(e.auto.has(t, c as u16));
                }
            }
        }
    }
}

impl<A> Auto<A> {
    /// A run ends in a state of the automaton.
    proof fn lemma_follow_in_bounds(self, from: StateId, inputs: Seq<u8>)
        requires
            self.in_bounds(),
            from < self.num_states,
        ensures
            self.follow(from, inputs) matches Some(s) ==> s < self.num_states,
        decreases inputs.len(),
    {
        if inputs.len() > 0 && self.has(from, inputs[0] as u16) {
            self.lemma_follow_in_bounds(self.to(from, inputs[0] as u16), inputs.drop_first());
        }
    }
}

impl<A: Comparable> Dfa<A> {
    /// Returns whether no transition into `state` carries another action than
    /// `action`.
    pub(crate) fn takes_action(&self, state: StateId, action: A) -> (r: bool)
        requires
            self.wf(),
        ensures
            r == Draft::start(self@, state).takes_action(action),
    {
        let ghost d = Draft::start(self@, state);
        let transitions = self.iter_transitions();
        let ghost ts = transitions@;
        proof {
            lemma_edges_of(ts);
        }
        let mut i: usize = 0;
        while i < transitions.len()
            invariant
                i <= ts.len(),
                ts == transitions@,
                d == Draft::start(self@, state),
                forall|k: int|
                    0 <= k < ts.len() ==> d.auto.has((#[trigger] ts[k]).0, ts[k].1) && d.auto.to(
                        ts[k].0,
                        ts[k].1,
                    ) == ts[k].2 && d.auto.action(ts[k].0, ts[k].1) == ts[k].3,
                forall|k: int|
                    0 <= k < i && (#[trigger] ts[k]).2 == state ==> d.auto.takes_action(
                        ts[k].0,
                        ts[k].1,
                        action,
                    ),
            decreases ts.len() - i,
        {
            let (from, input, to, carried) = transitions[i];
            assert(ts[i as int] == transitions@[i as int]);
            if to == state {
                if let Some(carried) = carried {
                    if !carried.same(&action) {
                        assert(d.auto.has(from, input) && d.ends_in(d.auto.to(from, input)));
                        return false;
                    }
                }
            }
            i += 1;
        }
        proof {
            assert forall|from: StateId, input: u16| #[trigger]
                d.auto.has(from, input) && d.ends_in(
                    d.auto.to(from, input),
                ) implies d.auto.takes_action(from, input, action) by {
                let k = choose|k: int|
                    0 <= k < ts.len() && (#[trigger] ts[k]).0 == from && ts[k].1 == input;
                assert(ts[k].2 == state);
            }
        }
        true
    }

    /// Returns whether a pattern that is anchored at `from`, matches `input` byte
    /// by byte and carries `action` at its end fits.
    pub fn has_room_for(&self, from: StateId, input: &[u8], action: A) -> (r: bool)
        requires
            self.wf(),
            self@.in_bounds(),
            from < self@.num_states <= u16::MAX,
        ensures
            r == Draft::start(self@, from).steps(input@, None, true).with(action).fits,
    {
        let ghost d = Draft::start(self@, from);
        let ghost e = d.steps(input@, None, true);
        proof {
            d.lemma_steps_fit(input@);
            d.lemma_plain_steps(input@, true);
            e.lemma_settle();
            if e.fits {
                d.lemma_steps_end(input@);
            }
        }
        let mut state = from;
        let mut i: usize = 0;
        assert(input@.skip(0) =~= input@);
        while i < input.len()
            invariant
                self.wf(),
                i <= input@.len(),
                d == Draft::start(self@, from),
                e == d.steps(input@, None, true),
                e.with(action).fits <==> e.fits && e.takes_action(action),
                e.plain(),
                e.fits ==> match d.auto.follow(from, input@) {
                    Some(s) => e == (Draft { state: s, ..d }),
                    None => forall|from: StateId, i: u16| #[trigger]
                        e.auto.has(from, i) && e.auto.to(from, i) == e.state ==> e.auto.action(
                            from,
                            i,
                        ) is None,
                },
                d.missing(from, input@) == d.missing(state, input@.skip(i as int)),
                d.auto.follow(from, input@) == d.auto.follow(state, input@.skip(i as int)),
                from < self@.num_states <= u16::MAX,
                d.steps(input@, None, true).fits <==> self@.num_states + d.missing(from, input@)
                    <= u16::MAX,
            decreases input@.len() - i,
        {
            let ghost rest = input@.skip(i as int);
            assert(rest[0] == input@[i as int]);
            assert(rest.drop_first() =~= input@.skip(i + 1));
            match self.successor(state, input[i] as u16) {
                Some(to) => {
                    state = to;
                },
                None => {
                    assert(d.auto.follow(from, input@) is None);
                    assert(e.fits ==> e.takes_action(action));
                    return input.len() - i <= (u16::MAX - self.num_states()) as usize;
                },
            }
            i += 1;
        }
        assert(input@.skip(i as int) =~= Seq::empty());
        assert(e == Draft::start(self@, state));
        self.takes_action(state, action)
    }
}

} // verus!

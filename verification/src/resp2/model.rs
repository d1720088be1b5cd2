//! The patterns of a RESP2 parser, and the automaton they are compiled into.

use super::parser::MAX_ARGS;
use crate::dfa::action::Action;
use crate::dfa::model::{longest_of, Auto, Draft, Edge, ANY_INPUT, INIT_STATE};
use crate::text::digits;
use crate::{MatchId, StateId};
use vstd::prelude::*;

verus! {

/// The bytes that end a line.
pub open spec fn crlf() -> Seq<u8> {
    seq![0x0D, 0x0A]
}

impl Draft<Action> {
    /// The draft with `action` put on what leads into its state if `cond`.
    pub open spec fn with_if(self, cond: bool, action: Action) -> Draft<Action> {
        if cond {
            self.with(action)
        } else {
            self
        }
    }

    /// The pattern of a bulk string that begins in `slot`: its length, which is
    /// read, and the string, which is skipped.
    pub open spec fn bulk(self, slot: StateId, mid: Option<MatchId>, done: bool) -> Draft<Action> {
        self.again(slot).steps(seq![0x24], None, true).any(1, None).with(Action::LenDigit).steps(
            crlf(),
            None,
            true,
        ).with(Action::Skip(mid)).steps(crlf(), None, true).with_if(done, Action::Done)
    }

    /// The pattern of a null bulk string that begins in `slot` and leads to
    /// `next`.
    pub open spec fn null(self, slot: StateId, next: StateId, done: bool) -> Draft<Action> {
        self.again(slot).steps(seq![0x24, 0x2D, 0x31], None, true).steps(
            crlf(),
            Some(next),
            true,
        ).with_if(done, Action::Done)
    }

    /// The pattern of a simple string, an error or an integer that begins in
    /// `slot` and leads to `next`. What it carries runs up to the end of the
    /// line.
    pub open spec fn simple(
        self,
        slot: StateId,
        next: StateId,
        mid: Option<MatchId>,
        done: bool,
    ) -> Draft<Action> {
        let kind = self.again(slot).choice(seq![seq![0x2B], seq![0x2D], seq![0x3A]], false);
        let kind = kind.with_if(mid is Some, Action::StartCapture(mid->0));
        let payload = kind.any(1, None).with_if(mid is Some, Action::EndCapture(mid->0));
        payload.steps(crlf(), Some(next), true).with_if(done, Action::Done)
    }

    /// The patterns of an element that begins in `slot`, all of which lead into
    /// the state the draft is left in.
    pub open spec fn element(self, slot: StateId, mid: Option<MatchId>, done: bool) -> Draft<
        Action,
    > {
        let bulk = self.bulk(slot, mid, done);
        let next = bulk.state;
        bulk.null(slot, next, done).simple(slot, next, mid, done)
    }

    /// The patterns of the first `k` elements of an array of `n`.
    pub open spec fn elements(self, args: Seq<Option<MatchId>>, n: nat, k: nat) -> Draft<Action>
        decreases k,
    {
        if k == 0 {
            self
        } else {
            let before = self.elements(args, n, (k - 1) as nat);
            before.element(before.state, args[k - 1], k == n)
        }
    }

    /// The pattern of what announces an array of `n` elements.
    pub open spec fn array_header(self, n: nat) -> Draft<Action> {
        self.again(INIT_STATE).steps(seq![0x2A], None, true).steps(digits(n), None, true).steps(
            crlf(),
            None,
            true,
        )
    }

    /// The patterns of the arrays of up to `n` elements.
    pub open spec fn arrays(self, args: Seq<Option<MatchId>>, n: nat) -> Draft<Action>
        decreases n,
    {
        if n == 0 {
            self
        } else {
            self.arrays(args, (n - 1) as nat).array_header(n).elements(args, n, n)
        }
    }

    /// The pattern of an array that carries nothing.
    pub open spec fn empty_array(self, spelling: Seq<u8>) -> Draft<Action> {
        self.again(INIT_STATE).steps(spelling, None, true).steps(crlf(), None, true).with(
            Action::Done,
        )
    }

    /// The patterns of a reply that is a single element, or no element at all.
    pub open spec fn replies(self, mid: Option<MatchId>) -> Draft<Action> {
        self.element(INIT_STATE, mid, true).empty_array(seq![0x2A, 0x2D, 0x31]).empty_array(
            seq![0x2A, 0x30],
        )
    }
}

/// A parser's patterns for arrays.
pub open spec fn commands(args: Seq<Option<MatchId>>) -> Draft<Action> {
    Draft::start(Auto::<Action>::fresh(2), INIT_STATE).arrays(args, MAX_ARGS as nat)
}

/// All the patterns of a parser that captures `args` and `reply`.
pub open spec fn patterns(args: Seq<Option<MatchId>>, reply: Option<MatchId>) -> Draft<Action> {
    commands(args).replies(reply)
}

/// A transition.
pub open spec fn edge(to: int, action: Option<Action>) -> Edge<Action> {
    Edge { to: to as u16, action }
}

/// The transitions of a bulk string that begins in `slot`, whose states are
/// the six from `b` on.
pub open spec fn bulk_edges(slot: StateId, b: int, mid: Option<MatchId>, end: Option<Action>) -> Map<
    (StateId, u16),
    Edge<Action>,
> {
    map![
        (slot, 0x24u16) => edge(b, None),
        (b as u16, ANY_INPUT) => edge(b + 1, Some(Action::LenDigit)),
        ((b + 1) as u16, ANY_INPUT) => edge(b + 1, Some(Action::LenDigit)),
        ((b + 1) as u16, 0x0Du16) => edge(b + 2, None),
        ((b + 2) as u16, 0x0Au16) => edge(b + 3, Some(Action::Skip(mid))),
        ((b + 3) as u16, 0x0Du16) => edge(b + 4, None),
        ((b + 4) as u16, 0x0Au16) => edge(b + 5, end)
    ]
}

/// The transitions of a null bulk string whose length begins in `b`, whose
/// states are the three from `b + 6` on.
pub open spec fn null_edges(b: int, end: Option<Action>) -> Map<(StateId, u16), Edge<Action>> {
    map![
        (b as u16, 0x2Du16) => edge(b + 6, None),
        ((b + 6) as u16, 0x31u16) => edge(b + 7, None),
        ((b + 7) as u16, 0x0Du16) => edge(b + 8, None),
        ((b + 8) as u16, 0x0Au16) => edge(b + 5, end)
    ]
}

/// The transitions of a simple string, an error or an integer that begins in
/// `slot`, whose states are the three from `b + 9` on.
pub open spec fn simple_edges(
    slot: StateId,
    b: int,
    mid: Option<MatchId>,
    end: Option<Action>,
) -> Map<(StateId, u16), Edge<Action>> {
    let open = match mid {
        Some(mid) => Some(Action::StartCapture(mid)),
        None => None,
    };
    let close = match mid {
        Some(mid) => Some(Action::EndCapture(mid)),
        None => None,
    };
    map![
        (slot, 0x3Au16) => edge(b + 9, open),
        (slot, 0x2Bu16) => edge(b + 9, open),
        (slot, 0x2Du16) => edge(b + 9, open),
        ((b + 9) as u16, ANY_INPUT) => edge(b + 10, close),
        ((b + 10) as u16, ANY_INPUT) => edge(b + 10, close),
        ((b + 10) as u16, 0x0Du16) => edge(b + 11, None),
        ((b + 11) as u16, 0x0Au16) => edge(b + 5, end)
    ]
}

/// What the parser does behind an element: it is done behind the last one.
pub open spec fn end_of(done: bool) -> Option<Action> {
    if done {
        Some(Action::Done)
    } else {
        None
    }
}

/// The transitions of an element that begins in `slot`, whose states are the
/// twelve from `b` on. Every kind of it ends in the sixth of them.
pub open spec fn element_edges(slot: StateId, b: int, mid: Option<MatchId>, done: bool) -> Map<
    (StateId, u16),
    Edge<Action>,
> {
    let end = end_of(done);
    bulk_edges(slot, b, mid, end).union_prefer_right(null_edges(b, end)).union_prefer_right(
        simple_edges(slot, b, mid, end),
    )
}

impl Draft<Action> {
    /// Whether a new element can begin in `slot`.
    pub open spec fn open_at(self, slot: StateId) -> bool {
        &&& self.fits
        &&& self.auto.in_bounds()
        &&& slot < self.auto.num_states <= u16::MAX - 12
        &&& !self.auto.has(slot, 0x24)
        &&& !self.auto.has(slot, 0x2B)
        &&& !self.auto.has(slot, 0x2D)
        &&& !self.auto.has(slot, 0x3A)
    }

    proof fn lemma_bulk(self, slot: StateId, mid: Option<MatchId>, done: bool)
        requires
            self.open_at(slot),
        ensures
            ({
                let b = self.auto.num_states;
                let end = end_of(done);
                let r = self.bulk(slot, mid, done);
                &&& r.fits
                &&& r.state == b + 5
                &&& r.auto.num_states == b + 6
                &&& r.auto.edges == self.auto.edges.union_prefer_right(
                    bulk_edges(slot, b, mid, end),
                )
            }),
    {
        let b = self.auto.num_states;
        let end = end_of(done);
        assert forall|from: StateId, input: u16| #[trigger]
            self.auto.edges.contains_key((from, input)) implies from < b
            && self.auto.edges[(from, input)].to < b by {
            assert(self.auto.has(from, input));
        }
        let d0 = self.again(slot);
        let d1 = d0.steps(seq![0x24], None, true);
        d0.lemma_steps_one(0x24, None, true);
        d0.lemma_new_step(0x24, None);
        let d2 = d1.any(1, None);
        d1.lemma_new_any();
        let d3 = d2.with(Action::LenDigit);
        d2.lemma_with_keys(
            set![(d1.state, ANY_INPUT), (d2.state, ANY_INPUT)],
            Action::LenDigit,
        );
        let d4 = d3.steps(crlf(), None, true);
        d3.lemma_steps_two(0x0D, 0x0A, None, true);
        d3.lemma_new_step(0x0D, None);
        d3.step(0x0D, None, true).lemma_new_step(0x0A, None);
        let d5 = d4.with(Action::Skip(mid));
        d4.lemma_with_keys(set![((b + 2) as u16, 0x0Au16)], Action::Skip(mid));
        let d6 = d5.steps(crlf(), None, true);
        d5.lemma_steps_two(0x0D, 0x0A, None, true);
        d5.lemma_new_step(0x0D, None);
        d5.step(0x0D, None, true).lemma_new_step(0x0A, None);
        let d7 = d6.with_if(done, Action::Done);
        if done {
            d6.lemma_with_keys(set![((b + 4) as u16, 0x0Au16)], Action::Done);
        }
        assert(d7 == self.bulk(slot, mid, done));
        assert(d7.auto.edges =~= self.auto.edges.union_prefer_right(bulk_edges(slot, b, mid, end)));
    }

    /// What being done is put on where one more kind of an element ends: the
    /// transition that leads there, as those of `before` carry it already.
    proof fn lemma_with_done(self, before: Draft<Action>, next: int, from: StateId)
        requires
            self.plain(),
            self.state == next,
            forall|from: StateId, input: u16| #[trigger]
                before.auto.has(from, input) && before.auto.to(from, input) == next
                    ==> before.auto.action(from, input) == Some(Action::Done),
            self.auto.has(from, 0x0A),
            self.auto.to(from, 0x0A) == next,
            self.auto.action(from, 0x0A) is None,
            forall|s: StateId, i: u16| #[trigger]
                self.auto.has(s, i) && self.auto.to(s, i) == next && (s, i) != (from, 0x0Au16)
                    ==> before.auto.has(s, i) && before.auto.edges[(s, i)]
                    == self.auto.edges[(s, i)],
        ensures
            self.with(Action::Done) == (Draft {
                auto: Auto {
                    edges: self.auto.edges.insert(
                        (from, 0x0Au16),
                        edge(next, Some(Action::Done)),
                    ),
                    ..self.auto
                },
                ..self
            }),
    {
        let keys = Set::new(|key: (StateId, u16)| self.auto.edges[key].to == self.state);
        assert forall|s: StateId, i: u16| #[trigger]
            self.auto.has(s, i) && keys.contains((s, i)) implies self.auto.takes_action(
            s,
            i,
            Action::Done,
        ) by {
            if (s, i) != (from, 0x0Au16) {
                assert(before.auto.has(s, i));
            }
        }
        self.lemma_with_keys(keys, Action::Done);
        let e = self.with(Action::Done);
        let edges = self.auto.edges.insert((from, 0x0Au16), edge(next, Some(Action::Done)));
        assert forall|key: (StateId, u16)| #[trigger] self.auto.edges.contains_key(
            key,
        ) implies e.auto.edges[key] == edges[key] by {
            assert(self.auto.has(key.0, key.1));
            if key != (from, 0x0Au16) && keys.contains(key) {
                assert(before.auto.has(key.0, key.1));
            }
        }
        assert(self.auto.edges.contains_key((from, 0x0Au16)));
        assert(e.auto.edges =~= edges);
    }

    proof fn lemma_null(self, slot: StateId, b: int, done: bool)
        requires
            self.fits,
            slot < b,
            0 <= b <= u16::MAX - 12,
            self.auto.num_states == b + 6,
            self.auto.has(slot, 0x24),
            self.auto.to(slot, 0x24) == b,
            !self.auto.has(b as u16, 0x2D),
            self.auto.in_bounds(),
            forall|from: StateId, input: u16| #[trigger]
                self.auto.has(from, input) && self.auto.to(from, input) == b + 5
                    ==> self.auto.action(from, input) == end_of(done),
        ensures
            ({
                let r = self.null(slot, (b + 5) as u16, done);
                &&& r.fits
                &&& r.auto.num_states == b + 9
                &&& r.auto.edges == self.auto.edges.union_prefer_right(
                    null_edges(b, end_of(done)),
                )
            }),
    {
        assert forall|from: StateId, input: u16| #[trigger]
            self.auto.edges.contains_key((from, input)) implies from < b + 6
            && self.auto.edges[(from, input)].to < b + 6 by {
            assert(self.auto.has(from, input));
        }
        let d0 = self.again(slot);
        let d1 = d0.steps(seq![0x24, 0x2D, 0x31], None, true);
        reveal_with_fuel(Draft::steps, 2);
        assert(seq![0x24u8, 0x2D, 0x31].drop_first() =~= seq![0x2Du8, 0x31]);
        let d01 = d0.step(0x24, None, true);
        d0.lemma_old_step(0x24);
        d01.lemma_steps_two(0x2D, 0x31, None, true);
        d01.lemma_new_step(0x2D, None);
        d01.step(0x2D, None, true).lemma_new_step(0x31, None);
        let next = (b + 5) as u16;
        let d2 = d1.steps(crlf(), Some(next), true);
        d1.lemma_steps_two(0x0D, 0x0A, Some(next), true);
        d1.lemma_new_step(0x0D, None);
        d1.step(0x0D, None, true).lemma_new_step(0x0A, Some(next));
        let d3 = d2.with_if(done, Action::Done);
        if done {
            d2.lemma_with_done(self, b + 5, (b + 8) as u16);
        }
        assert(d3.auto.edges =~= self.auto.edges.union_prefer_right(null_edges(b, end_of(done))));
    }

    proof fn lemma_kinds(self)
        requires
            self.plain(),
            self.fits,
            self.state < self.auto.num_states < u16::MAX,
            !self.auto.has(self.state, 0x2B),
            !self.auto.has(self.state, 0x2D),
            !self.auto.has(self.state, 0x3A),
        ensures
            ({
                let slot = self.state;
                let p = self.auto.num_states;
                let r = self.choice(seq![seq![0x2Bu8], seq![0x2Du8], seq![0x3Au8]], false);
                &&& r.plain()
                &&& r.fits
                &&& r.state == p
                &&& r.auto.num_states == p + 1
                &&& r.auto.edges == self.auto.edges.insert((slot, 0x3Au16), edge(p, None)).insert(
                    (slot, 0x2Bu16),
                    edge(p, None),
                ).insert((slot, 0x2Du16), edge(p, None))
            }),
    {
        let slot = self.state;
        let p = self.auto.num_states;
        let kinds = seq![seq![0x2Bu8], seq![0x2Du8], seq![0x3Au8]];
        reveal_with_fuel(longest_of, 4);
        assert(longest_of(kinds, 3) == 2);
        let longest = kinds[2];
        assert(kinds[0][0] != longest[0]);
        assert(kinds[1][0] != longest[0]);
        let d0 = self.steps(longest, None, false);
        self.lemma_steps_one(0x3A, None, false);
        self.lemma_plain_step(0x3A, None, false);
        self.lemma_new_edge(slot, 0x3A, None, false);
        reveal_with_fuel(Draft::branches, 4);
        let back0 = Draft { state: slot, skipped: self.skipped, ..d0 };
        back0.lemma_steps_one(0x2B, Some(p as u16), false);
        back0.lemma_plain_step(0x2B, Some(p as u16), false);
        back0.lemma_new_edge(slot, 0x2B, Some(p as u16), false);
        let d1 = d0.branches(self, longest, kinds, 1, false);
        assert(d1.auto.edges == d0.auto.edges.insert((slot, 0x2Bu16), edge(p, None)));
        let back1 = Draft { state: slot, skipped: self.skipped, ..d1 };
        back1.lemma_steps_one(0x2D, Some(p as u16), false);
        back1.lemma_plain_step(0x2D, Some(p as u16), false);
        back1.lemma_new_edge(slot, 0x2D, Some(p as u16), false);
        let d2 = d0.branches(self, longest, kinds, 2, false);
        assert(d2.auto.edges == d1.auto.edges.insert((slot, 0x2Du16), edge(p, None)));
        let d3 = d0.branches(self, longest, kinds, 3, false);
        assert(d3 == d2);
    }

    proof fn lemma_simple(self, slot: StateId, b: int, mid: Option<MatchId>, done: bool)
        requires
            self.fits,
            slot < b,
            0 <= b <= u16::MAX - 12,
            self.auto.num_states == b + 9,
            !self.auto.has(slot, 0x2B),
            !self.auto.has(slot, 0x2D),
            !self.auto.has(slot, 0x3A),
            self.auto.in_bounds(),
            forall|from: StateId, input: u16| #[trigger]
                self.auto.has(from, input) && self.auto.to(from, input) == b + 5
                    ==> self.auto.action(from, input) == end_of(done),
        ensures
            ({
                let r = self.simple(slot, (b + 5) as u16, mid, done);
                &&& r.fits
                &&& r.state == b + 5
                &&& r.auto.num_states == b + 12
                &&& r.auto.edges == self.auto.edges.union_prefer_right(
                    simple_edges(slot, b, mid, end_of(done)),
                )
            }),
    {
        assert forall|from: StateId, input: u16| #[trigger]
            self.auto.edges.contains_key((from, input)) implies from < b + 9
            && self.auto.edges[(from, input)].to < b + 9 by {
            assert(self.auto.has(from, input));
        }
        let d0 = self.again(slot);
        d0.lemma_kinds();
        let d1 = d0.choice(seq![seq![0x2Bu8], seq![0x2Du8], seq![0x3Au8]], false);
        let d2 = d1.with_if(mid is Some, Action::StartCapture(mid->0));
        if mid is Some {
            d1.lemma_with_keys(
                set![(slot, 0x3Au16), (slot, 0x2Bu16), (slot, 0x2Du16)],
                Action::StartCapture(mid->0),
            );
        }
        let d3 = d2.any(1, None);
        d2.lemma_new_any();
        let d4 = d3.with_if(mid is Some, Action::EndCapture(mid->0));
        if mid is Some {
            d3.lemma_with_keys(
                set![(d2.state, ANY_INPUT), (d3.state, ANY_INPUT)],
                Action::EndCapture(mid->0),
            );
        }
        let next = (b + 5) as u16;
        let d5 = d4.steps(crlf(), Some(next), true);
        d4.lemma_steps_two(0x0D, 0x0A, Some(next), true);
        d4.lemma_new_step(0x0D, None);
        d4.step(0x0D, None, true).lemma_new_step(0x0A, Some(next));
        let d6 = d5.with_if(done, Action::Done);
        if done {
            d5.lemma_with_done(self, b + 5, (b + 11) as u16);
        }
        assert(d6.auto.edges =~= self.auto.edges.union_prefer_right(
            simple_edges(slot, b, mid, end_of(done)),
        ));
    }

    /// What the patterns of an element are compiled into.
    pub proof fn lemma_element(self, slot: StateId, mid: Option<MatchId>, done: bool)
        requires
            self.open_at(slot),
        ensures
            ({
                let b = self.auto.num_states;
                let r = self.element(slot, mid, done);
                &&& r.fits
                &&& r.state == b + 5
                &&& r.auto.in_bounds()
                &&& r.auto.num_states == b + 12
                &&& r.auto.edges == self.auto.edges.union_prefer_right(
                    element_edges(slot, b, mid, done),
                )
            }),
    {
        let b = self.auto.num_states;
        let end = end_of(done);
        assert forall|from: StateId, input: u16| from >= b implies !(
        #[trigger] self.auto.edges.contains_key((from, input))) by {
            assert(self.auto.has(from, input) ==> from < b);
        }
        self.lemma_bulk(slot, mid, done);
        let d1 = self.bulk(slot, mid, done);
        assert forall|from: StateId, input: u16| #[trigger] d1.auto.has(from, input) implies {
            &&& from < b + 6
            &&& d1.auto.to(from, input) < b + 6
            &&& d1.auto.to(from, input) == b + 5 ==> d1.auto.action(from, input) == end
        } by {
            if !bulk_edges(slot, b, mid, end).contains_key((from, input)) {
                assert(self.auto.has(from, input));
            }
        }
        d1.lemma_null(slot, b, done);
        let d2 = d1.null(slot, d1.state, done);
        assert forall|from: StateId, input: u16| #[trigger] d2.auto.has(from, input) implies {
            &&& from < b + 9
            &&& d2.auto.to(from, input) < b + 9
            &&& d2.auto.to(from, input) == b + 5 ==> d2.auto.action(from, input) == end
        } by {
            if !null_edges(b, end).contains_key((from, input)) {
                assert(d1.auto.has(from, input));
            }
        }
        d2.lemma_simple(slot, b, mid, done);
        let d3 = d2.simple(slot, d1.state, mid, done);
        assert(d3.auto.edges =~= self.auto.edges.union_prefer_right(
            element_edges(slot, b, mid, done),
        ));
        assert forall|from: StateId, input: u16| #[trigger]
            d3.auto.has(from, input) implies from < d3.auto.num_states && d3.auto.to(from, input)
            < d3.auto.num_states by {
            if self.auto.has(from, input) {
            }
        }
    }

    /// If the pattern of a bulk string fits, so does every part of it.
    pub proof fn lemma_bulk_parts(self, slot: StateId, mid: Option<MatchId>, done: bool)
        requires
            self.bulk(slot, mid, done).fits,
        ensures
            ({
                let d1 = self.again(slot).steps(seq![0x24], None, true);
                let d2 = d1.any(1, None);
                let d3 = d2.with(Action::LenDigit);
                let d4 = d3.steps(crlf(), None, true);
                let d5 = d4.with(Action::Skip(mid));
                let d6 = d5.steps(crlf(), None, true);
                &&& self.fits
                &&& d1.fits
                &&& d2.fits
                &&& d3.fits
                &&& d4.fits
                &&& d5.fits
                &&& d6.fits
            }),
    {
        let d0 = self.again(slot);
        let d1 = d0.steps(seq![0x24], None, true);
        let d2 = d1.any(1, None);
        let d3 = d2.with(Action::LenDigit);
        let d4 = d3.steps(crlf(), None, true);
        let d5 = d4.with(Action::Skip(mid));
        let d6 = d5.steps(crlf(), None, true);
        d0.lemma_steps(seq![0x24], None, true);
        d1.lemma_any(1, None);
        d2.lemma_with(Action::LenDigit);
        d3.lemma_steps(crlf(), None, true);
        d4.lemma_with(Action::Skip(mid));
        d5.lemma_steps(crlf(), None, true);
        d6.lemma_with(Action::Done);
        assert(d5.fits);
        assert(d4.fits);
        assert(d3.fits);
        assert(d2.fits);
    }

    /// If the pattern of a null bulk string fits, so does every part of it.
    pub proof fn lemma_null_parts(self, slot: StateId, next: StateId, done: bool)
        requires
            self.null(slot, next, done).fits,
        ensures
            ({
                let d1 = self.again(slot).steps(seq![0x24, 0x2D, 0x31], None, true);
                let d2 = d1.steps(crlf(), Some(next), true);
                &&& self.fits
                &&& d1.fits
                &&& d2.fits
            }),
    {
        let d0 = self.again(slot);
        let d1 = d0.steps(seq![0x24, 0x2D, 0x31], None, true);
        let d2 = d1.steps(crlf(), Some(next), true);
        d0.lemma_steps(seq![0x24, 0x2D, 0x31], None, true);
        d1.lemma_steps(crlf(), Some(next), true);
        d2.lemma_with(Action::Done);
    }

    /// If the pattern of a simple string, an error or an integer fits, so does
    /// every part of it.
    pub proof fn lemma_simple_parts(
        self,
        slot: StateId,
        next: StateId,
        mid: Option<MatchId>,
        done: bool,
    )
        requires
            self.simple(slot, next, mid, done).fits,
        ensures
            ({
                let d1 = self.again(slot).choice(
                    seq![seq![0x2B], seq![0x2D], seq![0x3A]],
                    false,
                );
                let d2 = d1.with_if(mid is Some, Action::StartCapture(mid->0));
                let d3 = d2.any(1, None);
                let d4 = d3.with_if(mid is Some, Action::EndCapture(mid->0));
                let d5 = d4.steps(crlf(), Some(next), true);
                &&& self.fits
                &&& d1.fits
                &&& d2.fits
                &&& d3.fits
                &&& d4.fits
                &&& d5.fits
                &&& self.simple(slot, next, mid, done).state == next
            }),
    {
        let kinds = seq![seq![0x2Bu8], seq![0x2Du8], seq![0x3Au8]];
        let d0 = self.again(slot);
        let d1 = d0.choice(kinds, false);
        let d2 = d1.with_if(mid is Some, Action::StartCapture(mid->0));
        let d3 = d2.any(1, None);
        let d4 = d3.with_if(mid is Some, Action::EndCapture(mid->0));
        let d5 = d4.steps(crlf(), Some(next), true);
        d0.lemma_choice(kinds, false);
        d1.lemma_with(Action::StartCapture(mid->0));
        d2.lemma_any(1, None);
        d3.lemma_with(Action::EndCapture(mid->0));
        d4.lemma_steps(crlf(), Some(next), true);
        d5.lemma_with(Action::Done);
        assert(d5.fits);
        assert(d4.fits);
        assert(d3.fits);
        assert(d2.fits);
    }

    /// If the patterns of an element fit, so does each of them, and it does not
    /// matter which pattern was built before them.
    pub proof fn lemma_element_parts(self, slot: StateId, mid: Option<MatchId>, done: bool)
        requires
            self.element(slot, mid, done).fits,
        ensures
            ({
                let bulk = self.bulk(slot, mid, done);
                let null = bulk.null(slot, bulk.state, done);
                &&& self.fits
                &&& bulk.fits
                &&& null.fits
                &&& self.again(slot) == Draft::start(self.auto, slot)
                &&& bulk.again(slot) == Draft::start(bulk.auto, slot)
                &&& null.again(slot) == Draft::start(null.auto, slot)
                &&& self.element(slot, mid, done) == Draft::start(self.auto, slot).element(
                    slot,
                    mid,
                    done,
                )
                &&& self.element(slot, mid, done).state == bulk.state
            }),
    {
        let bulk = self.bulk(slot, mid, done);
        let null = bulk.null(slot, bulk.state, done);
        null.lemma_simple_parts(slot, bulk.state, mid, done);
        bulk.lemma_null_parts(slot, bulk.state, done);
        self.lemma_bulk_parts(slot, mid, done);
        assert(self.again(slot) =~= Draft::start(self.auto, slot));
        assert(Draft::start(self.auto, slot).again(slot) =~= Draft::start(self.auto, slot));
    }

    /// If the pattern of an array that carries nothing fits, so does every part
    /// of it.
    pub proof fn lemma_empty_array_parts(self, spelling: Seq<u8>)
        requires
            self.empty_array(spelling).fits,
        ensures
            ({
                let d1 = self.again(INIT_STATE).steps(spelling, None, true);
                let d2 = d1.steps(crlf(), None, true);
                &&& self.fits
                &&& self.again(INIT_STATE) == Draft::start(self.auto, INIT_STATE)
                &&& self.empty_array(spelling) == Draft::start(
                    self.auto,
                    INIT_STATE,
                ).empty_array(spelling)
                &&& d1.fits
                &&& d2.fits
            }),
    {
        let d0 = self.again(INIT_STATE);
        let d1 = d0.steps(spelling, None, true);
        let d2 = d1.steps(crlf(), None, true);
        d0.lemma_steps(spelling, None, true);
        d1.lemma_steps(crlf(), None, true);
        d2.lemma_with(Action::Done);
        assert(d0 =~= Draft::start(self.auto, INIT_STATE));
        assert(Draft::start(self.auto, INIT_STATE).again(INIT_STATE) =~= d0);
    }

    /// If the pattern of the announcement of an array fits, so does every part
    /// of it.
    pub proof fn lemma_array_header_parts(self, n: nat)
        requires
            self.array_header(n).fits,
        ensures
            ({
                let d1 = self.again(INIT_STATE).steps(seq![0x2A], None, true);
                let d2 = d1.steps(digits(n), None, true);
                &&& self.fits
                &&& self.again(INIT_STATE) == Draft::start(self.auto, INIT_STATE)
                &&& d1.fits
                &&& d2.fits
            }),
    {
        let d0 = self.again(INIT_STATE);
        let d1 = d0.steps(seq![0x2A], None, true);
        let d2 = d1.steps(digits(n), None, true);
        d0.lemma_steps(seq![0x2A], None, true);
        d1.lemma_steps(digits(n), None, true);
        d2.lemma_steps(crlf(), None, true);
        assert(d0 =~= Draft::start(self.auto, INIT_STATE));
    }

    /// If the patterns of the elements of an array fit, so do those of the
    /// first few of them.
    pub proof fn lemma_elements_less(self, args: Seq<Option<MatchId>>, n: nat, k: nat, m: nat)
        requires
            k <= m,
            self.elements(args, n, m).fits,
        ensures
            self.elements(args, n, k).fits,
        decreases m,
    {
        if k < m {
            let d = self.elements(args, n, (m - 1) as nat);
            d.lemma_element_parts(d.state, args[m - 1], m == n);
            self.lemma_elements_less(args, n, k, (m - 1) as nat);
        }
    }

    /// If the patterns of arrays fit, so do those of the shorter ones.
    pub proof fn lemma_arrays_less(self, args: Seq<Option<MatchId>>, k: nat, n: nat)
        requires
            k <= n,
            self.arrays(args, n).fits,
        ensures
            self.arrays(args, k).fits,
        decreases n,
    {
        if k < n {
            let d = self.arrays(args, (n - 1) as nat);
            let h = d.array_header(n);
            h.lemma_elements_less(args, n, 0, n);
            d.lemma_array_header_parts(n);
            self.lemma_arrays_less(args, k, (n - 1) as nat);
        }
    }
}

} // verus!

//! What a parser program makes of a message.
//!
//! The parser program walks a message byte by byte. It follows the transition
//! the state it is in has for the byte, or else the one that state has for any
//! byte, or else the one it would follow from [`ANY_STATE`], and runs the
//! action the transition carries.

use super::action::{Action, Effect};
use super::model::{Auto, ANY_INPUT, ANY_STATE, INIT_STATE};
use crate::{MatchId, StateId};
use vstd::prelude::*;

verus! {

/// What a walk reports once it is done.
#[verifier::ext_equal]
pub struct Report {
    /// The number of bytes it took.
    pub consumed: int,

    /// The bytes captured under each match id.
    pub captures: Map<MatchId, Seq<u8>>,
}

/// How far a walk has come.
#[verifier::ext_equal]
pub struct Run {
    /// The state the automaton is in.
    pub state: StateId,

    /// The length read so far.
    pub len: nat,

    /// Where the captures that were opened begin.
    pub starts: Map<MatchId, int>,

    /// The bytes captured so far.
    pub captures: Map<MatchId, Seq<u8>>,
}

/// Whether `c` is an ASCII digit.
pub open spec fn is_digit(c: u8) -> bool {
    0x30 <= c <= 0x39
}

impl Run {
    /// The walk before the first byte of a message.
    pub open spec fn start() -> Run {
        Run { state: INIT_STATE, len: 0, starts: Map::empty(), captures: Map::empty() }
    }

    /// The walk in another state.
    pub open spec fn at(self, state: StateId) -> Run {
        Run { state, ..self }
    }

    /// The walk with `bytes` captured under `mid`, if there is one.
    pub open spec fn captured(self, mid: Option<MatchId>, bytes: Seq<u8>) -> Run {
        match mid {
            Some(mid) => Run { captures: self.captures.insert(mid, bytes), ..self },
            None => self,
        }
    }

    /// Where the capture `mid` begins, which is the beginning of the message
    /// unless it was opened.
    pub open spec fn start_of(self, mid: MatchId) -> int {
        if self.starts.contains_key(mid) {
            self.starts[mid]
        } else {
            0
        }
    }
}

impl<A: Effect> Auto<A> {
    /// The transition out of `state` for the byte `c`, if there is one: the one
    /// that reads `c` or else the one that reads any byte.
    pub open spec fn reads(self, state: StateId, c: u8) -> Option<(StateId, Option<A>)> {
        if self.has(state, c as u16) {
            Some((self.to(state, c as u16), self.action(state, c as u16)))
        } else if self.has(state, ANY_INPUT) {
            Some((self.to(state, ANY_INPUT), self.action(state, ANY_INPUT)))
        } else {
            None
        }
    }

    /// The state a walk that is in `state` gets to by reading `c`, and the
    /// action it runs.
    pub open spec fn next(self, state: StateId, c: u8) -> (StateId, Option<A>) {
        match self.reads(state, c) {
            Some(next) => next,
            None => match self.reads(ANY_STATE, c) {
                Some(next) => next,
                None => (ANY_STATE, None),
            },
        }
    }

    /// What a walk over `msg` reports that has come to its `i`th byte as `run`
    /// says, or `None` if it is not done by the end of `msg`.
    pub open spec fn walk_on(self, msg: Seq<u8>, i: int, run: Run) -> Option<Report>
        decreases msg.len() - i,
    {
        if !(0 <= i < msg.len()) {
            None
        } else {
            let c = msg[i];
            let (to, action) = self.next(run.state, c);
            match action {
                None => self.walk_on(msg, i + 1, run.at(to)),
                Some(action) => match action.effect() {
                    Action::LenDigit => if is_digit(c) {
                        self.walk_on(
                            msg,
                            i + 1,
                            Run { state: to, len: run.len * 10 + (c - 0x30) as nat, ..run },
                        )
                    } else {
                        self.walk_on(msg, i + 1, Run { state: ANY_STATE, len: 0, ..run })
                    },
                    Action::Skip(mid) => {
                        let end = i + 1 + run.len;
                        if end > msg.len() {
                            None
                        } else {
                            let run = run.captured(mid, msg.subrange(i + 1, end));
                            self.walk_on(msg, end, Run { state: to, len: 0, ..run })
                        }
                    },
                    Action::StartCapture(mid) => self.walk_on(
                        msg,
                        i + 1,
                        Run { state: to, starts: run.starts.insert(mid, i + 1), ..run },
                    ),
                    Action::EndCapture(mid) => self.walk_on(
                        msg,
                        i + 1,
                        run.at(to).captured(
                            Some(mid),
                            msg.subrange(run.start_of(mid), i + 1),
                        ),
                    ),
                    Action::Done => Some(Report { consumed: i + 1, captures: run.captures }),
                    Action::EndCaptureAndDone(mid) => {
                        let run = run.captured(
                            Some(mid),
                            msg.subrange(run.start_of(mid), i + 1),
                        );
                        Some(Report { consumed: i + 1, captures: run.captures })
                    },
                },
            }
        }
    }

    /// What a walk over `msg` reports, or `None` if it is not done by the end
    /// of `msg`.
    pub open spec fn walk(self, msg: Seq<u8>) -> Option<Report> {
        self.walk_on(msg, 0, Run::start())
    }

    /// A walk that has come to [`ANY_STATE`] is never done if no transition
    /// leaves that state.
    pub proof fn lemma_walk_lost(self, msg: Seq<u8>, i: int, run: Run)
        requires
            run.state == ANY_STATE,
            forall|input: u16| !#[trigger] self.has(ANY_STATE, input),
        ensures
            self.walk_on(msg, i, run) is None,
        decreases msg.len() - i,
    {
        if 0 <= i < msg.len() {
            assert(!self.has(ANY_STATE, msg[i] as u16));
            assert(!self.has(ANY_STATE, ANY_INPUT));
            self.lemma_walk_lost(msg, i + 1, run);
        }
    }
}

} // verus!

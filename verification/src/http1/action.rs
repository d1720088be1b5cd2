//! What the HTTP/1.x parser does upon taking a transition.
//!
//! The kinds and flags below must stay in sync with the `HTTP1A_*` and `HTTP1F_*`
//! constants of http1/parser.bpf.c.

use crate::dfa::action as dfa;
use crate::dfa::action::{Comparable, Effect};
use crate::MatchId;
use vstd::prelude::*;

verus! {

/// The parser does nothing.
pub const HTTP1A_NONE: u8 = 0;

/// A capture starts at the byte behind the transition.
pub const HTTP1A_START_CAPTURE: u8 = 1;

/// The open capture ends at the byte the transition read.
pub const HTTP1A_END_CAPTURE: u8 = 2;

/// Parsing is complete, the rest of the message is not a header anymore.
pub const HTTP1F_DONE: u8 = 1;

/// The action a transition of the HTTP/1.x parser carries.
///
/// A transition either opens or closes a capture, and may on top of that end
/// the parse.
#[derive(Clone, Copy, Debug, PartialEq, Eq, Hash, Structural)]
pub enum Action {
    /// Starts capturing a range, which begins at the byte behind the
    /// transition and is identified by the capture id.
    StartCapture(MatchId),

    /// Ends the capture the id names at the byte the transition read, and
    /// reports the range it covers.
    EndCapture(MatchId),

    /// Terminates parsing.
    Done,

    /// Ends capturing a range and terminates parsing.
    EndCaptureAndDone(MatchId),
}

impl Action {
    /// The kind, the flags and the match id the parser program encodes the
    /// action with.
    pub open spec fn encoding(self) -> (u8, u8, u8) {
        match self {
            Action::Done => (HTTP1A_NONE, HTTP1F_DONE, 0),
            Action::StartCapture(mid) => (HTTP1A_START_CAPTURE, 0, mid.0),
            Action::EndCapture(mid) => (HTTP1A_END_CAPTURE, 0, mid.0),
            Action::EndCaptureAndDone(mid) => (HTTP1A_END_CAPTURE, HTTP1F_DONE, mid.0),
        }
    }

    /// Returns the kind, the flags and the match id the parser program encodes
    /// the action with.
    pub fn encode(self) -> (r: (u8, u8, u8))
        ensures
            r == self.encoding(),
    {
        match self {
            Action::Done => (HTTP1A_NONE, HTTP1F_DONE, 0),
            Action::StartCapture(mid) => (HTTP1A_START_CAPTURE, 0, mid.0),
            Action::EndCapture(mid) => (HTTP1A_END_CAPTURE, 0, mid.0),
            Action::EndCaptureAndDone(mid) => (HTTP1A_END_CAPTURE, HTTP1F_DONE, mid.0),
        }
    }
}

/// No two actions are encoded the same way, and none of them is encoded as
/// doing nothing, so the parser program can tell every action from every other
/// and from there being none.
pub proof fn law_actions_are_told_apart(a: Action, b: Action)
    ensures
        a.encoding() == b.encoding() ==> a == b,
        a.encoding() != (HTTP1A_NONE, 0u8, 0u8),
{
}

/// What the parser program makes of an encoded action is what the action does.
///
/// Of the kind, 1 opens a capture, 2 closes one and 0 does neither. Of the flags,
/// bit 0 ends the parse. The id is the one of the capture.
pub proof fn law_encoding_says_what_the_action_does(action: Action)
    ensures
        ({
            let (kind, flags, id) = action.encoding();
            &&& kind <= 2
            &&& flags < 2
            &&& kind == 1 <==> action is StartCapture
            &&& kind == 2 <==> action is EndCapture || action is EndCaptureAndDone
            &&& flags == 1 <==> action is Done || action is EndCaptureAndDone
            &&& action matches Action::StartCapture(mid) ==> id == mid.0
            &&& action matches Action::EndCapture(mid) ==> id == mid.0
            &&& action matches Action::EndCaptureAndDone(mid) ==> id == mid.0
        }),
{
}

/// A walk that runs the action does what a parser program does that reads it off
/// its encoding: a kind, flags and an id mean the same to either parser program.
pub proof fn law_encodings_mean_the_same(action: Action)
    ensures
        action.encoding() == action.effect().encoding(),
        ({
            let (kind, flags, id) = action.encoding();
            dfa::decoded(kind, flags, id) == Some(action.effect())
        }),
{
}

impl Comparable for Action {
    fn same(&self, other: &Self) -> (r: bool)
    {
        *self == *other
    }
}

impl Effect for Action {
    open spec fn effect(self) -> dfa::Action {
        match self {
            Action::StartCapture(mid) => dfa::Action::StartCapture(mid),
            Action::EndCapture(mid) => dfa::Action::EndCapture(mid),
            Action::Done => dfa::Action::Done,
            Action::EndCaptureAndDone(mid) => dfa::Action::EndCaptureAndDone(mid),
        }
    }
}

} // verus!

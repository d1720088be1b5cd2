//! What a DFA parser does upon taking a transition.
//!
//! The kinds and flags below must stay in sync with the `DFAA_*` and `DFAF_*`
//! constants of dfa/parser.bpf.h.

use crate::MatchId;
use vstd::prelude::*;

verus! {

/// The parser does nothing.
pub const DFAA_NONE: u8 = 0;

/// A capture starts at the byte behind the transition.
pub const DFAA_START_CAPTURE: u8 = 1;

/// The open capture ends at the byte the transition read.
pub const DFAA_END_CAPTURE: u8 = 2;

/// The byte the transition read is the next decimal digit of a length.
pub const DFAA_LEN_DIGIT: u8 = 3;

/// The bytes behind the transition are skipped, as many as the length read so
/// far says.
pub const DFAA_SKIP: u8 = 4;

/// Parsing is complete, the rest of the message is not to be parsed.
pub const DFAF_DONE: u8 = 1;

/// The bytes a [`DFAA_SKIP`] skips are captured.
pub const DFAF_CAPTURE: u8 = 2;

/// The action a transition of a DFA parser carries.
///
/// A transition either opens or closes a capture, reads a length or skips as
/// many bytes as it says, and may on top of that end the parse.
#[derive(Clone, Copy, Debug, PartialEq, Eq, Hash, Structural)]
pub enum Action {
    /// Starts capturing a range, which begins at the byte behind the
    /// transition and is identified by the capture id.
    StartCapture(MatchId),

    /// Ends the capture the id names at the byte the transition read.
    EndCapture(MatchId),

    /// Terminates parsing.
    Done,

    /// Ends capturing a range and terminates parsing.
    EndCaptureAndDone(MatchId),

    /// Reads the byte of the transition as the next decimal digit of a length.
    LenDigit,

    /// Skips as many bytes behind the transition as the length read so far
    /// says, without walking the DFA over them, and captures them under the
    /// match id if there is one.
    Skip(Option<MatchId>),
}

impl Action {
    /// The kind, the flags and the match id the parser program encodes the
    /// action with.
    pub open spec fn encoding(self) -> (u8, u8, u8) {
        match self {
            Action::Done => (DFAA_NONE, DFAF_DONE, 0),
            Action::StartCapture(mid) => (DFAA_START_CAPTURE, 0, mid.0),
            Action::EndCapture(mid) => (DFAA_END_CAPTURE, 0, mid.0),
            Action::EndCaptureAndDone(mid) => (DFAA_END_CAPTURE, DFAF_DONE, mid.0),
            Action::LenDigit => (DFAA_LEN_DIGIT, 0, 0),
            Action::Skip(None) => (DFAA_SKIP, 0, 0),
            Action::Skip(Some(mid)) => (DFAA_SKIP, DFAF_CAPTURE, mid.0),
        }
    }

    /// Returns the kind, the flags and the match id the parser program encodes
    /// the action with.
    pub fn encode(self) -> (r: (u8, u8, u8))
        ensures
            r == self.encoding(),
    {
        match self {
            Action::Done => (DFAA_NONE, DFAF_DONE, 0),
            Action::StartCapture(mid) => (DFAA_START_CAPTURE, 0, mid.0),
            Action::EndCapture(mid) => (DFAA_END_CAPTURE, 0, mid.0),
            Action::EndCaptureAndDone(mid) => (DFAA_END_CAPTURE, DFAF_DONE, mid.0),
            Action::LenDigit => (DFAA_LEN_DIGIT, 0, 0),
            Action::Skip(None) => (DFAA_SKIP, 0, 0),
            Action::Skip(Some(mid)) => (DFAA_SKIP, DFAF_CAPTURE, mid.0),
        }
    }
}

/// No two actions are encoded the same way, and none of them is encoded as
/// doing nothing, so the parser program can tell every action from every other
/// and from there being none.
pub proof fn law_actions_are_told_apart(a: Action, b: Action)
    ensures
        a.encoding() == b.encoding() ==> a == b,
        a.encoding() != (DFAA_NONE, 0u8, 0u8),
{
}

/// What the parser program makes of an encoded action is what the action does.
///
/// Of the kind, 1 opens a capture and 2 closes one, 3 reads a digit of a length, 4
/// skips the bytes the length says and 0 does neither. Of the flags, bit 0 ends
/// the parse and bit 1 captures the bytes that are skipped. The id is the one of
/// the capture.
pub proof fn law_encoding_says_what_the_action_does(action: Action)
    ensures
        ({
            let (kind, flags, id) = action.encoding();
            &&& kind <= 4
            &&& flags < 4
            &&& kind == 1 <==> action is StartCapture
            &&& kind == 2 <==> action is EndCapture || action is EndCaptureAndDone
            &&& kind == 3 <==> action is LenDigit
            &&& kind == 4 <==> action is Skip
            &&& flags as int % 2 == 1 <==> action is Done || action is EndCaptureAndDone
            &&& flags as int / 2 == 1 <==> exists|mid: MatchId| action == Action::Skip(Some(mid))
            &&& action matches Action::StartCapture(mid) ==> id == mid.0
            &&& action matches Action::EndCapture(mid) ==> id == mid.0
            &&& action matches Action::EndCaptureAndDone(mid) ==> id == mid.0
            &&& action matches Action::Skip(Some(mid)) ==> id == mid.0
        }),
{
    if let Action::Skip(Some(mid)) = action {
        assert(action == Action::Skip(Some(mid)));
    }
}

/// The action a kind, flags and an id stand for, as the parser program reads them.
pub open spec fn decoded(kind: u8, flags: u8, id: u8) -> Option<Action> {
    let (done, captures) = (flags as int % 2 == 1, flags as int / 2 % 2 == 1);
    if kind == 1 {
        Some(Action::StartCapture(MatchId(id)))
    } else if kind == 2 {
        Some(
            if done {
                Action::EndCaptureAndDone(MatchId(id))
            } else {
                Action::EndCapture(MatchId(id))
            },
        )
    } else if kind == 3 {
        Some(Action::LenDigit)
    } else if kind == 4 {
        Some(
            Action::Skip(
                if captures {
                    Some(MatchId(id))
                } else {
                    None
                },
            ),
        )
    } else if done {
        Some(Action::Done)
    } else {
        None
    }
}

/// The parser program reads an action as the one that was encoded.
pub proof fn law_action_is_read_as_it_was_written(action: Action)
    ensures
        ({
            let (kind, flags, id) = action.encoding();
            decoded(kind, flags, id) == Some(action)
        }),
{
}

/// An action that can be told apart from others of its kind.
pub trait Comparable: Copy {
    /// Returns whether the two actions are the same.
    fn same(&self, other: &Self) -> (r: bool)
        ensures
            r == (*self == *other),
    ;
}

impl Comparable for Action {
    fn same(&self, other: &Self) -> (r: bool)
    {
        *self == *other
    }
}

/// An action a walk over the bytes of a message can run.
pub trait Effect: Comparable {
    /// What the action does to the walk.
    spec fn effect(self) -> Action;
}

impl Effect for Action {
    open spec fn effect(self) -> Action {
        self
    }
}

} // verus!

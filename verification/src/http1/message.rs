//! HTTP/1.x messages, and what a parser is to capture of them.

use super::label::{begins, is_method, is_name_byte, preface_bytes, status_bytes, Patterns};
use super::shape::{field_id, id_of, method_key, path_key, status_key, Config};
use crate::dfa::model::{lower, upper};
use crate::MatchId;
use vstd::prelude::*;

verus! {

/// Bytes in lower case.
pub open spec fn lowered(bytes: Seq<u8>) -> Seq<u8> {
    bytes.map_values(|b: u8| lower(b as u16) as u8)
}

/// Bytes in upper case.
pub open spec fn uppered(bytes: Seq<u8>) -> Seq<u8> {
    bytes.map_values(|b: u8| upper(b as u16) as u8)
}

/// Whether every byte is a space or a tab.
pub open spec fn is_blank(bytes: Seq<u8>) -> bool {
    forall|i: int| 0 <= i < bytes.len() ==> #[trigger] bytes[i] == 0x20 || bytes[i] == 0x09
}

/// Whether no byte is a line feed.
pub open spec fn on_one_line(bytes: Seq<u8>) -> bool {
    forall|i: int| 0 <= i < bytes.len() ==> #[trigger] bytes[i] != 0x0A
}

/// Whether every byte may be part of the name of a field.
pub open spec fn is_name(bytes: Seq<u8>) -> bool {
    forall|i: int| 0 <= i < bytes.len() ==> is_name_byte(#[trigger] bytes[i] as u16)
}

/// The end of a line: a line feed, with carriage returns before it.
pub open spec fn line_break(crs: nat) -> Seq<u8> {
    Seq::new(crs, |i: int| 0x0Du8).push(0x0A)
}

/// A line of the header block.
pub struct Line {
    /// The name of the field.
    pub name: Seq<u8>,

    /// The whitespace before the colon.
    pub before: Seq<u8>,

    /// The whitespace behind it.
    pub after: Seq<u8>,

    /// The value of the field.
    pub value: Seq<u8>,

    /// The number of carriage returns at the end of the line.
    pub crs: nat,
}

impl Line {
    /// Whether the line is one: its value neither begins with whitespace nor
    /// with a carriage return, and does not end with one.
    pub open spec fn wf(self) -> bool {
        &&& is_name(self.name)
        &&& is_blank(self.before)
        &&& is_blank(self.after)
        &&& on_one_line(self.value)
        &&& self.value.len() > 0 ==> {
            &&& self.value[0] != 0x20
            &&& self.value[0] != 0x09
            &&& self.value[0] != 0x0D
            &&& self.value.last() != 0x0D
        }
    }

    /// The bytes of the line.
    pub open spec fn bytes(self) -> Seq<u8> {
        self.name + self.before + seq![0x3A] + self.after + self.value + line_break(self.crs)
    }
}

/// The first line of a message.
pub enum First {
    /// A request line. What follows the blank behind the path is the rest of it,
    /// whichever version of the protocol that names.
    Request { method: Seq<u8>, path: Seq<u8>, rest: Seq<u8> },

    /// A status line.
    Status { version: Seq<u8>, code: Seq<u8>, reason: Seq<u8> },

    /// Another line.
    Other(Seq<u8>),
}

impl First {
    /// Whether the line is one, for a parser that has `patterns`.
    pub open spec fn wf(self, patterns: Patterns) -> bool {
        match self {
            First::Request { method, path, rest } => {
                &&& patterns.request
                &&& is_method(uppered(method))
                &&& path.len() > 0
                &&& on_one_line(path)
                &&& forall|i: int| 0 <= i < path.len() ==> #[trigger] path[i] != 0x20
                &&& on_one_line(rest)
            },
            First::Status { version, code, reason } => {
                &&& patterns.status
                &&& uppered(version) == status_bytes()
                &&& code.len() == 3
                &&& on_one_line(code)
                &&& reason.len() > 0
                &&& on_one_line(reason)
            },
            First::Other(bytes) => {
                &&& on_one_line(bytes)
                &&& patterns.request ==> forall|n: int|
                    0 <= n <= bytes.len() ==> !is_method(#[trigger] uppered(bytes).take(n))
                &&& patterns.status ==> !begins(uppered(bytes), status_bytes())
                &&& patterns.preface ==> !begins(preface_bytes(), uppered(bytes).push(0x0A))
            },
        }
    }

    /// The bytes of the line.
    pub open spec fn bytes(self) -> Seq<u8> {
        match self {
            First::Request { method, path, rest } => method + seq![0x20] + path + seq![0x20] + rest
                + line_break(0),
            First::Status { version, code, reason } => version + code + reason + line_break(0),
            First::Other(bytes) => bytes + line_break(0),
        }
    }
}

/// The captures with `bytes` captured under `mid`, if there is one.
pub open spec fn with_capture(
    captures: Map<MatchId, Seq<u8>>,
    mid: Option<MatchId>,
    bytes: Seq<u8>,
) -> Map<MatchId, Seq<u8>> {
    match mid {
        Some(mid) => captures.insert(mid, bytes),
        None => captures,
    }
}

impl Config {
    /// What is captured of the first line.
    pub open spec fn of_first(self, first: First) -> Map<MatchId, Seq<u8>> {
        match first {
            First::Request { method, path, rest } => with_capture(
                with_capture(Map::empty(), id_of(self.captures, method_key()), method),
                id_of(self.captures, path_key()),
                path,
            ),
            First::Status { version, code, reason } => with_capture(
                Map::empty(),
                id_of(self.captures, status_key()),
                code,
            ),
            First::Other(bytes) => Map::empty(),
        }
    }

    /// What has been captured behind a line of the header block, given what was
    /// captured before it. A value that is empty is not captured.
    pub open spec fn of_line(
        self,
        captures: Map<MatchId, Seq<u8>>,
        line: Line,
    ) -> Map<MatchId, Seq<u8>> {
        if line.value.len() > 0 {
            with_capture(captures, field_id(self.captures, lowered(line.name)), line.value)
        } else {
            captures
        }
    }

    /// What has been captured behind several lines of the header block.
    pub open spec fn of_lines(
        self,
        captures: Map<MatchId, Seq<u8>>,
        lines: Seq<Line>,
    ) -> Map<MatchId, Seq<u8>>
        decreases lines.len(),
    {
        if lines.len() == 0 {
            captures
        } else {
            self.of_lines(self.of_line(captures, lines[0]), lines.drop_first())
        }
    }
}

/// The bytes of several lines.
pub open spec fn bytes_of(lines: Seq<Line>) -> Seq<u8>
    decreases lines.len(),
{
    if lines.len() == 0 {
        Seq::empty()
    } else {
        lines[0].bytes() + bytes_of(lines.drop_first())
    }
}

/// Whether every line is one.
pub open spec fn are_lines(lines: Seq<Line>) -> bool {
    forall|i: int| 0 <= i < lines.len() ==> (#[trigger] lines[i]).wf()
}

} // verus!

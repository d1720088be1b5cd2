//! The names Beeper uses to address the fields of a request or status line,
//! see [`PseudoHeaderName`].

use crate::PseudoHeaderName;
use vstd::prelude::*;

verus! {

/// The method of a request, e.g. `GET`.
pub const METHOD: PseudoHeaderName = PseudoHeaderName::Method;

/// The path a request is addressed to, e.g. `/index.html`.
pub const PATH: PseudoHeaderName = PseudoHeaderName::Path;

/// The status code of a response, e.g. `200`.
pub const STATUS: PseudoHeaderName = PseudoHeaderName::Status;

/// The authority of a request, e.g. `example.com`.
pub const AUTHORITY: PseudoHeaderName = PseudoHeaderName::Authority;

/// The scheme of a request, e.g. `https`.
pub const SCHEME: PseudoHeaderName = PseudoHeaderName::Scheme;

/// Every name is the one of the field it is called after.
pub proof fn law_names_are_those_of_their_fields()
    ensures
        METHOD is Method,
        PATH is Path,
        STATUS is Status,
        AUTHORITY is Authority,
        SCHEME is Scheme,
{
}

} // verus!

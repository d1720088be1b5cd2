//! Application-layer parsing in eBPF.
//!
//! Beeper compiles a set of header patterns into a DFA, injects that DFA into
//! a pre-compiled BPF parser program and attaches the parser to another BPF
//! program with `freplace`. Messages are therefore parsed in the kernel, as
//! part of the program that uses the parser, and never have to be copied to
//! user space.
//!
//! This crate is everything about that which is decided in user space: the
//! patterns and the automaton they are compiled into, the tables the automaton
//! is injected as, and which functions of the target program are replaced. The
//! automaton is specified by what a walk over a message reports, see
//! [`dfa::walk`].

use vstd::prelude::*;
use vstd::string::*;

pub mod bench;
pub mod dfa;
pub mod greeting;
pub mod h1;
pub mod h2;
pub mod http1;
pub mod monitor;
pub mod probe;
pub mod pseudo_header;
pub mod resp2;
pub mod server;
pub mod text;

use httlib_huffman::EncoderError;
use text::{decimal, format_decimal};

verus! {

/// Identifies a state of the DFA.
///
/// State 0 is the state a message is parsed from, state 1 the one input that
/// matches no pattern leads back to.
pub type StateId = u16;

/// Identifies a captured range in the parse result.
///
/// It is the index the target program passes to the functions replaced with
/// `Parser::matched_fn` and `Parser::extract_fn`. Captures are numbered in the
/// order in which they are configured.
#[derive(Clone, Copy, Debug, PartialEq, Eq, Hash, Structural)]
pub struct MatchId(pub u8);

impl From<MatchId> for u8 {
    fn from(id: MatchId) -> (r: u8)
    {
        id.0
    }
}

impl vstd::std_specs::convert::FromSpecImpl<MatchId> for u8 {
    open spec fn obeys_from_spec() -> bool {
        true
    }

    open spec fn from_spec(id: MatchId) -> u8 {
        id.0
    }
}

/// The buffers a message can be parsed in.
#[derive(Clone, Copy, Debug, PartialEq, Eq, Hash, Structural)]
pub enum MessageBuffer {
    Skb,
    Msg,
    DynPtr,
}

/// One of the fields of a request or status line.
///
/// HTTP/2 carries them as pseudo-headers, HTTP/1.x as part of the first line
/// of a message. A `PseudoHeaderName` is spelled the way HTTP/2 puts it on the
/// wire, with the leading colon that tells it apart from a header field of the
/// same name, and addresses the same field in either protocol. The constants
/// of [`pseudo_header`] name the ones a parser understands.
#[derive(Clone, Copy, Debug, PartialEq, Eq, Hash, Structural)]
pub enum PseudoHeaderName {
    Method,
    Path,
    Status,
    Authority,
    Scheme,
}

impl PseudoHeaderName {
    /// The field as HTTP/2 spells it.
    pub open spec fn spelling(self) -> &'static str {
        match self {
            PseudoHeaderName::Method => ":method",
            PseudoHeaderName::Path => ":path",
            PseudoHeaderName::Status => ":status",
            PseudoHeaderName::Authority => ":authority",
            PseudoHeaderName::Scheme => ":scheme",
        }
    }

    /// Returns the field as HTTP/2 spells it, e.g. `:path`.
    pub fn as_str(&self) -> (r: &'static str)
        ensures
            r == self.spelling(),
    {
        match self {
            PseudoHeaderName::Method => ":method",
            PseudoHeaderName::Path => ":path",
            PseudoHeaderName::Status => ":status",
            PseudoHeaderName::Authority => ":authority",
            PseudoHeaderName::Scheme => ":scheme",
        }
    }

    /// Returns the bytes HTTP/2 spells the field with.
    pub fn as_bytes(&self) -> (r: &'static [u8])
        ensures
            r@ == self.spelling().spec_bytes(),
    {
        self.as_str().as_bytes()
    }
}

/// A field of a request or status line is spelled with a colon and the name of
/// the field, so that it is told from every header field, and no two of them are
/// spelled alike.
pub proof fn law_pseudo_headers_are_spelled_with_a_colon(name: PseudoHeaderName)
    ensures
        name is Method ==> name.spelling()@ == seq![':', 'm', 'e', 't', 'h', 'o', 'd'],
        name is Path ==> name.spelling()@ == seq![':', 'p', 'a', 't', 'h'],
        name is Status ==> name.spelling()@ == seq![':', 's', 't', 'a', 't', 'u', 's'],
        name is Authority ==> name.spelling()@ == seq![
            ':', 'a', 'u', 't', 'h', 'o', 'r', 'i', 't', 'y',
        ],
        name is Scheme ==> name.spelling()@ == seq![':', 's', 'c', 'h', 'e', 'm', 'e'],
{
    reveal_strlit(":method");
    reveal_strlit(":path");
    reveal_strlit(":status");
    reveal_strlit(":authority");
    reveal_strlit(":scheme");
    assert(":method"@ =~= seq![':', 'm', 'e', 't', 'h', 'o', 'd']);
    assert(":path"@ =~= seq![':', 'p', 'a', 't', 'h']);
    assert(":status"@ =~= seq![':', 's', 't', 'a', 't', 'u', 's']);
    assert(":authority"@ =~= seq![':', 'a', 'u', 't', 'h', 'o', 'r', 'i', 't', 'y']);
    assert(":scheme"@ =~= seq![':', 's', 'c', 'h', 'e', 'm', 'e']);
}

impl AsRef<str> for PseudoHeaderName {
    fn as_ref(&self) -> (r: &str)
        ensures
            r == self.spelling(),
    {
        self.as_str()
    }
}

/// The error of [`httlib_huffman::encode`].
#[verifier::external_type_specification]
#[verifier::external_body]
pub struct ExEncoderError(httlib_huffman::EncoderError);

/// The ways configuring a parser can fail.
#[derive(Debug, PartialEq)]
pub enum Error {
    /// The parser is already configured with as many captures as the parser
    /// program has room for. The limit is carried along.
    MatchLimitExceeded(usize),

    /// A header name could not be Huffman encoded, so there is no way to match
    /// it on the wire.
    InvalidEncoding(EncoderError),

    /// The parser cannot capture an argument that far behind in a command. The
    /// number of arguments it can tell apart is carried along.
    ArgLimitExceeded(usize),

    /// The patterns take more states, actions or inputs than the tables of the
    /// parser program have room for.
    ParserExceedsStateLimit,
}

impl From<EncoderError> for Error {
    fn from(err: EncoderError) -> (r: Error)
    {
        Error::InvalidEncoding(err)
    }
}

impl vstd::std_specs::convert::FromSpecImpl<EncoderError> for Error {
    open spec fn obeys_from_spec() -> bool {
        true
    }

    open spec fn from_spec(err: EncoderError) -> Error {
        Error::InvalidEncoding(err)
    }
}

/// Formats `err` with the `Display` of [`EncoderError`], which writes the same
/// sentence for every value of it.
#[verifier::external_body]
fn format_encoder_error(err: &EncoderError) -> (r: String)
    ensures
        r@ == "Invalid input character."@,
{
    format!("{err}")
}

impl Error {
    /// The sentence that says what went wrong.
    pub open spec fn message(self) -> Seq<char> {
        match self {
            Error::MatchLimitExceeded(limit) => "a parser captures at most "@ + decimal(
                limit as nat,
            ) + " ranges"@,
            Error::InvalidEncoding(_) => "the header name cannot be Huffman encoded: "@
                + "Invalid input character."@,
            Error::ArgLimitExceeded(limit) => "a command has at most "@ + decimal(limit as nat)
                + " arguments"@,
            Error::ParserExceedsStateLimit => "the patterns do not fit into the parser program"@,
        }
    }

    /// Returns the sentence that says what went wrong.
    pub fn to_string(&self) -> (r: String)
        ensures
            r@ == self.message(),
    {
        match self {
            Error::MatchLimitExceeded(limit) => {
                let mut s = "a parser captures at most ".to_owned();
                s.append(format_decimal(*limit).as_str());
                s.append(" ranges");
                s
            },
            Error::InvalidEncoding(err) => {
                let mut s = "the header name cannot be Huffman encoded: ".to_owned();
                s.append(format_encoder_error(err).as_str());
                s
            },
            Error::ArgLimitExceeded(limit) => {
                let mut s = "a command has at most ".to_owned();
                s.append(format_decimal(*limit).as_str());
                s.append(" arguments");
                s
            },
            Error::ParserExceedsStateLimit => {
                "the patterns do not fit into the parser program".to_owned()
            },
        }
    }
}

} // verus!

//! Which parser programs replace which functions of the target program.

use super::action::Comparable;
use super::parser::{spelled, FnNames};
use super::table::{Limits, TableError, Tables};
use super::Dfa;
use crate::MessageBuffer;
use vstd::prelude::*;
use vstd::string::*;

verus! {

/// The programs a parser is made of.
#[derive(Clone, Copy, Debug, PartialEq, Eq, Hash, Structural)]
pub enum Program {
    ParseMsg,
    ParseSkb,
    ParseBuf,
    Matched,
    ExtractMatchMsg,
    ExtractMatchSkb,
    ExtractMatchBuf,
    GetDtEntry,
}

/// The functions of the target program a parser is configured to replace.
#[verifier::ext_equal]
pub struct Replaced {
    pub parse_fns: Map<MessageBuffer, Seq<char>>,
    pub matched_fn: Option<Seq<char>>,
    pub extract_fns: Map<MessageBuffer, Seq<char>>,
    pub get_dt_entry_fn: Option<Seq<char>>,
}

/// The name of the function for `buf`, if there is one.
pub open spec fn name_in(names: Map<MessageBuffer, Seq<char>>, buf: MessageBuffer) -> Option<
    Seq<char>,
> {
    if names.contains_key(buf) {
        Some(names[buf])
    } else {
        None
    }
}

impl Replaced {
    /// The function `program` replaces, if it replaces one.
    pub open spec fn function_of(self, program: Program) -> Option<Seq<char>> {
        match program {
            Program::ParseMsg => name_in(self.parse_fns, MessageBuffer::Msg),
            Program::ParseSkb => name_in(self.parse_fns, MessageBuffer::Skb),
            Program::ParseBuf => name_in(self.parse_fns, MessageBuffer::DynPtr),
            Program::Matched => self.matched_fn,
            Program::ExtractMatchMsg => name_in(self.extract_fns, MessageBuffer::Msg),
            Program::ExtractMatchSkb => name_in(self.extract_fns, MessageBuffer::Skb),
            Program::ExtractMatchBuf => name_in(self.extract_fns, MessageBuffer::DynPtr),
            Program::GetDtEntry => self.get_dt_entry_fn,
        }
    }
}

/// Whether the list holds every program that replaces a function, once and with
/// the name of that function, and no other.
pub open spec fn carries_out(programs: Seq<(Program, String)>, replaced: Replaced) -> bool {
    &&& forall|i: int|
        0 <= i < programs.len() ==> replaced.function_of((#[trigger] programs[i]).0) == Some(
            programs[i].1@,
        )
    &&& forall|p: Program| #[trigger]
        replaced.function_of(p) is Some ==> exists|i: int|
            0 <= i < programs.len() && (#[trigger] programs[i]).0 == p
    &&& forall|i: int, j: int|
        0 <= i < j < programs.len() ==> (#[trigger] programs[i]).0 != (#[trigger] programs[j]).0
}

/// Whether `program` is loaded in place of the function `name`.
pub open spec fn replaces(
    programs: Seq<(Program, String)>,
    program: Program,
    name: Seq<char>,
) -> bool {
    exists|i: int|
        0 <= i < programs.len() && (#[trigger] programs[i]).0 == program && programs[i].1@ == name
}

/// Every function is replaced by the program for what it does and for the buffer
/// it does so with: the programs that parse replace the parse functions, those
/// that extract matches the extract functions, the one for `sk_msg` those for
/// [`MessageBuffer::Msg`], the one for `sk_skb` those for [`MessageBuffer::Skb`],
/// and the one for buffers those for [`MessageBuffer::DynPtr`].
pub proof fn law_functions_are_replaced_by_their_programs(
    programs: Seq<(Program, String)>,
    replaced: Replaced,
    name: Seq<char>,
)
    requires
        carries_out(programs, replaced),
    ensures
        replaces(programs, Program::ParseMsg, name) <==> replaced.parse_fns.contains_pair(
            MessageBuffer::Msg,
            name,
        ),
        replaces(programs, Program::ParseSkb, name) <==> replaced.parse_fns.contains_pair(
            MessageBuffer::Skb,
            name,
        ),
        replaces(programs, Program::ParseBuf, name) <==> replaced.parse_fns.contains_pair(
            MessageBuffer::DynPtr,
            name,
        ),
        replaces(programs, Program::ExtractMatchMsg, name) <==> replaced.extract_fns.contains_pair(
            MessageBuffer::Msg,
            name,
        ),
        replaces(programs, Program::ExtractMatchSkb, name) <==> replaced.extract_fns.contains_pair(
            MessageBuffer::Skb,
            name,
        ),
        replaces(programs, Program::ExtractMatchBuf, name) <==> replaced.extract_fns.contains_pair(
            MessageBuffer::DynPtr,
            name,
        ),
        replaces(programs, Program::Matched, name) <==> replaced.matched_fn == Some(name),
        replaces(programs, Program::GetDtEntry, name) <==> replaced.get_dt_entry_fn == Some(name),
{
    assert forall|p: Program| #[trigger] replaces(programs, p, name) <==> replaced.function_of(p)
        == Some(name) by {
        if replaced.function_of(p) == Some(name) {
            assert(replaced.function_of(p) is Some);
            let i = choose|i: int| 0 <= i < programs.len() && (#[trigger] programs[i]).0 == p;
            assert(replaced.function_of(programs[i].0) == Some(programs[i].1@));
        }
    }
}

/// No program is loaded but those that replace a function.
pub proof fn law_only_what_replaces_a_function_is_loaded(
    programs: Seq<(Program, String)>,
    replaced: Replaced,
)
    requires
        carries_out(programs, replaced),
        replaced.parse_fns == Map::<MessageBuffer, Seq<char>>::empty(),
        replaced.extract_fns == Map::<MessageBuffer, Seq<char>>::empty(),
        replaced.matched_fn is None,
        replaced.get_dt_entry_fn is None,
    ensures
        programs.len() == 0,
{
    if programs.len() > 0 {
        assert(replaced.function_of(programs[0].0) == Some(programs[0].1@));
    }
}

/// What attaching a parser takes: the programs to load, each with the function
/// it replaces, and the tables to write into them.
pub struct Attachment<A> {
    pub programs: Vec<(Program, String)>,
    pub tables: Tables<A>,
}

/// Adds `program` to the list if it replaces a function.
fn add_program(
    programs: &mut Vec<(Program, String)>,
    program: Program,
    name: Option<String>,
)
    ensures
        match name {
            Some(name) => final(programs)@ == old(programs)@.push((program, name)),
            None => final(programs)@ == old(programs)@,
        },
{
    if let Some(name) = name {
        programs.push((program, name));
    }
}

/// Returns the programs to load, each with the function it replaces.
fn programs_of(
    parse_fns: &FnNames,
    matched_fn: &Option<String>,
    extract_fns: &FnNames,
    get_dt_entry_fn: &Option<String>,
) -> (programs: Vec<(Program, String)>)
    ensures
        carries_out(
            programs@,
            (Replaced {
                parse_fns: parse_fns@,
                matched_fn: spelled(*matched_fn),
                extract_fns: extract_fns@,
                get_dt_entry_fn: spelled(*get_dt_entry_fn),
            }),
        ),
{
    let mut programs: Vec<(Program, String)> = Vec::new();
    add_program(&mut programs, Program::ParseMsg, parse_fns.get(MessageBuffer::Msg));
    let ghost p0 = programs@;
    add_program(&mut programs, Program::ParseSkb, parse_fns.get(MessageBuffer::Skb));
    let ghost p1 = programs@;
    add_program(&mut programs, Program::ParseBuf, parse_fns.get(MessageBuffer::DynPtr));
    let ghost p2 = programs@;
    add_program(&mut programs, Program::Matched, matched_fn.clone());
    let ghost p3 = programs@;
    add_program(&mut programs, Program::ExtractMatchMsg, extract_fns.get(MessageBuffer::Msg));
    let ghost p4 = programs@;
    add_program(&mut programs, Program::ExtractMatchSkb, extract_fns.get(MessageBuffer::Skb));
    let ghost p5 = programs@;
    add_program(&mut programs, Program::ExtractMatchBuf, extract_fns.get(MessageBuffer::DynPtr));
    let ghost p6 = programs@;
    add_program(&mut programs, Program::GetDtEntry, get_dt_entry_fn.clone());
    proof {
        let replaced = Replaced {
            parse_fns: parse_fns@,
            matched_fn: spelled(*matched_fn),
            extract_fns: extract_fns@,
            get_dt_entry_fn: spelled(*get_dt_entry_fn),
        };
        assert forall|p: Program| #[trigger] replaced.function_of(p) is Some implies exists|i: int|
            0 <= i < programs@.len() && (#[trigger] programs@[i]).0 == p by {
            match p {
                Program::ParseMsg => {
                    assert(programs@[p0.len() - 1].0 == p);
                },
                Program::ParseSkb => {
                    assert(programs@[p1.len() - 1].0 == p);
                },
                Program::ParseBuf => {
                    assert(programs@[p2.len() - 1].0 == p);
                },
                Program::Matched => {
                    assert(programs@[p3.len() - 1].0 == p);
                },
                Program::ExtractMatchMsg => {
                    assert(programs@[p4.len() - 1].0 == p);
                },
                Program::ExtractMatchSkb => {
                    assert(programs@[p5.len() - 1].0 == p);
                },
                Program::ExtractMatchBuf => {
                    assert(programs@[p6.len() - 1].0 == p);
                },
                Program::GetDtEntry => {
                    assert(programs@[programs@.len() - 1].0 == p);
                },
            }
        }
    }
    programs
}

/// Returns what attaching a parser takes that walks `dfa` and replaces the named
/// functions of the target program.
///
/// # Errors
///
/// Returns an error if the DFA does not fit into the tables of the parser
/// program.
pub(crate) fn attachment<A: Comparable>(
    dfa: &Dfa<A>,
    parse_fns: &FnNames,
    matched_fn: &Option<String>,
    extract_fns: &FnNames,
    get_dt_entry_fn: &Option<String>,
    limits: Limits,
) -> (r: Result<Attachment<A>, TableError>)
    requires
        dfa.wf(),
        dfa@.rows_in_bounds(),
        limits.actions <= 0x10000,
    ensures
        r is Ok <==> {
            &&& dfa@.num_states <= limits.states
            &&& dfa@.actions_fit(limits.actions as int)
            &&& dfa@.inputs_fit(limits.inputs as int)
        },
        match r {
            Ok(attachment) => {
                &&& attachment.tables.fits(limits)
                &&& attachment.tables.edges() == dfa@.edges
                &&& carries_out(
                    attachment.programs@,
                    (Replaced {
                        parse_fns: parse_fns@,
                        matched_fn: spelled(*matched_fn),
                        extract_fns: extract_fns@,
                        get_dt_entry_fn: spelled(*get_dt_entry_fn),
                    }),
                )
            },
            Err(err) => dfa@.refused_with(limits, err),
        },
{
    let programs = programs_of(parse_fns, matched_fn, extract_fns, get_dt_entry_fn);
    match dfa.inject(limits) {
        Ok(tables) => Ok(Attachment { programs, tables }),
        Err(err) => Err(err),
    }
}

} // verus!

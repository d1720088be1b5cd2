use beeper::dfa::action::Action;
use beeper::dfa::model::{ANY_INPUT, ANY_STATE, INIT_STATE};
use beeper::dfa::range::{limits, Bound};
use beeper::dfa::table::{Limits, TableError};
use beeper::dfa::Dfa;
use beeper::{MatchId, StateId};
use std::collections::HashMap;

type Edges = HashMap<(StateId, u16), (StateId, Option<Action>)>;

fn edges(dfa: &Dfa<Action>) -> Edges {
    dfa.iter_transitions()
        .into_iter()
        .map(|(from, input, to, action)| ((from, input), (to, action)))
        .collect()
}

/// The state `input` leads to from `from`, and the action it is read with last.
fn follow(edges: &Edges, from: StateId, input: &[u8]) -> Option<(StateId, Option<Action>)> {
    let mut at = (from, None);
    for b in input {
        at = *edges.get(&(at.0, *b as u16))?;
    }
    Some(at)
}

const DONE: Action = Action::Done;

#[test]
fn a_new_dfa_has_two_states_and_no_edges() {
    let dfa: Dfa<Action> = Dfa::new();
    assert_eq!(dfa.num_states(), 2);
    assert_eq!(dfa.num_edges(), 0);
    let dfa: Dfa<Action> = Dfa::with_reserved_states(7);
    assert_eq!(dfa.num_states(), 7);
}

#[test]
fn a_pattern_is_read_byte_by_byte() {
    let mut dfa = Dfa::new();
    dfa.start_pattern(INIT_STATE).push("abc").with(DONE);
    let edges = edges(&dfa);
    assert_eq!(dfa.num_states(), 5);
    assert_eq!(dfa.num_edges(), 3);
    assert_eq!(follow(&edges, INIT_STATE, b"abc"), Some((4, Some(DONE))));
    assert_eq!(follow(&edges, INIT_STATE, b"ab"), Some((3, None)));
    assert_eq!(follow(&edges, INIT_STATE, b"abC"), None);
}

#[test]
fn patterns_share_what_they_begin_with() {
    let mut dfa = Dfa::new();
    dfa.start_pattern(INIT_STATE).push_bytes(b"abc").with(DONE);
    dfa.start_pattern(INIT_STATE).push_bytes(b"abd").with(Action::LenDigit);
    let edges = edges(&dfa);
    assert_eq!(dfa.num_states(), 6);
    assert_eq!(follow(&edges, INIT_STATE, b"abc"), Some((4, Some(DONE))));
    assert_eq!(follow(&edges, INIT_STATE, b"abd"), Some((5, Some(Action::LenDigit))));
}

#[test]
fn a_pattern_is_read_in_either_case() {
    let mut dfa = Dfa::new();
    dfa.start_pattern(INIT_STATE).push_ci("a-B").with(DONE);
    let edges = edges(&dfa);
    for input in [b"a-b", b"A-B", b"a-B", b"A-b"] {
        assert_eq!(follow(&edges, INIT_STATE, input), Some((4, Some(DONE))));
    }
    assert_eq!(dfa.num_edges(), 5);
}

#[test]
fn one_of_several_strings_leads_to_one_state() {
    let mut dfa = Dfa::new();
    dfa.start_pattern(INIT_STATE)
        .push_options_ci(&["get", "put", "trace"])
        .with(DONE);
    let edges = edges(&dfa);
    let end = follow(&edges, INIT_STATE, b"TRACE").expect("read").0;
    for input in [b"get".as_slice(), b"GET", b"Put", b"trace"] {
        assert_eq!(follow(&edges, INIT_STATE, input), Some((end, Some(DONE))));
    }
}

#[test]
fn what_may_appear_is_read_any_number_of_times() {
    let mut dfa = Dfa::new();
    dfa.start_pattern(INIT_STATE)
        .push("a")
        .push_optional("\r", true)
        .push("\n")
        .with(DONE);
    let edges = edges(&dfa);
    let end = follow(&edges, INIT_STATE, b"a\n").expect("read");
    assert_eq!(end.1, Some(DONE));
    assert_eq!(follow(&edges, INIT_STATE, b"a\r\n"), Some(end));
    assert_eq!(follow(&edges, INIT_STATE, b"a\r\r\n"), Some(end));
}

#[test]
fn any_bytes_are_read_by_the_input_for_any_byte() {
    let mut dfa = Dfa::new();
    dfa.start_pattern(INIT_STATE).push("a").push_any(1, None).with(DONE).push("b");
    let at = edges(&dfa);
    let from = follow(&at, INIT_STATE, b"a").expect("read").0;
    let (any, action) = at[&(from, ANY_INPUT)];
    assert_eq!(action, Some(DONE));
    assert_eq!(at[&(any, ANY_INPUT)], (any, Some(DONE)));
    assert!(at.contains_key(&(any, b'b' as u16)));

    let mut dfa: Dfa<Action> = Dfa::new();
    dfa.start_pattern(INIT_STATE).push_any(2, Some(3)).push("x");
    let at = edges(&dfa);
    let one = at[&(INIT_STATE, ANY_INPUT)].0;
    let two = at[&(one, ANY_INPUT)].0;
    let three = at[&(two, ANY_INPUT)].0;
    assert!(!at.contains_key(&(one, b'x' as u16)));
    assert_eq!(at[&(two, b'x' as u16)], at[&(three, b'x' as u16)]);
}

#[test]
fn a_pattern_starts_over_where_its_end_leads_from_anywhere() {
    let mut dfa: Dfa<Action> = Dfa::new();
    dfa.start_pattern(INIT_STATE).push("a").restart_with("\n");
    let edges = edges(&dfa);
    assert_eq!(
        follow(&edges, INIT_STATE, b"a\n"),
        follow(&edges, ANY_STATE, b"\n")
    );
}

#[test]
fn an_action_is_put_on_every_edge_into_the_state() {
    let mut dfa = Dfa::new();
    dfa.start_pattern(INIT_STATE)
        .push_ci("a")
        .with(Action::StartCapture(MatchId(3)));
    let edges = edges(&dfa);
    let action = Some(Action::StartCapture(MatchId(3)));
    assert_eq!(edges[&(INIT_STATE, b'a' as u16)], (2, action));
    assert_eq!(edges[&(INIT_STATE, b'A' as u16)], (2, action));
}

#[test]
fn an_action_is_put_on_edges_that_were_there_before() {
    let mut dfa = Dfa::with_reserved_states(3);
    dfa.insert_edge(1, b'a' as u16, 2, None);
    dfa.insert_edge(1, b'b' as u16, 1, None);
    dfa.start_pattern(2).with(DONE);
    assert_eq!(
        edges(&dfa),
        HashMap::from([
            ((1, b'a' as u16), (2, Some(DONE))),
            ((1, b'b' as u16), (1, None)),
        ])
    );

    // the same action may be put there again
    dfa.start_pattern(0).push_to("c", 2).with(DONE);
    assert_eq!(edges(&dfa)[&(1, b'a' as u16)], (2, Some(DONE)));
    assert_eq!(edges(&dfa)[&(0, b'c' as u16)], (2, Some(DONE)));
}

#[test]
fn an_action_is_put_wherever_a_pattern_may_end() {
    let mut dfa = Dfa::new();
    dfa.start_pattern(INIT_STATE).push("a").push_any(0, Some(2)).with(DONE);
    let edges = edges(&dfa);
    let (first, action) = edges[&(INIT_STATE, b'a' as u16)];
    assert_eq!(action, Some(DONE));
    let (second, action) = edges[&(first, ANY_INPUT)];
    assert_eq!(action, Some(DONE));
    assert_eq!(edges[&(second, ANY_INPUT)].1, Some(DONE));
}

#[test]
fn an_edge_that_is_there_keeps_its_action() {
    let mut dfa = Dfa::with_reserved_states(4);
    dfa.insert_edge(2, 7, 3, Some(DONE));
    dfa.insert_edge(2, 7, 3, None);
    assert_eq!(edges(&dfa), HashMap::from([((2, 7), (3, Some(DONE)))]));
    assert_eq!(dfa.num_edges(), 1);
}

#[test]
fn a_string_has_room_if_there_are_state_ids_left() {
    let mut dfa: Dfa<Action> = Dfa::with_reserved_states(u16::MAX - 2);
    assert!(dfa.has_room_for(INIT_STATE, b"ab", DONE));
    assert!(!dfa.has_room_for(INIT_STATE, b"abc", DONE));
    dfa.start_pattern(INIT_STATE).push("ab");
    assert!(dfa.has_room_for(INIT_STATE, b"ab", DONE));
    assert!(!dfa.has_room_for(INIT_STATE, b"c", DONE));
}

#[test]
fn a_string_has_no_room_for_a_second_action() {
    let mut dfa: Dfa<Action> = Dfa::new();
    dfa.start_pattern(INIT_STATE).push("ab").with(DONE);
    assert!(dfa.has_room_for(INIT_STATE, b"ab", DONE));
    assert!(!dfa.has_room_for(INIT_STATE, b"ab", Action::LenDigit));
    assert!(dfa.has_room_for(INIT_STATE, b"a", Action::LenDigit));
    assert!(dfa.has_room_for(INIT_STATE, b"abc", Action::LenDigit));
}

#[test]
fn actions_of_the_parser_program_are_numbered() {
    assert_eq!(Action::LenDigit.encode().0, beeper::dfa::action::DFAA_LEN_DIGIT);
    let codes = [
        Action::LenDigit,
        Action::Skip(None),
        Action::Skip(Some(MatchId(0))),
        Action::StartCapture(MatchId(0)),
        Action::EndCapture(MatchId(0)),
        Action::Done,
        Action::EndCaptureAndDone(MatchId(0)),
    ]
    .map(|action| action.encode());
    for (i, a) in codes.iter().enumerate() {
        for b in &codes[i + 1..] {
            assert_ne!(a, b);
        }
    }
}

#[test]
fn tables_hold_every_transition_and_every_action_once() {
    let mut dfa = Dfa::new();
    dfa.start_pattern(INIT_STATE).push("ab").with(DONE);
    dfa.start_pattern(INIT_STATE).push("cd").with(DONE);
    let tables = dfa
        .inject(Limits { states: 6, inputs: 256, actions: 2 })
        .expect("fits");
    assert_eq!(tables.actions, [DONE]);
    assert_eq!(tables.cells.len(), 4);
    assert_eq!(tables.cells.iter().filter(|cell| cell.3 == 1).count(), 2);
    assert_eq!(tables.cells.iter().filter(|cell| cell.3 == 0).count(), 2);

    let err = dfa.inject(Limits { states: 5, inputs: 256, actions: 2 }).err();
    assert_eq!(err, Some(TableError::States { needed: 6, held: 5 }));
    let err = dfa.inject(Limits { states: 6, inputs: 256, actions: 1 }).err();
    assert_eq!(err, Some(TableError::Actions { held: 1 }));
    let err = dfa.inject(Limits { states: 6, inputs: 100, actions: 2 }).err();
    assert_eq!(err, Some(TableError::Input(100)));
}

#[test]
fn building_a_pattern_keeps_the_actions_of_the_others() {
    let mut dfa = Dfa::new();
    dfa.start_pattern(INIT_STATE).push("ab").with(DONE);
    let before = dfa.iter_transitions();
    assert_eq!(before.iter().filter(|t| t.3 == Some(DONE)).count(), 1);

    dfa.start_pattern(INIT_STATE).push("abc").push_optional("d", true).push("e");
    dfa.start_pattern(INIT_STATE).push("a").push_options_ci(&["x", "yz"]).push_any(1, Some(2));
    dfa.start_pattern(INIT_STATE).push("ab").with(DONE);
    let after = dfa.iter_transitions();
    assert!(before.iter().all(|t| after.contains(t)));
}

#[test]
fn what_does_not_fit_is_said_in_a_sentence() {
    let err = TableError::States { needed: 600, held: 512 };
    assert_eq!(err.to_string(), "the patterns take 600 states, the parser holds 512");
    assert_eq!(
        TableError::Actions { held: 64 }.to_string(),
        "the patterns take more actions than the 64 the parser holds"
    );
    assert_eq!(
        TableError::Input(256).to_string(),
        "the patterns read inputs the parser has no column for: 256"
    );
}

#[test]
fn bounds_say_how_often_something_may_appear() {
    assert_eq!(limits(Bound::Included(1), Bound::Unbounded), (1, None));
    assert_eq!(limits(Bound::Included(3), Bound::Included(3)), (3, Some(3)));
    assert_eq!(limits(Bound::Unbounded, Bound::Excluded(3)), (0, Some(2)));
    assert_eq!(limits(Bound::Excluded(1), Bound::Included(4)), (2, Some(4)));
    assert_eq!(limits(Bound::Unbounded, Bound::Excluded(0)), (0, Some(0)));

    let mut dfa: Dfa<Action> = Dfa::new();
    dfa.start_pattern(INIT_STATE)
        .push_any_within(Bound::Included(3), Bound::Included(3))
        .with(DONE);
    let edges = edges(&dfa);
    assert_eq!(dfa.num_edges(), 3);
    assert_eq!(edges[&(INIT_STATE, ANY_INPUT)], (2, None));
    assert_eq!(edges[&(3, ANY_INPUT)], (4, Some(DONE)));
}

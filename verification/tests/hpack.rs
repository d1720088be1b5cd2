use beeper::dfa::Dfa;
use beeper::h2::action::{Action, Kind, S_DEAD, S_FIELD, S_NAME, S_RESERVED};
use beeper::h2::hpack::insert_representations;
use beeper::{MatchId, StateId};
use std::collections::HashSet;

/// Returns a DFA holding nothing but the representations.
fn representations() -> Dfa<Action> {
    let mut dfa = Dfa::with_reserved_states(S_RESERVED);
    insert_representations(&mut dfa);

    dfa
}

/// Returns the states a representation is walked with. `S_DEAD` and `S_NAME`
/// are left out, as it is the patterns that give those their transitions.
fn representation_states() -> Vec<StateId> {
    (S_FIELD..S_RESERVED)
        .filter(|state| *state != S_NAME)
        .collect()
}

#[test]
fn every_representation_state_reads_every_byte() {
    let dfa = representations();

    for state in representation_states() {
        let inputs: HashSet<u16> = dfa
            .iter_transitions()
            .into_iter()
            .filter(|(from, ..)| *from == state)
            .map(|(_, input, _, _)| input)
            .collect();

        assert_eq!(
            inputs.len(),
            256,
            "state {state:?} does not read every byte"
        );
    }
}

#[test]
fn no_transition_leads_to_a_state_without_transitions() {
    let dfa = representations();
    let from: HashSet<StateId> = dfa
        .iter_transitions()
        .into_iter()
        .map(|(from, ..)| from)
        .collect();

    for (_, _, to, _) in dfa.iter_transitions() {
        assert!(
            to == S_DEAD || to == S_NAME || from.contains(&to),
            "state {to:?} leads nowhere"
        );
    }
}

#[test]
fn every_representation_transition_carries_an_action_of_its_own() {
    let dfa = representations();
    let states = representation_states();

    for (from, input, _, action) in dfa.iter_transitions() {
        if !states.contains(&from) {
            continue;
        }

        assert!(
            action.is_some(),
            "the transition {input:#04x} takes out of {from:?} carries no action"
        );
    }
}

#[test]
fn a_pattern_captures_where_it_ends() {
    let mut dfa = representations();
    dfa.start_pattern(S_NAME)
        .push_bytes(b"beep")
        .with(Action::capture(MatchId(0)));

    let captures: Vec<StateId> = dfa
        .iter_transitions()
        .into_iter()
        .filter(|(_, _, _, action)| action.is_some_and(|action| action.kind == Kind::Capture))
        .map(|(from, ..)| from)
        .collect();

    assert_eq!(
        captures.len(),
        1,
        "the capture is not on the last transition alone"
    );
}

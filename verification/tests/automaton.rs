use fsm::common::{Note, State, Symbol, Transition};
use fsm::dfa::{DfaError, DFA};

fn note(pitch: u8, velocity: u8, duration: u32) -> Note {
    Note { pitch, velocity, duration }
}

fn state(name: &str, transitions: Vec<(Symbol, Transition)>) -> State {
    State { name: name.to_string(), transitions }
}

/// The even/odd-`a` automaton: alphabet {a, b}; states s0, s1;
/// (s0,a)->s1, (s0,b)->s0, (s1,a)->s1, (s1,b)->s0; start s0; accepting {s1}.
fn scenario_a() -> DFA {
    let a = Symbol::new('a');
    let b = Symbol::new('b');
    let s0 = state(
        "s0",
        vec![
            (a, Transition { next_state: 1, note: note(65, 80, 1) }),
            (b, Transition { next_state: 0, note: note(66, 80, 2) }),
        ],
    );
    let s1 = state(
        "s1",
        vec![
            (a, Transition { next_state: 1, note: note(67, 80, 3) }),
            (b, Transition { next_state: 0, note: note(68, 80, 4) }),
        ],
    );
    DFA::new(vec![a, b], vec![s0, s1], 0, vec![1]).unwrap()
}

#[test]
fn scenario_a_accepts_single_a() {
    let mut dfa = scenario_a();
    assert_eq!(dfa.accepts(Symbol::from("a")), Ok(true));
    assert_eq!(dfa.current_state_index, 1);
    assert_eq!(dfa.get_current_state().name, "s1");
}

#[test]
fn scenario_a_rejects_ab() {
    let mut dfa = scenario_a();
    assert_eq!(dfa.accepts(Symbol::from("ab")), Ok(false));
    assert_eq!(dfa.current_state_index, 0);
}

#[test]
fn scenario_a_rejects_empty_input() {
    let mut dfa = scenario_a();
    assert_eq!(dfa.accepts(Symbol::from("")), Ok(false));
    assert_eq!(dfa.current_state_index, 0);
}

#[test]
fn scenario_b_missing_transition_fails() {
    let a = Symbol::new('a');
    let b = Symbol::new('b');
    let s0 = state(
        "s0",
        vec![
            (a, Transition { next_state: 1, note: note(65, 80, 1) }),
            (b, Transition { next_state: 0, note: note(66, 80, 2) }),
        ],
    );
    // s1 has no entry for b.
    let s1 = state("s1", vec![(a, Transition { next_state: 1, note: note(67, 80, 3) })]);
    let result = DFA::new(vec![a, b], vec![s0, s1], 0, vec![1]);
    match result {
        Err(DfaError::MissingTransition { state_name, symbol }) => {
            assert_eq!(state_name, "s1");
            assert_eq!(symbol, Symbol::Letter('b'));
        }
        _ => panic!("expected a missing-transition failure"),
    }
}

#[test]
fn missing_transition_message_names_the_pair() {
    let a = Symbol::new('a');
    let s0 = state("s0", vec![]);
    let result = DFA::new(vec![a], vec![s0], 0, vec![]);
    match result {
        Err(error) => {
            assert_eq!(error.message(), "Invalid DFA: Missing transition (s0, a)");
        }
        _ => panic!("expected a missing-transition failure"),
    }
}

#[test]
fn total_table_constructs() {
    let dfa = scenario_a();
    assert_eq!(dfa.current_state_index, 0);
    assert_eq!(dfa.song_time, 0);
    assert!(dfa.midi_client.bytes().is_empty());
    assert_eq!(dfa.get_current_state().name, "s0");
}

#[test]
fn two_runs_agree_on_everything_observable() {
    let mut first = scenario_a();
    let mut second = scenario_a();
    let input = "abbaab";
    let first_result = first.accepts(Symbol::from(input));
    let second_result = second.accepts(Symbol::from(input));
    assert_eq!(first_result, second_result);
    assert_eq!(first.current_state_index, second.current_state_index);
    assert_eq!(first.song_time, second.song_time);
    assert_eq!(first.midi_client.bytes(), second.midi_client.bytes());
}

#[test]
fn elapsed_time_is_the_sum_of_durations_taken() {
    let mut dfa = scenario_a();
    // a from s0 lasts 1, a from s1 lasts 3, b from s1 lasts 4.
    assert_eq!(dfa.accepts(Symbol::from("aab")), Ok(false));
    assert_eq!(dfa.song_time, 1 + 3 + 4);
}

#[test]
fn final_state_matches_a_direct_simulation() {
    let input = "abbab";
    let mut dfa = scenario_a();
    assert_eq!(dfa.accepts(Symbol::from(input)), Ok(false));

    // Oracle: fold the transition table over the input by hand.
    let oracle = scenario_a();
    let mut current: usize = oracle.start_state;
    for c in input.chars() {
        let symbol = Symbol::new(c);
        let table = &oracle.states[current].transitions;
        let transition = table.iter().find(|entry| entry.0 == symbol).unwrap().1;
        current = transition.next_state;
    }
    assert_eq!(dfa.current_state_index, current);
}

#[test]
fn verdict_equals_membership_in_accepting_set() {
    for input in ["", "a", "ab", "ba", "abab", "bbbba"] {
        let mut dfa = scenario_a();
        let verdict = dfa.accepts(Symbol::from(input)).unwrap();
        assert_eq!(verdict, dfa.is_accepting());
        assert_eq!(verdict, dfa.accepting_states.contains(&dfa.current_state_index));
    }
}

#[test]
fn step_with_undefined_symbol_reports_and_changes_nothing() {
    let mut dfa = scenario_a();
    let result = dfa.step(Symbol::new('c'));
    assert!(matches!(result, Err(DfaError::UndefinedSymbol { symbol: Symbol::Letter('c') })));
    assert_eq!(dfa.current_state_index, 0);
    assert_eq!(dfa.song_time, 0);
    assert!(dfa.midi_client.bytes().is_empty());
}

#[test]
fn accepts_stops_at_the_first_undefined_symbol() {
    let mut dfa = scenario_a();
    let result = dfa.accepts(Symbol::from("axb"));
    assert!(matches!(result, Err(DfaError::UndefinedSymbol { symbol: Symbol::Letter('x') })));
    // The step taken before the undefined symbol remains.
    assert_eq!(dfa.current_state_index, 1);
    assert_eq!(dfa.song_time, 1);
    // One note went out, and no end-of-stream sentinel.
    assert_eq!(dfa.midi_client.bytes().len(), 14);
    assert!(!dfa.midi_client.bytes().contains(&0xFF));
}

#[test]
fn undefined_symbol_message() {
    let error = DfaError::UndefinedSymbol { symbol: Symbol::Letter('x') };
    assert_eq!(error.message(), "Undefined symbol x");
}

#[test]
fn duplicate_alphabet_symbol_fails() {
    let a = Symbol::new('a');
    let s0 = state("s0", vec![(a, Transition { next_state: 0, note: note(1, 2, 3) })]);
    let result = DFA::new(vec![a, a], vec![s0], 0, vec![]);
    assert!(matches!(result, Err(DfaError::DuplicateSymbol { symbol: Symbol::Letter('a') })));
}

#[test]
fn epsilon_in_alphabet_fails() {
    let s0 = state("s0", vec![]);
    let result = DFA::new(vec![Symbol::Epsilon], vec![s0], 0, vec![]);
    assert!(matches!(result, Err(DfaError::EpsilonInAlphabet)));
}

#[test]
fn start_index_out_of_range_fails() {
    let a = Symbol::new('a');
    let s0 = state("s0", vec![(a, Transition { next_state: 0, note: note(1, 2, 3) })]);
    let result = DFA::new(vec![a], vec![s0], 7, vec![]);
    assert!(matches!(result, Err(DfaError::InvalidStateIndex { index: 7 })));
}

#[test]
fn accepting_index_out_of_range_fails() {
    let a = Symbol::new('a');
    let s0 = state("s0", vec![(a, Transition { next_state: 0, note: note(1, 2, 3) })]);
    let result = DFA::new(vec![a], vec![s0], 0, vec![0, 9]);
    assert!(matches!(result, Err(DfaError::InvalidStateIndex { index: 9 })));
}

#[test]
fn transition_target_out_of_range_fails() {
    let a = Symbol::new('a');
    let s0 = state("s0", vec![(a, Transition { next_state: 3, note: note(1, 2, 3) })]);
    let result = DFA::new(vec![a], vec![s0], 0, vec![]);
    assert!(matches!(result, Err(DfaError::InvalidStateIndex { index: 3 })));
}

#[test]
fn invalid_state_index_message() {
    let error = DfaError::InvalidStateIndex { index: 3 };
    assert_eq!(error.message(), "Invalid DFA: State index out of range");
}

#[test]
fn run_fits_is_true_for_ordinary_runs() {
    let dfa = scenario_a();
    assert!(dfa.run_fits(&Symbol::from("abab")));
    assert!(dfa.run_fits(&Symbol::from("")));
    // Symbols past the first undefined one do not count.
    assert!(dfa.run_fits(&Symbol::from("ax")));
}

#[test]
fn run_fits_is_false_when_elapsed_time_would_overflow() {
    let mut dfa = scenario_a();
    // The first `a` from s0 lasts 1 unit, which no longer fits.
    dfa.song_time = u64::MAX;
    assert!(!dfa.run_fits(&Symbol::from("a")));
    // With nothing to consume, nothing overflows.
    assert!(dfa.run_fits(&Symbol::from("")));
}

#[test]
fn symbols_from_string() {
    assert_eq!(
        Symbol::from("ab"),
        vec![Symbol::Letter('a'), Symbol::Letter('b')]
    );
    assert_eq!(Symbol::from(""), Vec::<Symbol>::new());
    assert_eq!(Symbol::new('q'), Symbol::Letter('q'));
}

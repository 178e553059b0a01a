use fsm::common::{Note, State, Symbol, Transition};
use fsm::dfa::DFA;
use fsm::midi_client::{MidiClient, END_OF_STREAM};

fn note(pitch: u8, velocity: u8, duration: u32) -> Note {
    Note { pitch, velocity, duration }
}

fn state(name: &str, transitions: Vec<(Symbol, Transition)>) -> State {
    State { name: name.to_string(), transitions }
}

fn scenario_a() -> DFA {
    let a = Symbol::new('a');
    let b = Symbol::new('b');
    let s0 = state(
        "s0",
        vec![
            (a, Transition { next_state: 1, note: note(65, 80, 1) }),
            (b, Transition { next_state: 0, note: note(66, 80, 2) }),
        ],
    );
    let s1 = state(
        "s1",
        vec![
            (a, Transition { next_state: 1, note: note(67, 80, 3) }),
            (b, Transition { next_state: 0, note: note(68, 80, 4) }),
        ],
    );
    DFA::new(vec![a, b], vec![s0, s1], 0, vec![1]).unwrap()
}

#[test]
fn note_wire_encoding_is_big_endian() {
    let mut client = MidiClient::new();
    client.send(&note(1, 2, 0x0102_0304), 0x0102_0304_0506_0708);
    assert_eq!(
        client.bytes(),
        &vec![1u8, 2, 1, 2, 3, 4, 1, 2, 3, 4, 5, 6, 7, 8]
    );
}

#[test]
fn close_queues_one_sentinel_byte() {
    let mut client = MidiClient::new();
    assert!(client.bytes().is_empty());
    client.close();
    assert_eq!(client.bytes(), &vec![0xFFu8]);
    assert_eq!(END_OF_STREAM, 0xFF);
}

#[test]
fn events_carry_cumulative_timestamps() {
    let mut client = MidiClient::new();
    client.send(&note(60, 100, 5), 0);
    client.send(&note(62, 100, 7), 5);
    let bytes = client.bytes();
    assert_eq!(bytes.len(), 28);
    // First event: pitch, velocity, duration 5, timestamp 0.
    assert_eq!(&bytes[0..2], &[60, 100]);
    assert_eq!(&bytes[2..6], &[0, 0, 0, 5]);
    assert_eq!(&bytes[6..14], &[0, 0, 0, 0, 0, 0, 0, 0]);
    // Second event: pitch, velocity, duration 7, timestamp 5.
    assert_eq!(&bytes[14..16], &[62, 100]);
    assert_eq!(&bytes[16..20], &[0, 0, 0, 7]);
    assert_eq!(&bytes[20..28], &[0, 0, 0, 0, 0, 0, 0, 5]);
}

#[test]
fn scenario_c_one_note_then_the_terminal_marker() {
    let mut dfa = scenario_a();
    assert_eq!(dfa.accepts(Symbol::from("a")), Ok(true));
    // Exactly one note event with timestamp 0, then exactly one sentinel.
    let expected: Vec<u8> = vec![
        65, 80, // pitch, velocity
        0, 0, 0, 1, // duration 1, big-endian
        0, 0, 0, 0, 0, 0, 0, 0, // timestamp 0, big-endian
        0xFF, // end of stream
    ];
    assert_eq!(dfa.midi_client.bytes(), &expected);
}

#[test]
fn a_full_run_streams_every_transition_in_order() {
    let mut dfa = scenario_a();
    assert_eq!(dfa.accepts(Symbol::from("ab")), Ok(false));
    let expected: Vec<u8> = vec![
        65, 80, 0, 0, 0, 1, 0, 0, 0, 0, 0, 0, 0, 0, // a from s0 at time 0
        68, 80, 0, 0, 0, 4, 0, 0, 0, 0, 0, 0, 0, 1, // b from s1 at time 1
        0xFF,
    ];
    assert_eq!(dfa.midi_client.bytes(), &expected);
}

#[test]
fn formal_definition_is_stable_and_exact() {
    let dfa = scenario_a();
    let expected = "DFA(\u{03a3}, Q, \u{03b4}, q0, F): {\n\
                    \x20 \u{03a3}: {\n\
                    \x20   a,\n\
                    \x20   b,\n\
                    \x20 },\n\
                    \x20 Q: {\n\
                    \x20   s0,\n\
                    \x20   s1,\n\
                    \x20 },\n\
                    \x20 \u{03b4}: {\n\
                    \x20   \u{03b4}(s0, a) -> s1,\n\
                    \x20   \u{03b4}(s0, b) -> s0,\n\
                    \x20   \u{03b4}(s1, a) -> s1,\n\
                    \x20   \u{03b4}(s1, b) -> s0,\n\
                    \x20 },\n\
                    \x20 q0: s0,\n\
                    \x20 F: {\n\
                    \x20   s1,\n\
                    \x20 }\n\
                    )\n";
    assert_eq!(dfa.formal_definition(), expected);
    assert_eq!(dfa.formal_definition(), dfa.formal_definition());
}

#[test]
fn symbols_render_as_their_letter_or_the_empty_sign() {
    assert_eq!(Symbol::new('a').to_text(), "a");
    assert_eq!(Symbol::Epsilon.to_text(), "\u{03f5}");
}

//! A deterministic finite automaton whose transitions emit timed notes,
//! together with the byte-level protocol that carries those notes, in
//! transition order, to an external event sink.

pub mod common;
pub mod dfa;
pub mod midi_client;

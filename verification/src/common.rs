//! The data model of the automaton: alphabet symbols, output notes,
//! transitions, and named states with their transition tables.

use vstd::prelude::*;

verus! {

/// Relies on String::push: appends exactly the given character.
#[verifier::external_body]
pub(crate) fn push_char(text: &mut String, c: char)
    ensures
        final(text)@ == old(text)@.push(c),
{
    text.push(c);
}

/// One element of an automaton's alphabet: a concrete letter, or the
/// reserved empty marker. The empty marker is kept for future
/// nondeterministic extensions; a validated deterministic automaton
/// never admits it into its alphabet.
#[derive(Clone, Copy, PartialEq, Eq, Structural, Hash, Debug)]
pub enum Symbol {
    Epsilon,
    Letter(char),
}

impl Symbol {
    /// Wrap a letter as an alphabet symbol.
    pub fn new(letter: char) -> (s: Symbol)
        ensures
            s == Symbol::Letter(letter),
    {
        Symbol::Letter(letter)
    }

    /// Turn a string into the sequence of symbols of its characters, in order.
    pub fn from(string: &str) -> (symbols: Vec<Symbol>)
        ensures
            symbols@.len() == string@.len(),
            forall|i: int| 0 <= i < string@.len() ==> symbols@[i] == Symbol::Letter(string@[i]),
    {
        let n = string.unicode_len();
        let mut symbols: Vec<Symbol> = Vec::new();
        let mut i: usize = 0;
        while i < n
            invariant
                n == string@.len(),
                i <= n,
                symbols@.len() == i,
                forall|j: int| 0 <= j < i ==> symbols@[j] == Symbol::Letter(string@[j]),
            decreases n - i,
        {
            symbols.push(Symbol::new(string.get_char(i)));
            i = i + 1;
        }
        symbols
    }

    /// The characters that render the symbol: the letter itself, or the
    /// lunate epsilon sign for the empty marker.
    pub open spec fn spec_chars(self) -> Seq<char> {
        match self {
            Symbol::Epsilon => seq!['\u{03f5}'],
            Symbol::Letter(c) => seq![c],
        }
    }

    /// The symbol as text, as the formal definition prints it.
    pub fn to_text(&self) -> (text: String)
        ensures
            text@ == self.spec_chars(),
    {
        let mut text = String::new();
        match *self {
            Symbol::Epsilon => push_char(&mut text, '\u{03f5}'),
            Symbol::Letter(c) => push_char(&mut text, c),
        }
        proof {
            assert(text@ =~= self.spec_chars());
        }
        text
    }
}

/// An output event: a pitch, a loudness, and a duration, all counted in one
/// fixed time unit. Duration is pinned to an unsigned 32-bit count; elapsed
/// time accumulates durations into a 64-bit running total.
#[derive(Clone, Copy, PartialEq, Eq, Structural, Debug)]
pub struct Note {
    /// The pitch of the note.
    pub pitch: u8,
    /// How loud the note sounds.
    pub velocity: u8,
    /// Duration of the note, in time units.
    pub duration: u32,
}

/// A state transition: the index of the next state, and the note emitted
/// when the transition fires.
#[derive(Clone, Copy, PartialEq, Eq, Structural, Debug)]
pub struct Transition {
    pub next_state: usize,
    pub note: Note,
}

/// A named state together with its transition table. The table is a list of
/// (symbol, transition) pairs in construction order; a lookup takes the
/// first pair whose symbol matches. A validated automaton guarantees that
/// every alphabet symbol has an entry.
pub struct State {
    pub name: String,
    pub transitions: Vec<(Symbol, Transition)>,
}

} // verus!

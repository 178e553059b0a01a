//! The deterministic finite automaton: construction-time validation of the
//! transition table, single-symbol stepping, and acceptance of whole input
//! sequences, with every transition's note forwarded to the event sink.

use vstd::prelude::*;

use crate::common::{Note, State, Symbol, Transition};
use crate::midi_client::{spec_note_bytes, MidiClient, END_OF_STREAM};

verus! {

/// Why an automaton could not be built, or a step could not be taken.
#[derive(Debug, PartialEq, Eq)]
pub enum DfaError {
    /// The transition table has no entry for this state and symbol.
    MissingTransition { state_name: String, symbol: Symbol },
    /// A start, accepting, or target state index lies outside the state list.
    InvalidStateIndex { index: usize },
    /// The alphabet names this symbol twice.
    DuplicateSymbol { symbol: Symbol },
    /// The alphabet names the reserved empty marker.
    EpsilonInAlphabet,
    /// A symbol outside the declared alphabet was handed to `step`.
    UndefinedSymbol { symbol: Symbol },
}

impl DfaError {
    /// The characters of the error's message.
    pub open spec fn spec_message(self) -> Seq<char> {
        match self {
            DfaError::MissingTransition { state_name, symbol } => "Invalid DFA: Missing transition ("@
                + state_name@ + ", "@ + symbol.spec_chars() + ")"@,
            DfaError::InvalidStateIndex { .. } => "Invalid DFA: State index out of range"@,
            DfaError::DuplicateSymbol { symbol } => "Invalid DFA: Duplicate alphabet symbol "@
                + symbol.spec_chars(),
            DfaError::EpsilonInAlphabet => "Invalid DFA: The empty symbol cannot be in the alphabet"@,
            DfaError::UndefinedSymbol { symbol } => "Undefined symbol "@ + symbol.spec_chars(),
        }
    }

    /// The error as text; a missing transition names the offending state
    /// and symbol.
    pub fn message(&self) -> (text: String)
        ensures
            text@ == self.spec_message(),
    {
        match self {
            DfaError::MissingTransition { state_name, symbol } => {
                let mut text = String::from_str("Invalid DFA: Missing transition (");
                text.append(state_name.as_str());
                text.append(", ");
                let symbol_text = symbol.to_text();
                text.append(symbol_text.as_str());
                text.append(")");
                proof {
                    assert(text@ =~= self.spec_message());
                }
                text
            },
            DfaError::InvalidStateIndex { .. } => String::from_str(
                "Invalid DFA: State index out of range",
            ),
            DfaError::DuplicateSymbol { symbol } => {
                let mut text = String::from_str("Invalid DFA: Duplicate alphabet symbol ");
                let symbol_text = symbol.to_text();
                text.append(symbol_text.as_str());
                text
            },
            DfaError::EpsilonInAlphabet => String::from_str(
                "Invalid DFA: The empty symbol cannot be in the alphabet",
            ),
            DfaError::UndefinedSymbol { symbol } => {
                let mut text = String::from_str("Undefined symbol ");
                let symbol_text = symbol.to_text();
                text.append(symbol_text.as_str());
                text
            },
        }
    }
}

/// The first transition in the table whose symbol matches, if any.
pub open spec fn spec_lookup(table: Seq<(Symbol, Transition)>, symbol: Symbol) -> Option<
    Transition,
>
    decreases table.len(),
{
    if table.len() == 0 {
        None
    } else if table[0].0 == symbol {
        Some(table[0].1)
    } else {
        spec_lookup(table.skip(1), symbol)
    }
}

/// A well-formed alphabet: only letters, no symbol twice.
pub open spec fn alphabet_wf(alphabet: Seq<Symbol>) -> bool {
    &&& forall|i: int| 0 <= i < alphabet.len() ==> alphabet[i] is Letter
    &&& forall|i: int, j: int| 0 <= i < j < alphabet.len() ==> alphabet[i] != alphabet[j]
}

/// Totality: every state has a transition for every alphabet symbol.
pub open spec fn table_total(alphabet: Seq<Symbol>, states: Seq<State>) -> bool {
    forall|i: int, k: int|
        0 <= i < states.len() && 0 <= k < alphabet.len() ==> #[trigger] spec_lookup(
            states[i].transitions@,
            alphabet[k],
        ) is Some
}

/// Every transition entry of every state points back into the state list.
pub open spec fn targets_valid(states: Seq<State>) -> bool {
    forall|i: int, k: int|
        0 <= i < states.len() && 0 <= k < states[i].transitions@.len()
            ==> (#[trigger] states[i].transitions@[k]).1.next_state < states.len()
}

/// A successful lookup returns one of the table's own entries.
proof fn lemma_lookup_is_entry(table: Seq<(Symbol, Transition)>, symbol: Symbol)
    ensures
        spec_lookup(table, symbol) matches Some(t) ==> exists|k: int|
            0 <= k < table.len() && #[trigger] table[k] == (symbol, t),
    decreases table.len(),
{
    if table.len() != 0 && table[0].0 != symbol {
        lemma_lookup_is_entry(table.skip(1), symbol);
        if spec_lookup(table, symbol) is Some {
            let t = spec_lookup(table, symbol)->0;
            let k = choose|k: int| 0 <= k < table.skip(1).len() && #[trigger] table.skip(1)[k]
                == (symbol, t);
            assert(table[k + 1] == (symbol, t));
        }
    }
}

/// Whether the sequence holds the symbol; gives the witnessing index.
fn contains_symbol(symbols: &Vec<Symbol>, symbol: Symbol) -> (found: bool)
    ensures
        found == symbols@.contains(symbol),
{
    let n = symbols.len();
    let mut i: usize = 0;
    while i < n
        invariant
            n == symbols@.len(),
            i <= n,
            forall|j: int| 0 <= j < i ==> symbols@[j] != symbol,
        decreases n - i,
    {
        if symbols[i] == symbol {
            return true;
        }
        i = i + 1;
    }
    false
}

/// Whether the list of state indices holds the given index.
fn contains_index(indices: &Vec<usize>, index: usize) -> (found: bool)
    ensures
        found == indices@.contains(index),
{
    let n = indices.len();
    let mut i: usize = 0;
    while i < n
        invariant
            n == indices@.len(),
            i <= n,
            forall|j: int| 0 <= j < i ==> indices@[j] != index,
        decreases n - i,
    {
        if indices[i] == index {
            return true;
        }
        i = i + 1;
    }
    false
}

/// The first transition for the symbol, as `spec_lookup` picks it.
fn find_transition(table: &Vec<(Symbol, Transition)>, symbol: Symbol) -> (found: Option<
    Transition,
>)
    ensures
        found == spec_lookup(table@, symbol),
{
    let n = table.len();
    let mut i: usize = 0;
    proof {
        assert(table@.skip(0) =~= table@);
    }
    while i < n
        invariant
            n == table@.len(),
            i <= n,
            spec_lookup(table@, symbol) == spec_lookup(table@.skip(i as int), symbol),
        decreases n - i,
    {
        let (sym, t) = table[i];
        proof {
            assert(table@.skip(i as int)[0] == table@[i as int]);
            assert(table@.skip(i as int).skip(1) =~= table@.skip(i as int + 1));
        }
        if sym == symbol {
            return Some(t);
        }
        i = i + 1;
    }
    None
}

/// The transition taken from state `from` on `symbol`.
pub open spec fn spec_delta(states: Seq<State>, from: int, symbol: Symbol) -> Transition {
    spec_lookup(states[from].transitions@, symbol)->0
}

/// The state reached by folding the transition function over the input,
/// starting from `from`.
pub open spec fn run_state(states: Seq<State>, from: int, input: Seq<Symbol>) -> int
    decreases input.len(),
{
    if input.len() == 0 {
        from
    } else {
        run_state(states, spec_delta(states, from, input[0]).next_state as int, input.skip(1))
    }
}

/// The notes attached to the transitions taken, in firing order.
pub open spec fn run_notes(states: Seq<State>, from: int, input: Seq<Symbol>) -> Seq<Note>
    decreases input.len(),
{
    if input.len() == 0 {
        Seq::empty()
    } else {
        let t = spec_delta(states, from, input[0]);
        seq![t.note] + run_notes(states, t.next_state as int, input.skip(1))
    }
}

/// The sum of the durations of a sequence of notes.
pub open spec fn sum_durations(notes: Seq<Note>) -> int
    decreases notes.len(),
{
    if notes.len() == 0 {
        0
    } else {
        notes[0].duration + sum_durations(notes.skip(1))
    }
}

/// The bytes a run hands to the event sink: each transition's note in
/// firing order, tagged with the elapsed time at which it begins.
pub open spec fn run_bytes(states: Seq<State>, from: int, time: int, input: Seq<Symbol>) -> Seq<
    u8,
>
    decreases input.len(),
{
    if input.len() == 0 {
        Seq::empty()
    } else {
        let t = spec_delta(states, from, input[0]);
        spec_note_bytes(t.note, time as u64) + run_bytes(
            states,
            t.next_state as int,
            time + t.note.duration,
            input.skip(1),
        )
    }
}

/// The length of the longest input prefix made of alphabet symbols only.
pub open spec fn valid_prefix_len(alphabet: Seq<Symbol>, input: Seq<Symbol>) -> int
    decreases input.len(),
{
    if input.len() == 0 {
        0
    } else if !alphabet.contains(input[0]) {
        0
    } else {
        1 + valid_prefix_len(alphabet, input.skip(1))
    }
}

/// Appending a note adds its duration to the sum.
proof fn lemma_sum_durations_push(notes: Seq<Note>, note: Note)
    ensures
        sum_durations(notes.push(note)) == sum_durations(notes) + note.duration,
    decreases notes.len(),
{
    if notes.len() == 0 {
        assert(notes.push(note)[0] == note);
        assert(notes.push(note).skip(1) =~= Seq::<Note>::empty());
        assert(sum_durations(Seq::<Note>::empty()) == 0);
        assert(sum_durations(notes) == 0);
    } else {
        lemma_sum_durations_push(notes.skip(1), note);
        assert(notes.push(note)[0] == notes[0]);
        assert(notes.push(note).skip(1) =~= notes.skip(1).push(note));
        assert(sum_durations(notes.push(note)) == notes[0].duration + sum_durations(
            notes.skip(1).push(note),
        ));
        assert(sum_durations(notes) == notes[0].duration + sum_durations(notes.skip(1)));
    }
}

/// Extending the input by one symbol moves the run's final state along
/// that symbol's transition.
proof fn lemma_run_state_push(states: Seq<State>, from: int, input: Seq<Symbol>, x: Symbol)
    ensures
        run_state(states, from, input.push(x)) == spec_delta(
            states,
            run_state(states, from, input),
            x,
        ).next_state as int,
    decreases input.len(),
{
    if input.len() == 0 {
        let t = spec_delta(states, from, x);
        assert(input.push(x)[0] == x);
        assert(input.push(x).skip(1) =~= Seq::<Symbol>::empty());
        assert(run_state(states, t.next_state as int, Seq::<Symbol>::empty())
            == t.next_state as int);
    } else {
        let t0 = spec_delta(states, from, input[0]);
        assert(input.push(x)[0] == input[0]);
        assert(input.push(x).skip(1) =~= input.skip(1).push(x));
        lemma_run_state_push(states, t0.next_state as int, input.skip(1), x);
    }
}

/// Extending the input by one symbol appends that transition's note to
/// the notes emitted.
proof fn lemma_run_notes_push(states: Seq<State>, from: int, input: Seq<Symbol>, x: Symbol)
    ensures
        run_notes(states, from, input.push(x)) == run_notes(states, from, input).push(
            spec_delta(states, run_state(states, from, input), x).note,
        ),
    decreases input.len(),
{
    let t = spec_delta(states, run_state(states, from, input), x);
    if input.len() == 0 {
        assert(input.push(x)[0] == x);
        assert(input.push(x).skip(1) =~= Seq::<Symbol>::empty());
        assert(seq![t.note] + run_notes(states, t.next_state as int, Seq::<Symbol>::empty())
            =~= run_notes(states, from, input).push(t.note));
    } else {
        let t0 = spec_delta(states, from, input[0]);
        let rest = input.skip(1);
        assert(input.push(x)[0] == input[0]);
        assert(input.push(x).skip(1) =~= rest.push(x));
        lemma_run_notes_push(states, t0.next_state as int, rest, x);
        assert(run_state(states, from, input) == run_state(states, t0.next_state as int, rest));
        let notes_rest = run_notes(states, t0.next_state as int, rest);
        let p = seq![t0.note];
        assert(run_notes(states, from, input.push(x)) == p + notes_rest.push(t.note));
        assert(p + notes_rest.push(t.note) =~= (p + notes_rest).push(t.note));
    }
}

/// Extending the input by one symbol appends that transition's note's
/// wire encoding, tagged with the elapsed time accumulated over the run
/// so far, to the bytes sent.
proof fn lemma_run_bytes_push(
    states: Seq<State>,
    from: int,
    time: int,
    input: Seq<Symbol>,
    x: Symbol,
)
    ensures
        run_bytes(states, from, time, input.push(x)) == run_bytes(states, from, time, input)
            + spec_note_bytes(
            spec_delta(states, run_state(states, from, input), x).note,
            (time + sum_durations(run_notes(states, from, input))) as u64,
        ),
    decreases input.len(),
{
    let t = spec_delta(states, run_state(states, from, input), x);
    if input.len() == 0 {
        assert(input.push(x)[0] == x);
        assert(input.push(x).skip(1) =~= Seq::<Symbol>::empty());
        let b = spec_note_bytes(t.note, time as u64);
        assert(b + run_bytes(
            states,
            t.next_state as int,
            time + t.note.duration,
            Seq::<Symbol>::empty(),
        ) =~= run_bytes(states, from, time, input) + b);
        assert(sum_durations(run_notes(states, from, input)) == 0);
    } else {
        let t0 = spec_delta(states, from, input[0]);
        let rest = input.skip(1);
        assert(input.push(x)[0] == input[0]);
        assert(input.push(x).skip(1) =~= rest.push(x));
        lemma_run_bytes_push(states, t0.next_state as int, time + t0.note.duration, rest, x);
        assert(run_state(states, from, input) == run_state(states, t0.next_state as int, rest));
        let notes_rest = run_notes(states, t0.next_state as int, rest);
        lemma_sum_durations_cons(t0.note, notes_rest);
        assert(run_notes(states, from, input) == seq![t0.note] + notes_rest);
        let a = spec_note_bytes(t0.note, time as u64);
        let bytes_rest = run_bytes(states, t0.next_state as int, time + t0.note.duration, rest);
        let c = spec_note_bytes(
            t.note,
            (time + sum_durations(run_notes(states, from, input))) as u64,
        );
        assert(run_bytes(states, from, time, input) == a + bytes_rest);
        assert(run_bytes(states, from, time, input.push(x)) == a + (bytes_rest + c));
        assert(a + (bytes_rest + c) =~= (a + bytes_rest) + c);
    }
}

/// The sum over a note followed by more notes.
proof fn lemma_sum_durations_cons(note: Note, notes: Seq<Note>)
    ensures
        sum_durations(seq![note] + notes) == note.duration + sum_durations(notes),
{
    let whole = seq![note] + notes;
    assert(whole[0] == note);
    assert(whole.skip(1) =~= notes);
    assert(sum_durations(whole) == note.duration + sum_durations(whole.skip(1)));
}

/// The sum over two note sequences laid end to end.
proof fn lemma_sum_durations_append(left: Seq<Note>, right: Seq<Note>)
    ensures
        sum_durations(left + right) == sum_durations(left) + sum_durations(right),
    decreases left.len(),
{
    if left.len() == 0 {
        assert(left + right =~= right);
    } else {
        assert((left + right)[0] == left[0]);
        assert((left + right).skip(1) =~= left.skip(1) + right);
        lemma_sum_durations_append(left.skip(1), right);
    }
}

/// Runs compose, which is the ordering and timing guarantee of the event
/// stream made explicit: split the input anywhere, and the bytes of the
/// whole run are the bytes of the first part followed by the bytes of the
/// second, the second part starting from the state the first part reaches
/// and at an elapsed time grown by exactly the durations of the first
/// part's notes. So every note reaches the sink after the notes of the
/// transitions fired before it, tagged with their summed durations: song
/// time is monotonic and event order is timestamp order.
pub proof fn lemma_run_append(
    states: Seq<State>,
    from: int,
    time: int,
    first: Seq<Symbol>,
    second: Seq<Symbol>,
)
    ensures
        run_state(states, from, first + second) == run_state(
            states,
            run_state(states, from, first),
            second,
        ),
        run_notes(states, from, first + second) == run_notes(states, from, first) + run_notes(
            states,
            run_state(states, from, first),
            second,
        ),
        sum_durations(run_notes(states, from, first + second)) == sum_durations(
            run_notes(states, from, first),
        ) + sum_durations(run_notes(states, run_state(states, from, first), second)),
        run_bytes(states, from, time, first + second) == run_bytes(states, from, time, first)
            + run_bytes(
            states,
            run_state(states, from, first),
            time + sum_durations(run_notes(states, from, first)),
            second,
        ),
    decreases first.len(),
{
    if first.len() == 0 {
        assert(first + second =~= second);
        assert(run_notes(states, from, first) =~= Seq::<Note>::empty());
        assert(Seq::<Note>::empty() + run_notes(states, from, second) =~= run_notes(
            states,
            from,
            second,
        ));
        assert(Seq::<u8>::empty() + run_bytes(states, from, time, second) =~= run_bytes(
            states,
            from,
            time,
            second,
        ));
    } else {
        let t0 = spec_delta(states, from, first[0]);
        let rest = first.skip(1);
        assert((first + second)[0] == first[0]);
        assert((first + second).skip(1) =~= rest + second);
        lemma_run_append(states, t0.next_state as int, time + t0.note.duration, rest, second);
        let mid = run_state(states, from, first);
        assert(mid == run_state(states, t0.next_state as int, rest));
        let p = seq![t0.note];
        let notes_rest = run_notes(states, t0.next_state as int, rest);
        let notes_second = run_notes(states, mid, second);
        assert(run_notes(states, from, first) == p + notes_rest);
        assert(run_notes(states, from, first + second) == p + (notes_rest + notes_second));
        assert(p + (notes_rest + notes_second) =~= (p + notes_rest) + notes_second);
        lemma_sum_durations_cons(t0.note, notes_rest);
        lemma_sum_durations_append(run_notes(states, from, first), notes_second);
        let a = spec_note_bytes(t0.note, time as u64);
        let bytes_rest = run_bytes(states, t0.next_state as int, time + t0.note.duration, rest);
        let bytes_second = run_bytes(
            states,
            mid,
            time + sum_durations(run_notes(states, from, first)),
            second,
        );
        assert(run_bytes(states, from, time, first) == a + bytes_rest);
        assert(run_bytes(states, from, time, first + second) == a + (bytes_rest + bytes_second));
        assert(a + (bytes_rest + bytes_second) =~= (a + bytes_rest) + bytes_second);
    }
}

/// The valid prefix is a prefix: every symbol before its end is in the
/// alphabet, and the symbol at its end — if any — is not.
proof fn lemma_valid_prefix(alphabet: Seq<Symbol>, input: Seq<Symbol>)
    ensures
        0 <= valid_prefix_len(alphabet, input) <= input.len(),
        forall|k: int|
            0 <= k < valid_prefix_len(alphabet, input) ==> alphabet.contains(#[trigger] input[k]),
        valid_prefix_len(alphabet, input) < input.len() ==> !alphabet.contains(
            input[valid_prefix_len(alphabet, input)],
        ),
    decreases input.len(),
{
    if input.len() != 0 && alphabet.contains(input[0]) {
        lemma_valid_prefix(alphabet, input.skip(1));
        assert forall|k: int| 0 <= k < valid_prefix_len(alphabet, input) implies alphabet.contains(
            #[trigger] input[k],
        ) by {
            if k > 0 {
                assert(input.skip(1)[k - 1] == input[k]);
            }
        }
        if valid_prefix_len(alphabet, input) < input.len() {
            assert(input.skip(1)[valid_prefix_len(alphabet, input.skip(1))]
                == input[valid_prefix_len(alphabet, input)]);
        }
    }
}

/// An input whose first `m` symbols are all in the alphabet has a valid
/// prefix at least `m` long.
proof fn lemma_valid_prefix_at_least(alphabet: Seq<Symbol>, input: Seq<Symbol>, m: int)
    requires
        0 <= m <= input.len(),
        forall|k: int| 0 <= k < m ==> alphabet.contains(#[trigger] input[k]),
    ensures
        valid_prefix_len(alphabet, input) >= m,
    decreases m,
{
    lemma_valid_prefix(alphabet, input);
    if m > 0 {
        assert(alphabet.contains(input[0]));
        assert forall|k: int| 0 <= k < m - 1 implies alphabet.contains(
            #[trigger] input.skip(1)[k],
        ) by {
            assert(input.skip(1)[k] == input[k + 1]);
        }
        lemma_valid_prefix_at_least(alphabet, input.skip(1), m - 1);
        assert(valid_prefix_len(alphabet, input) == 1 + valid_prefix_len(alphabet, input.skip(1)));
    }
}

/// Running longer never shrinks the elapsed time: the sum of durations
/// over a longer prefix of the input dominates the sum over a shorter one.
proof fn lemma_run_duration_monotone(
    states: Seq<State>,
    from: int,
    input: Seq<Symbol>,
    m1: int,
    m2: int,
)
    requires
        0 <= m1 <= m2 <= input.len(),
    ensures
        sum_durations(run_notes(states, from, input.take(m1))) <= sum_durations(
            run_notes(states, from, input.take(m2)),
        ),
    decreases m2 - m1,
{
    if m1 < m2 {
        lemma_run_duration_monotone(states, from, input, m1, m2 - 1);
        lemma_run_notes_push(states, from, input.take(m2 - 1), input[m2 - 1]);
        assert(input.take(m2 - 1).push(input[m2 - 1]) =~= input.take(m2));
        lemma_sum_durations_push(
            run_notes(states, from, input.take(m2 - 1)),
            spec_delta(states, run_state(states, from, input.take(m2 - 1)), input[m2 - 1]).note,
        );
    }
}

/// One indented line per alphabet symbol.
pub open spec fn spec_alphabet_lines(alphabet: Seq<Symbol>) -> Seq<char>
    decreases alphabet.len(),
{
    if alphabet.len() == 0 {
        Seq::empty()
    } else {
        "    "@ + alphabet[0].spec_chars() + ",\n"@ + spec_alphabet_lines(alphabet.skip(1))
    }
}

/// One indented line per state name.
pub open spec fn spec_state_lines(states: Seq<State>) -> Seq<char>
    decreases states.len(),
{
    if states.len() == 0 {
        Seq::empty()
    } else {
        "    "@ + states[0].name@ + ",\n"@ + spec_state_lines(states.skip(1))
    }
}

/// One line per transition of one state, in the table's own order.
pub open spec fn spec_delta_entries(
    states: Seq<State>,
    name: Seq<char>,
    entries: Seq<(Symbol, Transition)>,
) -> Seq<char>
    decreases entries.len(),
{
    if entries.len() == 0 {
        Seq::empty()
    } else {
        "    \u{03b4}("@ + name + ", "@ + entries[0].0.spec_chars() + ") -> "@
            + states[entries[0].1.next_state as int].name@ + ",\n"@ + spec_delta_entries(
            states,
            name,
            entries.skip(1),
        )
    }
}

/// The transition lines of every state, in construction order.
pub open spec fn spec_delta_lines(states: Seq<State>, remaining: Seq<State>) -> Seq<char>
    decreases remaining.len(),
{
    if remaining.len() == 0 {
        Seq::empty()
    } else {
        spec_delta_entries(states, remaining[0].name@, remaining[0].transitions@)
            + spec_delta_lines(states, remaining.skip(1))
    }
}

/// One indented line per accepting state's name.
pub open spec fn spec_accepting_lines(states: Seq<State>, accepting: Seq<usize>) -> Seq<char>
    decreases accepting.len(),
{
    if accepting.len() == 0 {
        Seq::empty()
    } else {
        "    "@ + states[accepting[0] as int].name@ + ",\n"@ + spec_accepting_lines(
            states,
            accepting.skip(1),
        )
    }
}

/// Determinism of a run: every observable of a run — how much of the
/// input is defined, the state reached, the notes emitted with their
/// order and timing, the bytes sent to the sink, and the accept verdict —
/// is a function of the automaton's definition, its position before the
/// run, and the input alone. Two automata that agree on those, run over
/// the same input, agree on all of them; and since the contract of
/// `accepts` pins its result and its mutation to exactly these functions
/// of the pre-call state, two runs of `accepts` from equal states cannot
/// differ.
pub proof fn lemma_run_deterministic(a: DFA, b: DFA, input: Seq<Symbol>)
    requires
        a.same_structure(b),
        a.current_state_index == b.current_state_index,
        a.song_time == b.song_time,
    ensures
        valid_prefix_len(a.alphabet@, input) == valid_prefix_len(b.alphabet@, input),
        run_state(a.states@, a.current_state_index as int, input) == run_state(
            b.states@,
            b.current_state_index as int,
            input,
        ),
        run_notes(a.states@, a.current_state_index as int, input) == run_notes(
            b.states@,
            b.current_state_index as int,
            input,
        ),
        run_bytes(a.states@, a.current_state_index as int, a.song_time as int, input)
            == run_bytes(b.states@, b.current_state_index as int, b.song_time as int, input),
        a.accepting_states@.contains(
            run_state(a.states@, a.current_state_index as int, input) as usize,
        ) == b.accepting_states@.contains(
            run_state(b.states@, b.current_state_index as int, input) as usize,
        ),
{
}

/// A deterministic finite automaton with an attached event-sink client.
///
/// States are referenced by their position in `states`; the indices are
/// stable identities after construction. `current_state_index` starts at
/// `start_state`, and `song_time` counts the elapsed time units of every
/// transition taken so far.
pub struct DFA {
    pub alphabet: Vec<Symbol>,
    pub states: Vec<State>,
    pub start_state: usize,
    pub accepting_states: Vec<usize>,
    pub current_state_index: usize,
    pub song_time: u64,
    pub midi_client: MidiClient,
}

impl DFA {
    /// A valid transition structure: the alphabet is a set of letters, the
    /// start and accepting indices point into the state list, every state
    /// has a transition for every alphabet symbol, and every transition
    /// points back into the state list.
    pub open spec fn structure_valid(
        alphabet: Seq<Symbol>,
        states: Seq<State>,
        start_state: int,
        accepting_states: Seq<usize>,
    ) -> bool {
        &&& alphabet_wf(alphabet)
        &&& 0 <= start_state < states.len()
        &&& forall|i: int|
            0 <= i < accepting_states.len() ==> accepting_states[i] < states.len()
        &&& table_total(alphabet, states)
        &&& targets_valid(states)
    }

    /// The automaton's invariant: a valid structure, and a current state
    /// that points into the state list.
    pub open spec fn wf(self) -> bool {
        &&& DFA::structure_valid(
            self.alphabet@,
            self.states@,
            self.start_state as int,
            self.accepting_states@,
        )
        &&& self.current_state_index < self.states@.len()
    }

    /// The transition the automaton takes from its current state on `symbol`.
    pub open spec fn step_transition(self, symbol: Symbol) -> Transition {
        spec_delta(self.states@, self.current_state_index as int, symbol)
    }

    /// Whether the current state is one of the accepting states.
    pub open spec fn spec_is_accepting(self) -> bool {
        self.accepting_states@.contains(self.current_state_index)
    }

    /// The parts of the automaton that a run never changes: its definition.
    pub open spec fn same_structure(self, other: DFA) -> bool {
        &&& self.alphabet@ == other.alphabet@
        &&& self.states@ == other.states@
        &&& self.start_state == other.start_state
        &&& self.accepting_states@ == other.accepting_states@
    }

    /// Build a validated automaton, or report the first defect found.
    ///
    /// The whole cross-product of states and alphabet symbols is checked
    /// for a transition; construction succeeds exactly when the structure
    /// is valid, and no partial automaton is ever produced. On success the
    /// automaton stands on its start state at time zero with an empty
    /// event stream.
    pub fn new(
        alphabet: Vec<Symbol>,
        states: Vec<State>,
        start_state: usize,
        accepting_states: Vec<usize>,
    ) -> (result: Result<DFA, DfaError>)
        ensures
            result is Ok <==> DFA::structure_valid(
                alphabet@,
                states@,
                start_state as int,
                accepting_states@,
            ),
            result matches Ok(dfa) ==> ({
                &&& dfa.wf()
                &&& dfa.alphabet@ == alphabet@
                &&& dfa.states@ == states@
                &&& dfa.start_state == start_state
                &&& dfa.accepting_states@ == accepting_states@
                &&& dfa.current_state_index == start_state
                &&& dfa.song_time == 0
                &&& dfa.midi_client@ == Seq::<u8>::empty()
            }),
            result matches Err(e) ==> match e {
                DfaError::EpsilonInAlphabet => alphabet@.contains(Symbol::Epsilon),
                DfaError::DuplicateSymbol { symbol } => exists|i: int, j: int|
                    0 <= i < j < alphabet@.len() && alphabet@[i] == symbol && alphabet@[j]
                        == symbol,
                DfaError::InvalidStateIndex { index } => index >= states@.len() && (index
                    == start_state || accepting_states@.contains(index) || exists|i: int, k: int|
                    0 <= i < states@.len() && 0 <= k < states@[i].transitions@.len()
                        && (#[trigger] states@[i].transitions@[k]).1.next_state == index),
                DfaError::MissingTransition { state_name, symbol } => alphabet@.contains(symbol)
                    && exists|i: int|
                    0 <= i < states@.len() && (#[trigger] states@[i].name)@ == state_name@
                        && spec_lookup(states@[i].transitions@, symbol) is None,
                DfaError::UndefinedSymbol { .. } => false,
            },
    {
        let an = alphabet.len();
        let sn = states.len();

        // The alphabet must hold letters only.
        let mut i: usize = 0;
        while i < an
            invariant
                an == alphabet@.len(),
                i <= an,
                forall|j: int| 0 <= j < i ==> alphabet@[j] is Letter,
            decreases an - i,
        {
            if alphabet[i] == Symbol::Epsilon {
                return Err(DfaError::EpsilonInAlphabet);
            }
            i = i + 1;
        }

        // The alphabet must name no symbol twice.
        let mut i: usize = 0;
        while i < an
            invariant
                an == alphabet@.len(),
                i <= an,
                forall|i2: int, j2: int|
                    0 <= i2 < i && i2 < j2 < an ==> alphabet@[i2] != alphabet@[j2],
            decreases an - i,
        {
            let mut j: usize = i + 1;
            while j < an
                invariant
                    an == alphabet@.len(),
                    i < an,
                    i + 1 <= j <= an,
                    forall|i2: int, j2: int|
                        0 <= i2 < i && i2 < j2 < an ==> alphabet@[i2] != alphabet@[j2],
                    forall|j2: int| i < j2 < j ==> alphabet@[i as int] != alphabet@[j2],
                decreases an - j,
            {
                if alphabet[i] == alphabet[j] {
                    return Err(DfaError::DuplicateSymbol { symbol: alphabet[i] });
                }
                j = j + 1;
            }
            i = i + 1;
        }

        // The start and accepting indices must point into the state list.
        if start_state >= sn {
            return Err(DfaError::InvalidStateIndex { index: start_state });
        }
        let fn_count = accepting_states.len();
        let mut i: usize = 0;
        while i < fn_count
            invariant
                fn_count == accepting_states@.len(),
                sn == states@.len(),
                i <= fn_count,
                forall|j: int| 0 <= j < i ==> accepting_states@[j] < states@.len(),
            decreases fn_count - i,
        {
            if accepting_states[i] >= sn {
                proof {
                    assert(accepting_states@.contains(accepting_states@[i as int]));
                }
                return Err(DfaError::InvalidStateIndex { index: accepting_states[i] });
            }
            i = i + 1;
        }

        // Every state must have a transition for every alphabet symbol.
        let mut i: usize = 0;
        while i < sn
            invariant
                an == alphabet@.len(),
                sn == states@.len(),
                i <= sn,
                forall|i2: int, k: int|
                    0 <= i2 < i && 0 <= k < alphabet@.len() ==> #[trigger] spec_lookup(
                        states@[i2].transitions@,
                        alphabet@[k],
                    ) is Some,
            decreases sn - i,
        {
            let mut k: usize = 0;
            while k < an
                invariant
                    an == alphabet@.len(),
                    sn == states@.len(),
                    i < sn,
                    k <= an,
                    forall|k2: int|
                        0 <= k2 < k ==> #[trigger] spec_lookup(
                            states@[i as int].transitions@,
                            alphabet@[k2],
                        ) is Some,
                decreases an - k,
            {
                if find_transition(&states[i].transitions, alphabet[k]).is_none() {
                    proof {
                        assert(alphabet@.contains(alphabet@[k as int]));
                    }
                    return Err(
                        DfaError::MissingTransition {
                            state_name: states[i].name.clone(),
                            symbol: alphabet[k],
                        },
                    );
                }
                k = k + 1;
            }
            i = i + 1;
        }

        // Every transition must point back into the state list.
        let mut i: usize = 0;
        while i < sn
            invariant
                sn == states@.len(),
                i <= sn,
                forall|i2: int, k: int|
                    0 <= i2 < i && 0 <= k < states@[i2].transitions@.len()
                        ==> (#[trigger] states@[i2].transitions@[k]).1.next_state < states@.len(),
            decreases sn - i,
        {
            let tn = states[i].transitions.len();
            let mut k: usize = 0;
            while k < tn
                invariant
                    sn == states@.len(),
                    i < sn,
                    tn == states@[i as int].transitions@.len(),
                    k <= tn,
                    forall|k2: int|
                        0 <= k2 < k ==> (#[trigger] states@[i as int].transitions@[k2]).1.next_state
                            < states@.len(),
                decreases tn - k,
            {
                let (_, t) = states[i].transitions[k];
                if t.next_state >= sn {
                    proof {
                        assert(states@[i as int].transitions@[k as int].1.next_state
                            == t.next_state);
                    }
                    return Err(DfaError::InvalidStateIndex { index: t.next_state });
                }
                k = k + 1;
            }
            i = i + 1;
        }

        Ok(
            DFA {
                alphabet,
                states,
                start_state,
                accepting_states,
                current_state_index: start_state,
                song_time: 0,
                midi_client: MidiClient::new(),
            },
        )
    }

    /// Take one step with the given symbol.
    ///
    /// The transition's note, tagged with the elapsed time before the note
    /// begins, is queued for the event sink; then elapsed time grows by
    /// the note's duration and the automaton moves to the target state.
    /// A symbol outside the declared alphabet changes nothing and is
    /// reported as undefined; an alphabet symbol always succeeds, because
    /// totality was enforced at construction.
    pub fn step(&mut self, symbol: Symbol) -> (result: Result<(), DfaError>)
        requires
            old(self).wf(),
            old(self).alphabet@.contains(symbol) ==> old(self).song_time + old(
                self,
            ).step_transition(symbol).note.duration <= u64::MAX,
        ensures
            final(self).wf(),
            final(self).same_structure(*old(self)),
            old(self).alphabet@.contains(symbol) ==> ({
                let t = old(self).step_transition(symbol);
                &&& result is Ok
                &&& final(self).current_state_index == t.next_state
                &&& final(self).song_time == old(self).song_time + t.note.duration
                &&& final(self).midi_client@ == old(self).midi_client@ + spec_note_bytes(
                    t.note,
                    old(self).song_time,
                )
            }),
            !old(self).alphabet@.contains(symbol) ==> result == Err::<(), DfaError>(
                DfaError::UndefinedSymbol { symbol },
            ) && *final(self) == *old(self),
    {
        if !contains_symbol(&self.alphabet, symbol) {
            return Err(DfaError::UndefinedSymbol { symbol });
        }
        let ghost table = self.states@[self.current_state_index as int].transitions@;
        proof {
            // Totality gives a transition for every alphabet symbol, and
            // the transition is one of the table's entries, so its target
            // is a valid state index.
            let k = choose|k: int|
                0 <= k < self.alphabet@.len() && self.alphabet@[k] == symbol;
            assert(spec_lookup(
                self.states@[self.current_state_index as int].transitions@,
                self.alphabet@[k],
            ) is Some);
            lemma_lookup_is_entry(table, symbol);
            let t_spec = spec_lookup(table, symbol)->0;
            let k2 = choose|k2: int| 0 <= k2 < table.len() && #[trigger] table[k2] == (
                symbol,
                t_spec,
            );
            assert(self.states@[self.current_state_index as int].transitions@[k2].1.next_state
                < self.states@.len());
        }
        let t_opt = find_transition(&self.states[self.current_state_index].transitions, symbol);
        let t = t_opt.unwrap();
        self.midi_client.send(&t.note, self.song_time);
        self.song_time = self.song_time + (t.note.duration as u64);
        self.current_state_index = t.next_state;
        Ok(())
    }

    /// Run the automaton over a whole input sequence.
    ///
    /// Each symbol is consumed by one `step`, in order, so the notes of
    /// the transitions taken reach the event sink in firing order, each
    /// tagged with the sum of the durations of the notes before it. After
    /// the last symbol the end-of-stream sentinel is queued, and the
    /// verdict is whether the final state is accepting. A symbol outside
    /// the alphabet stops the run where it stands: the steps already taken
    /// remain, no sentinel is sent, and the symbol is reported undefined.
    pub fn accepts(&mut self, string: Vec<Symbol>) -> (result: Result<bool, DfaError>)
        requires
            old(self).wf(),
            old(self).song_time + sum_durations(
                run_notes(
                    old(self).states@,
                    old(self).current_state_index as int,
                    string@.take(valid_prefix_len(old(self).alphabet@, string@)),
                ),
            ) <= u64::MAX,
        ensures
            final(self).wf(),
            final(self).same_structure(*old(self)),
            ({
                let j = valid_prefix_len(old(self).alphabet@, string@);
                let prefix = string@.take(j);
                let states = old(self).states@;
                let c0 = old(self).current_state_index as int;
                let t0 = old(self).song_time;
                &&& final(self).current_state_index == run_state(states, c0, prefix)
                &&& final(self).song_time == t0 + sum_durations(run_notes(states, c0, prefix))
                &&& (j == string@.len() ==> final(self).midi_client@ == old(self).midi_client@
                    + run_bytes(states, c0, t0 as int, prefix) + seq![END_OF_STREAM])
                &&& (j == string@.len() ==> result == Ok::<bool, DfaError>(
                    final(self).spec_is_accepting(),
                ))
                &&& (j < string@.len() ==> final(self).midi_client@ == old(self).midi_client@
                    + run_bytes(states, c0, t0 as int, prefix))
                &&& (j < string@.len() ==> result == Err::<bool, DfaError>(
                    DfaError::UndefinedSymbol { symbol: string@[j] },
                ))
            }),
    {
        let ghost states0 = self.states@;
        let ghost c0 = self.current_state_index as int;
        let ghost t0 = self.song_time;
        let ghost m0 = self.midi_client@;
        let ghost j = valid_prefix_len(self.alphabet@, string@);
        proof {
            lemma_valid_prefix(old(self).alphabet@, string@);
            assert(string@.take(0) =~= Seq::<Symbol>::empty());
        }
        let n = string.len();
        let mut i: usize = 0;
        while i < n
            invariant
                self.wf(),
                self.same_structure(*old(self)),
                states0 == old(self).states@,
                c0 == old(self).current_state_index as int,
                t0 == old(self).song_time,
                m0 == old(self).midi_client@,
                j == valid_prefix_len(old(self).alphabet@, string@),
                n == string@.len(),
                0 <= i <= n,
                forall|k: int| 0 <= k < j ==> old(self).alphabet@.contains(#[trigger] string@[k]),
                j < n ==> !old(self).alphabet@.contains(string@[j]),
                0 <= j <= n,
                forall|k: int| 0 <= k < i ==> old(self).alphabet@.contains(#[trigger] string@[k]),
                t0 + sum_durations(run_notes(states0, c0, string@.take(j))) <= u64::MAX,
                self.current_state_index as int == run_state(states0, c0, string@.take(i as int)),
                self.song_time == t0 + sum_durations(run_notes(states0, c0, string@.take(i as int))),
                self.midi_client@ == m0 + run_bytes(states0, c0, t0 as int, string@.take(i as int)),
            decreases n - i,
        {
            let symbol = string[i];
            if !contains_symbol(&self.alphabet, symbol) {
                proof {
                    lemma_valid_prefix_at_least(old(self).alphabet@, string@, i as int);
                    // The first undefined symbol stands exactly here.
                    assert(j == i);
                }
                return Err(DfaError::UndefinedSymbol { symbol });
            }
            proof {
                lemma_valid_prefix_at_least(old(self).alphabet@, string@, i + 1);
                lemma_run_state_push(states0, c0, string@.take(i as int), symbol);
                lemma_run_notes_push(states0, c0, string@.take(i as int), symbol);
                lemma_run_bytes_push(states0, c0, t0 as int, string@.take(i as int), symbol);
                lemma_sum_durations_push(
                    run_notes(states0, c0, string@.take(i as int)),
                    spec_delta(
                        states0,
                        run_state(states0, c0, string@.take(i as int)),
                        symbol,
                    ).note,
                );
                assert(string@.take(i as int).push(symbol) =~= string@.take(i + 1));
                lemma_run_duration_monotone(states0, c0, string@, i + 1, j);
            }
            let step_result = self.step(symbol);
            proof {
                assert(step_result is Ok);
            }
            i = i + 1;
        }
        proof {
            lemma_valid_prefix_at_least(old(self).alphabet@, string@, n as int);
            assert(j == n);
            assert(string@.take(n as int) =~= string@);
        }
        // Send the end-of-stream marker to the event sink.
        self.midi_client.close();
        Ok(self.is_accepting())
    }

    /// Whether the current state is accepting.
    pub fn is_accepting(&self) -> (accepting: bool)
        ensures
            accepting == self.spec_is_accepting(),
    {
        contains_index(&self.accepting_states, self.current_state_index)
    }

    /// Whether a whole run over `string` stays within the elapsed-time
    /// counter: the durations the run would accumulate, added to the time
    /// already elapsed, must fit in 64 bits. `accepts` asks exactly this
    /// of its caller; an unverified caller can ask here first.
    pub fn run_fits(&self, string: &Vec<Symbol>) -> (fits: bool)
        requires
            self.wf(),
        ensures
            fits == (self.song_time + sum_durations(
                run_notes(
                    self.states@,
                    self.current_state_index as int,
                    string@.take(valid_prefix_len(self.alphabet@, string@)),
                ),
            ) <= u64::MAX),
    {
        let ghost states0 = self.states@;
        let ghost c0 = self.current_state_index as int;
        let ghost t0 = self.song_time;
        let ghost j = valid_prefix_len(self.alphabet@, string@);
        proof {
            lemma_valid_prefix(self.alphabet@, string@);
            assert(string@.take(0) =~= Seq::<Symbol>::empty());
        }
        let mut current: usize = self.current_state_index;
        let mut time: u64 = self.song_time;
        let n = string.len();
        let mut i: usize = 0;
        while i < n
            invariant
                self.wf(),
                states0 == self.states@,
                c0 == self.current_state_index as int,
                t0 == self.song_time,
                j == valid_prefix_len(self.alphabet@, string@),
                n == string@.len(),
                0 <= i <= n,
                0 <= j <= n,
                forall|k: int| 0 <= k < j ==> self.alphabet@.contains(#[trigger] string@[k]),
                j < n ==> !self.alphabet@.contains(string@[j]),
                forall|k: int| 0 <= k < i ==> self.alphabet@.contains(#[trigger] string@[k]),
                current as int == run_state(states0, c0, string@.take(i as int)),
                current < self.states@.len(),
                time == t0 + sum_durations(run_notes(states0, c0, string@.take(i as int))),
            decreases n - i,
        {
            let symbol = string[i];
            if !contains_symbol(&self.alphabet, symbol) {
                proof {
                    lemma_valid_prefix_at_least(self.alphabet@, string@, i as int);
                    assert(j == i);
                }
                return true;
            }
            proof {
                lemma_valid_prefix_at_least(self.alphabet@, string@, i + 1);
                let k = choose|k: int|
                    0 <= k < self.alphabet@.len() && self.alphabet@[k] == symbol;
                assert(spec_lookup(
                    self.states@[current as int].transitions@,
                    self.alphabet@[k],
                ) is Some);
                lemma_lookup_is_entry(self.states@[current as int].transitions@, symbol);
                let t_spec = spec_lookup(self.states@[current as int].transitions@, symbol)->0;
                let k2 = choose|k2: int|
                    0 <= k2 < self.states@[current as int].transitions@.len()
                        && #[trigger] self.states@[current as int].transitions@[k2] == (
                    symbol,
                    t_spec,
                );
                assert(self.states@[current as int].transitions@[k2].1.next_state
                    < self.states@.len());
                lemma_run_state_push(states0, c0, string@.take(i as int), symbol);
                lemma_run_notes_push(states0, c0, string@.take(i as int), symbol);
                lemma_sum_durations_push(
                    run_notes(states0, c0, string@.take(i as int)),
                    spec_delta(
                        states0,
                        run_state(states0, c0, string@.take(i as int)),
                        symbol,
                    ).note,
                );
                assert(string@.take(i as int).push(symbol) =~= string@.take(i + 1));
            }
            let t = find_transition(&self.states[current].transitions, symbol).unwrap();
            if (t.note.duration as u64) > u64::MAX - time {
                proof {
                    lemma_run_duration_monotone(states0, c0, string@, i + 1, j);
                }
                return false;
            }
            time = time + (t.note.duration as u64);
            current = t.next_state;
            i = i + 1;
        }
        proof {
            lemma_valid_prefix_at_least(self.alphabet@, string@, n as int);
            assert(j == n);
            assert(string@.take(n as int) =~= string@);
        }
        true
    }

    /// The characters of the rendered formal definition: the 5-tuple of
    /// alphabet, states, transition function, start state, and accepting
    /// states, each part in construction order.
    pub open spec fn spec_formal_definition(self) -> Seq<char> {
        "DFA(\u{03a3}, Q, \u{03b4}, q0, F): {\n"@ + "  \u{03a3}: {\n"@ + spec_alphabet_lines(
            self.alphabet@,
        ) + "  },\n"@ + "  Q: {\n"@ + spec_state_lines(self.states@) + "  },\n"@
            + "  \u{03b4}: {\n"@ + spec_delta_lines(self.states@, self.states@) + "  },\n"@
            + "  q0: "@ + self.states@[self.start_state as int].name@ + ",\n"@ + "  F: {\n"@
            + spec_accepting_lines(self.states@, self.accepting_states@) + "  }\n)\n"@
    }

    /// Render the formal definition as text.
    ///
    /// States are listed in construction order and each state's
    /// transitions in their table's own order, so the output is stable
    /// across runs.
    pub fn formal_definition(&self) -> (text: String)
        requires
            self.wf(),
        ensures
            text@ == self.spec_formal_definition(),
    {
        let mut text = String::from_str("DFA(\u{03a3}, Q, \u{03b4}, q0, F): {\n");
        text.append("  \u{03a3}: {\n");

        let ghost alphabet_head = text@;
        let an = self.alphabet.len();
        let mut i: usize = 0;
        proof {
            assert(self.alphabet@.skip(0) =~= self.alphabet@);
        }
        while i < an
            invariant
                an == self.alphabet@.len(),
                i <= an,
                alphabet_head + spec_alphabet_lines(self.alphabet@) == text@
                    + spec_alphabet_lines(self.alphabet@.skip(i as int)),
            decreases an - i,
        {
            proof {
                assert(self.alphabet@.skip(i as int)[0] == self.alphabet@[i as int]);
                assert(self.alphabet@.skip(i as int).skip(1) =~= self.alphabet@.skip(i + 1));
            }
            text.append("    ");
            let symbol_text = self.alphabet[i].to_text();
            text.append(symbol_text.as_str());
            text.append(",\n");
            proof {
                assert(alphabet_head + spec_alphabet_lines(self.alphabet@) =~= text@
                    + spec_alphabet_lines(self.alphabet@.skip(i + 1)));
            }
            i = i + 1;
        }
        proof {
            assert(self.alphabet@.skip(an as int) =~= Seq::<Symbol>::empty());
            assert(text@ =~= alphabet_head + spec_alphabet_lines(self.alphabet@));
        }
        text.append("  },\n");
        text.append("  Q: {\n");

        let ghost names_head = text@;
        let sn = self.states.len();
        let mut i: usize = 0;
        proof {
            assert(self.states@.skip(0) =~= self.states@);
        }
        while i < sn
            invariant
                sn == self.states@.len(),
                i <= sn,
                names_head + spec_state_lines(self.states@) == text@ + spec_state_lines(
                    self.states@.skip(i as int),
                ),
            decreases sn - i,
        {
            proof {
                assert(self.states@.skip(i as int)[0] == self.states@[i as int]);
                assert(self.states@.skip(i as int).skip(1) =~= self.states@.skip(i + 1));
            }
            text.append("    ");
            text.append(self.states[i].name.as_str());
            text.append(",\n");
            proof {
                assert(names_head + spec_state_lines(self.states@) =~= text@ + spec_state_lines(
                    self.states@.skip(i + 1),
                ));
            }
            i = i + 1;
        }
        proof {
            assert(self.states@.skip(sn as int) =~= Seq::<State>::empty());
            assert(text@ =~= names_head + spec_state_lines(self.states@));
        }
        text.append("  },\n");
        text.append("  \u{03b4}: {\n");

        let ghost delta_head = text@;
        let mut s: usize = 0;
        proof {
            assert(self.states@.skip(0) =~= self.states@);
        }
        while s < sn
            invariant
                self.wf(),
                sn == self.states@.len(),
                s <= sn,
                delta_head + spec_delta_lines(self.states@, self.states@) == text@
                    + spec_delta_lines(self.states@, self.states@.skip(s as int)),
            decreases sn - s,
        {
            proof {
                assert(self.states@.skip(s as int)[0] == self.states@[s as int]);
                assert(self.states@.skip(s as int).skip(1) =~= self.states@.skip(s + 1));
            }
            let ghost entries_head = text@;
            let ghost name = self.states@[s as int].name@;
            let ghost entries = self.states@[s as int].transitions@;
            let tn = self.states[s].transitions.len();
            let mut k: usize = 0;
            proof {
                assert(entries.skip(0) =~= entries);
            }
            while k < tn
                invariant
                    self.wf(),
                    sn == self.states@.len(),
                    s < sn,
                    name == self.states@[s as int].name@,
                    entries == self.states@[s as int].transitions@,
                    tn == entries.len(),
                    k <= tn,
                    entries_head + spec_delta_entries(self.states@, name, entries) == text@
                        + spec_delta_entries(self.states@, name, entries.skip(k as int)),
                decreases tn - k,
            {
                proof {
                    assert(entries.skip(k as int)[0] == entries[k as int]);
                    assert(entries.skip(k as int).skip(1) =~= entries.skip(k + 1));
                }
                let (symbol, transition) = self.states[s].transitions[k];
                proof {
                    assert((#[trigger] self.states@[s as int].transitions@[k as int]).1.next_state
                        < self.states@.len());
                }
                text.append("    \u{03b4}(");
                text.append(self.states[s].name.as_str());
                text.append(", ");
                let symbol_text = symbol.to_text();
                text.append(symbol_text.as_str());
                text.append(") -> ");
                text.append(self.states[transition.next_state].name.as_str());
                text.append(",\n");
                proof {
                    assert(entries_head + spec_delta_entries(self.states@, name, entries)
                        =~= text@ + spec_delta_entries(self.states@, name, entries.skip(k + 1)));
                }
                k = k + 1;
            }
            proof {
                assert(entries.skip(tn as int) =~= Seq::<(Symbol, Transition)>::empty());
                assert(text@ =~= entries_head + spec_delta_entries(self.states@, name, entries));
                assert(delta_head + spec_delta_lines(self.states@, self.states@) =~= text@
                    + spec_delta_lines(self.states@, self.states@.skip(s + 1)));
            }
            s = s + 1;
        }
        proof {
            assert(self.states@.skip(sn as int) =~= Seq::<State>::empty());
            assert(text@ =~= delta_head + spec_delta_lines(self.states@, self.states@));
        }
        text.append("  },\n");
        text.append("  q0: ");
        text.append(self.states[self.start_state].name.as_str());
        text.append(",\n");
        text.append("  F: {\n");

        let ghost accepting_head = text@;
        let fn_count = self.accepting_states.len();
        let mut i: usize = 0;
        proof {
            assert(self.accepting_states@.skip(0) =~= self.accepting_states@);
        }
        while i < fn_count
            invariant
                self.wf(),
                fn_count == self.accepting_states@.len(),
                i <= fn_count,
                accepting_head + spec_accepting_lines(self.states@, self.accepting_states@)
                    == text@ + spec_accepting_lines(
                    self.states@,
                    self.accepting_states@.skip(i as int),
                ),
            decreases fn_count - i,
        {
            proof {
                assert(self.accepting_states@.skip(i as int)[0]
                    == self.accepting_states@[i as int]);
                assert(self.accepting_states@.skip(i as int).skip(1)
                    =~= self.accepting_states@.skip(i + 1));
            }
            text.append("    ");
            text.append(self.states[self.accepting_states[i]].name.as_str());
            text.append(",\n");
            proof {
                assert(accepting_head + spec_accepting_lines(self.states@, self.accepting_states@)
                    =~= text@ + spec_accepting_lines(
                    self.states@,
                    self.accepting_states@.skip(i + 1),
                ));
            }
            i = i + 1;
        }
        proof {
            assert(self.accepting_states@.skip(fn_count as int) =~= Seq::<usize>::empty());
            assert(text@ =~= accepting_head + spec_accepting_lines(
                self.states@,
                self.accepting_states@,
            ));
        }
        text.append("  }\n)\n");
        proof {
            assert(text@ =~= self.spec_formal_definition());
        }
        text
    }

    /// The current state of the automaton.
    pub fn get_current_state(&self) -> (state: &State)
        requires
            self.current_state_index < self.states@.len(),
        ensures
            *state == self.states@[self.current_state_index as int],
    {
        &self.states[self.current_state_index]
    }
}

} // verus!

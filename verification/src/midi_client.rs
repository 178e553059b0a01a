//! The event-sink client: encodes timed note events into the byte-level
//! wire protocol, in the order they are handed over.
//!
//! Wire format, per note: the pitch byte, the velocity byte, the duration
//! as a 4-byte big-endian integer, then the timestamp as an 8-byte
//! big-endian integer counting elapsed time units since the run began.
//! Stream end is one reserved sentinel byte, `0xFF`.
//!
//! The client owns the outgoing byte stream as a value: `view` is exactly
//! the bytes queued for the wire, in send order. Writing those bytes over a
//! real connection is the caller's concern; the protocol itself — framing,
//! ordering, termination — is decided here.

use vstd::prelude::*;

use crate::common::Note;

verus! {

/// The sentinel byte that ends the stream.
pub const END_OF_STREAM: u8 = 0xFF;

/// The big-endian 4-byte encoding of a 32-bit integer.
pub open spec fn spec_u32_to_be_bytes(x: u32) -> Seq<u8> {
    seq![
        ((x / 0x100_0000) % 0x100) as u8,
        ((x / 0x1_0000) % 0x100) as u8,
        ((x / 0x100) % 0x100) as u8,
        ((x / 0x1) % 0x100) as u8,
    ]
}

/// The big-endian 8-byte encoding of a 64-bit integer.
pub open spec fn spec_u64_to_be_bytes(x: u64) -> Seq<u8> {
    seq![
        ((x / 0x100_0000_0000_0000) % 0x100) as u8,
        ((x / 0x1_0000_0000_0000) % 0x100) as u8,
        ((x / 0x100_0000_0000) % 0x100) as u8,
        ((x / 0x1_0000_0000) % 0x100) as u8,
        ((x / 0x100_0000) % 0x100) as u8,
        ((x / 0x1_0000) % 0x100) as u8,
        ((x / 0x100) % 0x100) as u8,
        ((x / 0x1) % 0x100) as u8,
    ]
}

/// The full wire encoding of one note event: pitch, velocity, duration,
/// then the timestamp of the moment the note begins.
pub open spec fn spec_note_bytes(note: Note, time: u64) -> Seq<u8> {
    seq![note.pitch, note.velocity] + spec_u32_to_be_bytes(note.duration)
        + spec_u64_to_be_bytes(time)
}

/// Append the big-endian bytes of a 32-bit integer to an output buffer.
fn push_u32_be(out: &mut Vec<u8>, x: u32)
    ensures
        final(out)@ == old(out)@ + spec_u32_to_be_bytes(x),
{
    out.push(((x / 0x100_0000) % 0x100) as u8);
    out.push(((x / 0x1_0000) % 0x100) as u8);
    out.push(((x / 0x100) % 0x100) as u8);
    out.push(((x / 0x1) % 0x100) as u8);
    assert(out@ =~= old(out)@ + spec_u32_to_be_bytes(x));
}

/// Append the big-endian bytes of a 64-bit integer to an output buffer.
fn push_u64_be(out: &mut Vec<u8>, x: u64)
    ensures
        final(out)@ == old(out)@ + spec_u64_to_be_bytes(x),
{
    out.push(((x / 0x100_0000_0000_0000) % 0x100) as u8);
    out.push(((x / 0x1_0000_0000_0000) % 0x100) as u8);
    out.push(((x / 0x100_0000_0000) % 0x100) as u8);
    out.push(((x / 0x1_0000_0000) % 0x100) as u8);
    out.push(((x / 0x100_0000) % 0x100) as u8);
    out.push(((x / 0x1_0000) % 0x100) as u8);
    out.push(((x / 0x100) % 0x100) as u8);
    out.push(((x / 0x1) % 0x100) as u8);
    assert(out@ =~= old(out)@ + spec_u64_to_be_bytes(x));
}

/// The client side of the event-sink protocol. `stream` holds every byte
/// queued for the wire since the client was created, in send order.
pub struct MidiClient {
    pub stream: Vec<u8>,
}

impl View for MidiClient {
    type V = Seq<u8>;

    open spec fn view(&self) -> Seq<u8> {
        self.stream@
    }
}

impl MidiClient {
    /// A fresh client with nothing queued yet.
    pub fn new() -> (client: MidiClient)
        ensures
            client@ == Seq::<u8>::empty(),
    {
        let client = MidiClient { stream: Vec::new() };
        assert(client@ =~= Seq::<u8>::empty());
        client
    }

    /// Queue one note event, tagged with the time at which it begins.
    pub fn send(&mut self, note: &Note, time: u64)
        ensures
            final(self)@ == old(self)@ + spec_note_bytes(*note, time),
    {
        self.stream.push(note.pitch);
        self.stream.push(note.velocity);
        push_u32_be(&mut self.stream, note.duration);
        push_u64_be(&mut self.stream, time);
        assert(self@ =~= old(self)@ + spec_note_bytes(*note, time));
    }

    /// Queue the end-of-stream sentinel.
    pub fn close(&mut self)
        ensures
            final(self)@ == old(self)@ + seq![END_OF_STREAM],
    {
        self.stream.push(END_OF_STREAM);
        assert(self@ =~= old(self)@ + seq![END_OF_STREAM]);
    }

    /// The bytes queued so far, in send order.
    pub fn bytes(&self) -> (bytes: &Vec<u8>)
        ensures
            bytes@ == self@,
    {
        &self.stream
    }
}

} // verus!

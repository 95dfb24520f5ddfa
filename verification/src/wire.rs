//! The messages that travel between the pool server and a miner.

use crate::le::{
    le_bytes, le_value, lemma_le_bytes_are_shifts, lemma_le_injective, lemma_le_round_trip, read_le,
    to_le_bytes,
};
use std::ops::{ControlFlow, Range};
use vstd::prelude::*;

verus! {

/// First byte of a message by which the server starts a task.
pub const START_TYPE: u8 = 0;

/// First byte of a message by which a miner asks for a task.
pub const READY_TYPE: u8 = 0;

/// First byte of a message that reports the best solution.
pub const SOLUTION_TYPE: u8 = 2;

/// Binary messages of type `START_TYPE` that are shorter than this are refused.
pub const START_MIN_LEN: usize = 49;

/// Number of bytes that a start message is read from.
pub const START_LEN: usize = 57;

/// What the server asks of a miner.
#[derive(Debug)]
pub enum ServerMessage {
    /// Mine this challenge, with nonces from this range, for at most this many seconds.
    StartMining([u8; 32], Range<u64>, u64),
}

/// What a start message says.
pub struct Start {
    pub challenge: Seq<u8>,
    pub first_nonce: u64,
    pub end_nonce: u64,
    pub cutoff: u64,
}

impl View for ServerMessage {
    type V = Start;

    open spec fn view(&self) -> Start {
        match *self {
            ServerMessage::StartMining(challenge, nonces, cutoff) => Start {
                challenge: challenge@,
                first_nonce: nonces.start,
                end_nonce: nonces.end,
                cutoff,
            },
        }
    }
}

/// A message as it comes off the websocket.
#[derive(Debug)]
pub enum Frame {
    Text(String),
    Binary(Vec<u8>),
    Ping(Vec<u8>),
    Pong(Vec<u8>),
    Close,
    /// Anything else, such as a raw frame.
    Other,
}

/// What is to be done about a frame.
#[derive(Debug)]
pub enum Reaction {
    /// Show the text that the server sent.
    ShowText,
    /// Hand this message to the task board.
    Start(ServerMessage),
    /// Complain about a start message that is too short.
    InvalidStart,
    /// Complain about a binary message of an unknown type.
    UnknownType,
    ShowPing,
    ShowPong,
    ShowClose,
    /// Complain about a frame that holds no message.
    InvalidFrame,
}

/// What a start message of at least `START_LEN` bytes says: the type, then the challenge, the
/// cutoff, the first nonce and the end of the nonces. What follows is ignored.
pub open spec fn start_of(b: Seq<u8>) -> Start {
    Start {
        challenge: b.subrange(1, 33),
        cutoff: le_value(b.subrange(33, 41)) as u64,
        first_nonce: le_value(b.subrange(41, 49)) as u64,
        end_nonce: le_value(b.subrange(49, 57)) as u64,
    }
}

/// The frames that can be processed: a binary one has a type, and one that is long enough to be
/// taken for a start message has all of its fields.
pub open spec fn readable(frame: Frame) -> bool {
    frame matches Frame::Binary(b) ==> {
        &&& b@.len() > 0
        &&& b@[0] == START_TYPE && b@.len() >= START_MIN_LEN ==> b@.len() >= START_LEN
    }
}

/// Whether `reaction` is the one that `frame` calls for.
pub open spec fn reacts(frame: Frame, reaction: Reaction) -> bool {
    match frame {
        Frame::Text(_) => reaction is ShowText,
        Frame::Binary(b) => if b@[0] != START_TYPE {
            reaction is UnknownType
        } else if b@.len() < START_MIN_LEN {
            reaction is InvalidStart
        } else {
            reaction matches Reaction::Start(message) && message@ == start_of(b@)
        },
        Frame::Ping(_) => reaction is ShowPing,
        Frame::Pong(_) => reaction is ShowPong,
        Frame::Close => reaction is ShowClose,
        Frame::Other => reaction is InvalidFrame,
    }
}

/// Tells whether `process_message` can take `frame`.
pub fn is_readable(frame: &Frame) -> (r: bool)
    ensures
        r == readable(*frame),
{
    match frame {
        Frame::Binary(b) => b.len() > 0 && (b[0] != START_TYPE || b.len() < START_MIN_LEN
            || b.len() >= START_LEN),
        _ => true,
    }
}

/// Decides what to do about a frame, and whether to read on: only a close frame ends the
/// conversation.
pub fn process_message(frame: &Frame) -> (r: (Reaction, ControlFlow<(), ()>))
    requires
        readable(*frame),
    ensures
        reacts(*frame, r.0),
        r.1 is Break <==> frame is Close,
{
    match frame {
        Frame::Text(_) => (Reaction::ShowText, ControlFlow::Continue(())),
        Frame::Binary(b) => {
            let reaction = if b[0] != START_TYPE {
                Reaction::UnknownType
            } else if b.len() < START_MIN_LEN {
                Reaction::InvalidStart
            } else {
                Reaction::Start(read_start(b.as_slice()))
            };
            (reaction, ControlFlow::Continue(()))
        },
        Frame::Ping(_) => (Reaction::ShowPing, ControlFlow::Continue(())),
        Frame::Pong(_) => (Reaction::ShowPong, ControlFlow::Continue(())),
        Frame::Close => (Reaction::ShowClose, ControlFlow::Break(())),
        Frame::Other => (Reaction::InvalidFrame, ControlFlow::Continue(())),
    }
}

/// Reads the fields of a start message.
fn read_start(b: &[u8]) -> (message: ServerMessage)
    requires
        b@.len() >= START_LEN,
    ensures
        message@ == start_of(b@),
{
    let mut challenge = [0u8; 32];
    let mut i: usize = 0;
    while i < 32
        invariant
            i <= 32,
            b@.len() >= START_LEN,
            forall|j: int| 0 <= j < i ==> challenge@[j] == b@[j + 1],
        decreases 32 - i,
    {
        challenge[i] = b[i + 1];
        i += 1;
    }
    let cutoff = read_le(b, 33);
    let first = read_le(b, 41);
    let end = read_le(b, 49);
    assert(challenge@ =~= b@.subrange(1, 33));
    ServerMessage::StartMining(challenge, first..end, cutoff)
}

/// What stands at the end of each message of a miner, where a signature has its place.
pub open spec fn trailer() -> Seq<u8> {
    seq![0x78u8, 0x78u8, 0x78u8]
}

/// The message that asks for a task: type, public key, time in seconds, trailer.
pub open spec fn ready_bytes(pubkey: Seq<u8>, now: u64) -> Seq<u8> {
    seq![READY_TYPE] + pubkey + le_bytes(now) + trailer()
}

/// The message that reports a solution: type, digest, nonce, public key, trailer.
pub open spec fn solution_bytes(digest: Seq<u8>, nonce: u64, pubkey: Seq<u8>) -> Seq<u8> {
    seq![SOLUTION_TYPE] + digest + le_bytes(nonce) + pubkey + trailer()
}

/// The message by which a server starts the task `m`.
pub open spec fn start_bytes(m: Start) -> Seq<u8> {
    seq![START_TYPE] + m.challenge + le_bytes(m.cutoff) + le_bytes(m.first_nonce) + le_bytes(
        m.end_nonce,
    )
}

/// Appends the trailer.
fn push_trailer(message: &mut Vec<u8>)
    ensures
        final(message)@ == old(message)@ + trailer(),
{
    message.push(0x78u8);
    message.push(0x78u8);
    message.push(0x78u8);
    assert(message@ =~= old(message)@ + trailer());
}

/// Builds the message that asks for a task, sent `now` seconds after the epoch.
pub fn ready_message(pubkey: &[u8; 32], now: u64) -> (message: Vec<u8>)
    ensures
        message@ == ready_bytes(pubkey@, now),
{
    let time = to_le_bytes(now);
    let mut message: Vec<u8> = Vec::new();
    message.push(READY_TYPE);
    message.extend_from_slice(pubkey.as_slice());
    message.extend_from_slice(time.as_slice());
    assert(message@ =~= seq![READY_TYPE] + pubkey@ + le_bytes(now));
    push_trailer(&mut message);
    message
}

/// Builds the message that reports the digest and the nonce of the best solution.
pub fn solution_message(digest: &[u8; 16], nonce: u64, pubkey: &[u8; 32]) -> (message: Vec<u8>)
    ensures
        message@ == solution_bytes(digest@, nonce, pubkey@),
{
    let nonce_bytes = to_le_bytes(nonce);
    let mut message: Vec<u8> = Vec::new();
    message.push(SOLUTION_TYPE);
    message.extend_from_slice(digest.as_slice());
    message.extend_from_slice(nonce_bytes.as_slice());
    message.extend_from_slice(pubkey.as_slice());
    assert(message@ =~= seq![SOLUTION_TYPE] + digest@ + le_bytes(nonce) + pubkey@);
    push_trailer(&mut message);
    message
}

/// What a server writes into a start message is what the miner reads, whatever follows it.
pub proof fn lemma_start_round_trip(m: Start, rest: Seq<u8>)
    requires
        m.challenge.len() == 32,
    ensures
        start_bytes(m).len() == START_LEN,
        (start_bytes(m) + rest)[0] == START_TYPE,
        start_of(start_bytes(m) + rest) == m,
{
    let b = start_bytes(m) + rest;
    lemma_le_round_trip(m.cutoff);
    lemma_le_round_trip(m.first_nonce);
    lemma_le_round_trip(m.end_nonce);
    assert(b.subrange(1, 33) =~= m.challenge);
    assert(b.subrange(33, 41) =~= le_bytes(m.cutoff));
    assert(b.subrange(41, 49) =~= le_bytes(m.first_nonce));
    assert(b.subrange(49, 57) =~= le_bytes(m.end_nonce));
}

/// The start message of a server, whatever follows it, is understood as the task that it starts.
pub proof fn lemma_start_is_understood(m: Start, rest: Seq<u8>, b: Vec<u8>, reaction: Reaction)
    requires
        m.challenge.len() == 32,
        b@ == start_bytes(m) + rest,
        reacts(Frame::Binary(b), reaction),
    ensures
        readable(Frame::Binary(b)),
        reaction matches Reaction::Start(message) && message@ == m,
{
    lemma_start_round_trip(m, rest);
}

/// Two start messages that are read alike agree in all of the bytes that are read.
pub proof fn lemma_start_injective(a: Seq<u8>, b: Seq<u8>)
    requires
        a.len() >= START_LEN,
        b.len() >= START_LEN,
        a[0] == START_TYPE,
        b[0] == START_TYPE,
        start_of(a) == start_of(b),
    ensures
        a.take(START_LEN as int) == b.take(START_LEN as int),
        a.take(START_LEN as int) == start_bytes(start_of(a)),
{
    lemma_start_rebuilds(a);
    lemma_start_rebuilds(b);
}

/// A start message is rebuilt from what it says.
proof fn lemma_start_rebuilds(b: Seq<u8>)
    requires
        b.len() >= START_LEN,
        b[0] == START_TYPE,
    ensures
        b.take(START_LEN as int) == start_bytes(start_of(b)),
{
    lemma_le_injective(b.subrange(33, 41));
    lemma_le_injective(b.subrange(41, 49));
    lemma_le_injective(b.subrange(49, 57));
    assert(b.take(57) =~= seq![START_TYPE] + b.subrange(1, 33) + b.subrange(33, 41) + b.subrange(
        41,
        49,
    ) + b.subrange(49, 57));
}

/// A ready message is 44 bytes long, and its fields can be read back from their places.
pub proof fn lemma_ready_layout(pubkey: Seq<u8>, now: u64)
    requires
        pubkey.len() == 32,
    ensures
        ({
            let b = ready_bytes(pubkey, now);
            &&& b.len() == 44
            &&& b[0] == 0 && READY_TYPE == 0
            &&& b.subrange(1, 33) == pubkey
            &&& le_value(b.subrange(33, 41)) == now
            &&& forall|i: int|
                33 <= i < 41 ==> #[trigger] b[i] == (now >> (8 * (i - 33)) as u64) & 0xff
            &&& b.subrange(41, 44) == trailer()
            &&& b[41] == 0x78 && b[42] == 0x78 && b[43] == 0x78
        }),
{
    let b = ready_bytes(pubkey, now);
    lemma_le_round_trip(now);
    assert(b.subrange(1, 33) =~= pubkey);
    assert(b.subrange(33, 41) =~= le_bytes(now));
    lemma_le_bytes_are_shifts(now);
    assert(b.subrange(41, 44) =~= trailer());
    assert forall|i: int| 33 <= i < 41 implies #[trigger] b[i] == (now >> (8 * (i - 33)) as u64)
        & 0xff by {
        assert(b[i] == le_bytes(now)[i - 33]);
    }
}

/// A solution message is 60 bytes long, and its fields can be read back from their places.
pub proof fn lemma_solution_layout(digest: Seq<u8>, nonce: u64, pubkey: Seq<u8>)
    requires
        digest.len() == 16,
        pubkey.len() == 32,
    ensures
        ({
            let b = solution_bytes(digest, nonce, pubkey);
            &&& b.len() == 60
            &&& b[0] == 2 && SOLUTION_TYPE == 2
            &&& b.subrange(1, 17) == digest
            &&& le_value(b.subrange(17, 25)) == nonce
            &&& forall|i: int|
                17 <= i < 25 ==> #[trigger] b[i] == (nonce >> (8 * (i - 17)) as u64) & 0xff
            &&& b.subrange(25, 57) == pubkey
            &&& b.subrange(57, 60) == trailer()
            &&& b[57] == 0x78 && b[58] == 0x78 && b[59] == 0x78
        }),
{
    let b = solution_bytes(digest, nonce, pubkey);
    lemma_le_round_trip(nonce);
    assert(b.subrange(1, 17) =~= digest);
    assert(b.subrange(17, 25) =~= le_bytes(nonce));
    assert(b.subrange(25, 57) =~= pubkey);
    lemma_le_bytes_are_shifts(nonce);
    assert(b.subrange(57, 60) =~= trailer());
    assert forall|i: int| 17 <= i < 25 implies #[trigger] b[i] == (nonce >> (8 * (i - 17)) as u64)
        & 0xff by {
        assert(b[i] == le_bytes(nonce)[i - 17]);
    }
}

/// What a frame calls for, told from its bytes: a binary frame that begins with a zero starts a task
/// if it is 49 bytes long or longer, and is refused if it is shorter; any other binary frame is
/// unknown. The task is spelled out byte by byte. Only a close frame is the last.
pub proof fn lemma_frames_and_reactions(frame: &Frame, r: (Reaction, ControlFlow<(), ()>))
    requires
        readable(*frame),
        call_ensures(process_message, (frame,), r),
    ensures
        r.0 is Start <==> (frame matches Frame::Binary(b) && b@[0] == 0 && b@.len() >= 49),
        r.0 is InvalidStart <==> (frame matches Frame::Binary(b) && b@[0] == 0 && b@.len() < 49),
        r.0 is UnknownType <==> (frame matches Frame::Binary(b) && b@[0] != 0),
        r.0 is ShowText <==> frame is Text,
        r.0 is ShowPing <==> frame is Ping,
        r.0 is ShowPong <==> frame is Pong,
        r.0 is ShowClose <==> frame is Close,
        r.0 is InvalidFrame <==> frame is Other,
        r.1 is Break <==> frame is Close,
        r.0 matches Reaction::Start(ServerMessage::StartMining(challenge, nonces, cutoff)) ==> {
            let b = frame->Binary_0@;
            &&& b.len() >= 57
            &&& forall|i: int| 1 <= i < 33 ==> #[trigger] b[i] == challenge@[i - 1]
            &&& forall|i: int|
                33 <= i < 41 ==> #[trigger] b[i] == (cutoff >> (8 * (i - 33)) as u64) & 0xff
            &&& forall|i: int|
                41 <= i < 49 ==> #[trigger] b[i] == (nonces.start >> (8 * (i - 41)) as u64) & 0xff
            &&& forall|i: int|
                49 <= i < 57 ==> #[trigger] b[i] == (nonces.end >> (8 * (i - 49)) as u64) & 0xff
        },
{
    if let Reaction::Start(message) = r.0 {
        lemma_start_fields(frame->Binary_0@);
        let ServerMessage::StartMining(challenge, nonces, cutoff) = message;
        assert(message@.challenge == challenge@);
    }
}

/// What a start message says, byte by byte.
pub proof fn lemma_start_fields(b: Seq<u8>)
    requires
        b.len() >= 57,
    ensures
        start_of(b).challenge.len() == 32,
        forall|i: int| 1 <= i < 33 ==> #[trigger] b[i] == start_of(b).challenge[i - 1],
        forall|i: int|
            33 <= i < 41 ==> #[trigger] b[i] == (start_of(b).cutoff >> (8 * (i - 33)) as u64)
                & 0xff,
        forall|i: int|
            41 <= i < 49 ==> #[trigger] b[i] == (start_of(b).first_nonce >> (8 * (i - 41)) as u64)
                & 0xff,
        forall|i: int|
            49 <= i < 57 ==> #[trigger] b[i] == (start_of(b).end_nonce >> (8 * (i - 49)) as u64)
                & 0xff,
{
    lemma_field(b, 33, start_of(b).cutoff);
    lemma_field(b, 41, start_of(b).first_nonce);
    lemma_field(b, 49, start_of(b).end_nonce);
}

/// The bytes of a field of eight bytes.
proof fn lemma_field(b: Seq<u8>, at: int, x: u64)
    requires
        0 <= at,
        at + 8 <= b.len(),
        x == le_value(b.subrange(at, at + 8)) as u64,
    ensures
        forall|i: int|
            at <= i < at + 8 ==> #[trigger] b[i] == (x >> (8 * (i - at)) as u64) & 0xff,
{
    let s = b.subrange(at, at + 8);
    lemma_le_injective(s);
    lemma_le_bytes_are_shifts(x);
    assert forall|i: int| at <= i < at + 8 implies #[trigger] b[i] == (x >> (8 * (i - at)) as u64)
        & 0xff by {
        assert(s[i - at] == b[i]);
    }
}

/// A frame cannot be read just if it is binary and empty, or begins with a zero and breaks off
/// within the last eight bytes of a start message.
pub proof fn lemma_frames_that_break_off(frame: &Frame, r: bool)
    requires
        call_ensures(is_readable, (frame,), r),
    ensures
        r == readable(*frame),
        !r <==> (frame matches Frame::Binary(b) && (b@.len() == 0 || b@[0] == 0 && 49 <= b@.len()
            < 57)),
{
}

} // verus!

//! The two flows of a session: one reads frames and delivers messages, the
//! other frames the user's input, and a signal from the first ends the
//! second.

use vstd::prelude::*;
use vstd::slice::{slice_subrange, slice_to_vec};
use vstd::utf8::{is_ascii_chars, is_ascii_chars_encode_utf8};

use crate::crypt::{decrypt, decrypted, encrypted, lemma_cipher_round_trip};
use crate::net::framing::{frame_message, framed, length_prefix};
use crate::text::{chars_of, text_of, trim_bounds, trimmed};

verus! {

/// Where the receiving side of a session stands.
#[derive(Debug, Clone, Copy, PartialEq, Eq, Structural)]
pub enum ReceiveState {
    /// Inside a length prefix; `total` is the sum of its bytes so far.
    Length { total: u64 },
    /// Before the `length` bytes of ciphertext of a frame.
    Body { length: u64 },
    /// The session is over.
    Closed,
}

/// What the connection handed to the receiving side.
#[derive(Debug, PartialEq, Eq)]
pub enum ReceiveEvent {
    /// The bytes that were asked for.
    Data(Vec<u8>),
    /// The read failed, or the peer closed the connection.
    Failed,
}

/// What the receiving side asks of its driver next.
#[derive(Debug, Clone, Copy, PartialEq, Eq, Structural)]
pub enum ReceiveRequest {
    /// Read exactly this many bytes and hand them back.
    Read(u64),
    /// Raise the cancellation signal and stop.
    Stop,
}

/// The outcome of one step of the receiving side.
#[derive(Debug, PartialEq, Eq)]
pub struct ReceiveOutput {
    /// A message to show, where the step completed one.
    pub delivered: Option<String>,
    /// What to do next.
    pub request: ReceiveRequest,
}

/// The state in which the receiving side starts.
pub open spec fn receive_start() -> ReceiveState {
    ReceiveState::Length { total: 0 }
}

/// What a state of the receiving side asks of its driver.
pub open spec fn receive_request(state: ReceiveState) -> ReceiveRequest {
    match state {
        ReceiveState::Length { total } => ReceiveRequest::Read(1),
        ReceiveState::Body { length } => ReceiveRequest::Read(length),
        ReceiveState::Closed => ReceiveRequest::Stop,
    }
}

impl View for ReceiveEvent {
    type V = Option<Seq<u8>>;

    /// The bytes that arrived, or nothing where the read failed.
    open spec fn view(&self) -> Option<Seq<u8>> {
        match self {
            ReceiveEvent::Data(bytes) => Some(bytes@),
            ReceiveEvent::Failed => None,
        }
    }
}

/// The state that follows `state` when the bytes `data` arrive, or when the
/// read fails. A byte of a length prefix adds to the total, and closes the
/// prefix unless it is 255; a body of the announced length completes a
/// frame; anything else ends the session.
pub open spec fn receive_next(state: ReceiveState, data: Option<Seq<u8>>) -> ReceiveState {
    match (state, data) {
        (ReceiveState::Length { total }, Some(bytes)) => {
            if bytes.len() != 1 || total + bytes[0] > u64::MAX {
                ReceiveState::Closed
            } else if bytes[0] == 255 {
                ReceiveState::Length { total: (total + 255) as u64 }
            } else {
                ReceiveState::Body { length: (total + bytes[0]) as u64 }
            }
        },
        (ReceiveState::Body { length }, Some(bytes)) => {
            if bytes.len() == length {
                ReceiveState::Length { total: 0 }
            } else {
                ReceiveState::Closed
            }
        },
        _ => ReceiveState::Closed,
    }
}

/// The message that a step delivers: the text of a body that arrived in
/// full, without the white space at its ends.
pub open spec fn receive_delivery(
    state: ReceiveState,
    key: Seq<u8>,
    data: Option<Seq<u8>>,
) -> Option<Seq<char>> {
    match (state, data) {
        (ReceiveState::Body { length }, Some(bytes)) => {
            if bytes.len() == length {
                Some(trimmed(decrypted(key, bytes)))
            } else {
                None
            }
        },
        _ => None,
    }
}

/// The state in which the receiving side of a session starts, and what it
/// asks first: the first byte of a length prefix.
pub fn receive_begin() -> (start: (ReceiveState, ReceiveRequest))
    ensures
        start.0 == receive_start(),
        start.1 == receive_request(start.0),
{
    (ReceiveState::Length { total: 0 }, ReceiveRequest::Read(1))
}

/// Decrypts the body of a frame into the message to show.
pub fn open_body(key: &[u8], body: &[u8]) -> (text: String)
    requires
        key@.len() > 0,
    ensures
        text@ == trimmed(decrypted(key@, body@)),
{
    let plain = decrypt(key, body);
    let chars = chars_of(plain.as_str());
    assert(chars@.subrange(0, chars@.len() as int) =~= chars@);
    let (start, end) = trim_bounds(&chars, 0, chars.len());
    text_of(&chars, start, end)
}

/// One step of the receiving side: takes what the connection handed over
/// and says where the flow stands now, what it delivers and what it asks.
pub fn receive_step(state: ReceiveState, key: &[u8], event: ReceiveEvent) -> (next: (
    ReceiveState,
    ReceiveOutput,
))
    requires
        key@.len() > 0,
    ensures
        next.0 == receive_next(state, event@),
        next.1.request == receive_request(next.0),
        match receive_delivery(state, key@, event@) {
            Some(text) => next.1.delivered matches Some(shown) && shown@ == text,
            None => next.1.delivered is None,
        },
{
    let mut delivered: Option<String> = None;
    let target = match (state, &event) {
        (ReceiveState::Length { total }, ReceiveEvent::Data(bytes)) => {
            if bytes.len() != 1 {
                ReceiveState::Closed
            } else {
                match total.checked_add(bytes[0] as u64) {
                    None => ReceiveState::Closed,
                    Some(sum) => if bytes[0] == 255 {
                        ReceiveState::Length { total: sum }
                    } else {
                        ReceiveState::Body { length: sum }
                    },
                }
            }
        },
        (ReceiveState::Body { length }, ReceiveEvent::Data(bytes)) => {
            if bytes.len() as u64 == length {
                delivered = Some(open_body(key, bytes.as_slice()));
                ReceiveState::Length { total: 0 }
            } else {
                ReceiveState::Closed
            }
        },
        _ => ReceiveState::Closed,
    };
    let request = match target {
        ReceiveState::Length { total } => ReceiveRequest::Read(1),
        ReceiveState::Body { length } => ReceiveRequest::Read(length),
        ReceiveState::Closed => ReceiveRequest::Stop,
    };
    (target, ReceiveOutput { delivered, request })
}

/// Once the receiving side has closed it stays closed, delivers nothing and
/// asks only to stop; and a failed read closes it from any state.
pub proof fn lemma_receive_closes(state: ReceiveState, key: Seq<u8>, data: Option<Seq<u8>>)
    ensures
        state == ReceiveState::Closed || data is None ==> {
            &&& receive_next(state, data) == ReceiveState::Closed
            &&& receive_delivery(state, key, data) is None
            &&& receive_request(receive_next(state, data)) == ReceiveRequest::Stop
        },
{
}

/// The messages that the receiving side delivers when it starts in `state`
/// and the connection holds `stream` and then ends: each read gets the bytes
/// it asked for while there are enough of them, and fails after that.
pub open spec fn received(state: ReceiveState, key: Seq<u8>, stream: Seq<u8>) -> Seq<Seq<char>>
    decreases stream.len(), (if state is Body { 1nat } else { 0nat }),
{
    match receive_request(state) {
        ReceiveRequest::Stop => Seq::empty(),
        ReceiveRequest::Read(count) => {
            if count > stream.len() {
                Seq::empty()
            } else {
                let data = Some(stream.take(count as int));
                let after = received(receive_next(state, data), key, stream.skip(count as int));
                match receive_delivery(state, key, data) {
                    Some(text) => seq![text] + after,
                    None => after,
                }
            }
        },
    }
}

/// The texts of a list of messages.
pub open spec fn texts_of(messages: Seq<String>) -> Seq<Seq<char>> {
    Seq::new(messages.len(), |i: int| messages[i]@)
}

/// Runs the receiving side over a connection that holds `stream` and then
/// ends, and gives the messages that it delivers.
pub fn receive_stream(key: &[u8], stream: &[u8]) -> (messages: Vec<String>)
    requires
        key@.len() > 0,
    ensures
        texts_of(messages@) == received(receive_start(), key@, stream@),
{
    let mut messages: Vec<String> = Vec::new();
    let (start, first) = receive_begin();
    let mut state = start;
    let mut request = first;
    let mut pos: usize = 0;
    assert(stream@.skip(0) =~= stream@);
    assert(texts_of(messages@) =~= Seq::<Seq<char>>::empty());
    loop
        invariant
            key@.len() > 0,
            0 <= pos <= stream@.len(),
            request == receive_request(state),
            received(receive_start(), key@, stream@) == texts_of(messages@) + received(
                state,
                key@,
                stream@.skip(pos as int),
            ),
        ensures
            texts_of(messages@) == received(receive_start(), key@, stream@),
        decreases stream@.len() - pos, (if state is Body { 1nat } else { 0nat }),
    {
        let ghost rest = stream@.skip(pos as int);
        let count = match request {
            ReceiveRequest::Read(count) => count,
            ReceiveRequest::Stop => {
                assert(texts_of(messages@) + Seq::<Seq<char>>::empty() =~= texts_of(messages@));
                break ;
            },
        };
        if count > (stream.len() - pos) as u64 {
            assert(texts_of(messages@) + Seq::<Seq<char>>::empty() =~= texts_of(messages@));
            break ;
        }
        let until = pos + count as usize;
        let data = slice_to_vec(slice_subrange(stream, pos, until));
        proof {
            assert(data@ =~= rest.take(count as int));
            assert(rest.skip(count as int) =~= stream@.skip(until as int));
        }
        let ghost before = texts_of(messages@);
        let (next, output) = receive_step(state, key, ReceiveEvent::Data(data));
        match output.delivered {
            Some(text) => {
                messages.push(text);
                proof {
                    let after = received(next, key@, stream@.skip(until as int));
                    assert(texts_of(messages@) =~= before + seq![text@]);
                    assert(before + (seq![text@] + after) =~= (before + seq![text@]) + after);
                }
            },
            None => {},
        }
        state = next;
        request = output.request;
        pos = until;
    }
    messages
}

/// Reading a length prefix takes the flow to the body it announces.
proof fn lemma_received_prefix(total: u64, len: nat, key: Seq<u8>, tail: Seq<u8>)
    requires
        total + len <= u64::MAX,
    ensures
        received(ReceiveState::Length { total }, key, length_prefix(len) + tail) == received(
            ReceiveState::Body { length: (total + len) as u64 },
            key,
            tail,
        ),
    decreases len,
{
    let stream = length_prefix(len) + tail;
    let state = ReceiveState::Length { total };
    let data = Some(stream.take(1));
    assert(stream.take(1)[0] == stream[0]);
    if len >= 255 {
        let rest = length_prefix((len - 255) as nat);
        assert(stream.skip(1) =~= rest + tail);
        lemma_received_prefix((total + 255) as u64, (len - 255) as nat, key, tail);
    } else {
        assert(stream.skip(1) =~= tail);
    }
}

/// A frame on the connection is delivered as one message: the receiving
/// side, at the start of a frame, delivers the text that the frame holds and
/// goes on with what follows the frame.
pub proof fn lemma_received_frame(key: Seq<u8>, text: Seq<char>, rest: Seq<u8>)
    requires
        encrypted(key, text).len() <= u64::MAX,
    ensures
        received(receive_start(), key, framed(key, text) + rest) == seq![
            trimmed(decrypted(key, encrypted(key, text))),
        ] + received(receive_start(), key, rest),
{
    let body = encrypted(key, text);
    let tail = body + rest;
    assert(framed(key, text) + rest =~= length_prefix(body.len()) + tail);
    lemma_received_prefix(0, body.len(), key, tail);
    assert(tail.take(body.len() as int) =~= body);
    assert(tail.skip(body.len() as int) =~= rest);
}

/// The frames of a run of messages, one after the other.
pub open spec fn framed_all(key: Seq<u8>, texts: Seq<Seq<char>>) -> Seq<u8>
    decreases texts.len(),
{
    if texts.len() == 0 {
        Seq::empty()
    } else {
        framed(key, texts[0]) + framed_all(key, texts.skip(1))
    }
}

/// What the peer reads of a run of messages: each text as it comes out of
/// the cipher, without the white space at its ends.
pub open spec fn delivered_all(key: Seq<u8>, texts: Seq<Seq<char>>) -> Seq<Seq<char>> {
    Seq::new(texts.len(), |i: int| trimmed(decrypted(key, encrypted(key, texts[i]))))
}

/// A connection that carries the frames of some messages and then closes
/// delivers exactly these messages, in order, and nothing after them.
pub proof fn lemma_received_all(key: Seq<u8>, texts: Seq<Seq<char>>)
    requires
        forall|i: int|
            0 <= i < texts.len() ==> encrypted(key, #[trigger] texts[i]).len() <= u64::MAX,
    ensures
        received(receive_start(), key, framed_all(key, texts)) == delivered_all(key, texts),
    decreases texts.len(),
{
    if texts.len() == 0 {
        assert(delivered_all(key, texts) =~= Seq::<Seq<char>>::empty());
    } else {
        let rest = texts.skip(1);
        assert forall|i: int| 0 <= i < rest.len() implies encrypted(key, #[trigger] rest[i]).len()
            <= u64::MAX by {
            assert(rest[i] == texts[i + 1]);
        }
        lemma_received_all(key, rest);
        lemma_received_frame(key, texts[0], framed_all(key, rest));
        assert(delivered_all(key, texts) =~= seq![
            trimmed(decrypted(key, encrypted(key, texts[0]))),
        ] + delivered_all(key, rest));
    }
}

/// A message of one-byte characters arrives as it was sent, but for the
/// white space at its ends.
pub proof fn lemma_received_text(key: Seq<u8>, text: Seq<char>, rest: Seq<u8>)
    requires
        key.len() > 0,
        is_ascii_chars(text),
        text.len() <= u64::MAX,
    ensures
        received(receive_start(), key, framed(key, text) + rest) == seq![trimmed(text)] + received(
            receive_start(),
            key,
            rest,
        ),
{
    is_ascii_chars_encode_utf8(text);
    lemma_cipher_round_trip(key, text);
    lemma_received_frame(key, text, rest);
}

/// When the connection ends between two frames, the receiving side
/// delivers nothing more.
pub proof fn lemma_received_end(key: Seq<u8>)
    ensures
        received(receive_start(), key, Seq::empty()) == Seq::<Seq<char>>::empty(),
{
}

/// Where the sending side of a session stands.
#[derive(Debug, Clone, Copy, PartialEq, Eq, Structural)]
pub enum SendState {
    /// Waiting for a message to send or for the cancellation signal.
    Waiting,
    /// A frame is being written.
    Writing,
    /// The flow has ended.
    Closed,
}

/// What happened while the sending side waited.
#[derive(Debug, PartialEq, Eq)]
pub enum SendEvent {
    /// The wait ended: the cancellation signal is up, a line of input is
    /// there, or both.
    Woken { cancelled: bool, input: Option<String> },
    /// The frame was written.
    Written,
    /// The write failed.
    WriteFailed,
}

/// What the sending side asks of its driver next.
#[derive(Debug, PartialEq, Eq)]
pub enum SendAction {
    /// Wait for input or for the cancellation signal.
    Wait,
    /// Write these bytes to the connection.
    Write(Vec<u8>),
    /// Stop.
    Stop,
}

/// The state that follows `state` on `event`. Cancellation wins over input
/// that is ready at the same time.
pub open spec fn send_next(state: SendState, event: SendEvent) -> SendState {
    match (state, event) {
        (SendState::Waiting, SendEvent::Woken { cancelled, input }) => {
            if cancelled {
                SendState::Closed
            } else if input is Some {
                SendState::Writing
            } else {
                SendState::Waiting
            }
        },
        (SendState::Writing, SendEvent::Written) => SendState::Waiting,
        _ => SendState::Closed,
    }
}

/// The frame that a step hands out to be written, if any: that of the
/// input, where the flow was waiting and no cancellation came.
pub open spec fn send_frame(state: SendState, key: Seq<u8>, event: SendEvent) -> Option<Seq<u8>> {
    match (state, event) {
        (SendState::Waiting, SendEvent::Woken { cancelled, input }) => {
            if !cancelled && input is Some {
                Some(framed(key, input->0@))
            } else {
                None
            }
        },
        _ => None,
    }
}

/// The state in which the sending side of a session starts, and what it
/// asks first: to wait.
pub fn send_begin() -> (start: (SendState, SendAction))
    ensures
        start.0 == SendState::Waiting,
        start.1 is Wait,
{
    (SendState::Waiting, SendAction::Wait)
}

/// One step of the sending side.
pub fn send_step(state: SendState, key: &[u8], event: SendEvent) -> (next: (SendState, SendAction))
    requires
        key@.len() > 0,
    ensures
        next.0 == send_next(state, event),
        match next.0 {
            SendState::Waiting => next.1 is Wait,
            SendState::Writing => next.1 matches SendAction::Write(frame) && Some(frame@)
                == send_frame(state, key@, event),
            SendState::Closed => next.1 is Stop,
        },
        next.1 is Write <==> send_frame(state, key@, event) is Some,
{
    match (state, &event) {
        (SendState::Waiting, SendEvent::Woken { cancelled, input }) => {
            if *cancelled {
                (SendState::Closed, SendAction::Stop)
            } else {
                match input {
                    Some(text) => (
                        SendState::Writing,
                        SendAction::Write(frame_message(key, text.as_str())),
                    ),
                    None => (SendState::Waiting, SendAction::Wait),
                }
            }
        },
        (SendState::Writing, SendEvent::Written) => (SendState::Waiting, SendAction::Wait),
        _ => (SendState::Closed, SendAction::Stop),
    }
}

/// After the cancellation signal the sending side writes nothing more: a
/// step that sees the signal, or starts from the closed state, hands out no
/// frame and ends closed.
pub proof fn lemma_send_stops_on_cancel(state: SendState, key: Seq<u8>, event: SendEvent)
    ensures
        (event matches SendEvent::Woken { cancelled, input } && cancelled) || state
            == SendState::Closed ==> {
            &&& send_next(state, event) == SendState::Closed
            &&& send_frame(state, key, event) is None
        },
{
}

} // verus!

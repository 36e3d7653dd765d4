//! The handshake that gives both sides of a connection the same secret.

use vstd::prelude::*;
use vstd::utf8::is_ascii_chars;

use crate::crypt::dh::{
    gen_common_key, gen_key_pair, lemma_shared_secret_agreement, shared_secret, KeyPair,
};
use crate::net::framing::framed;
use crate::net::pump::{lemma_received_text, receive_start, received};
use crate::text::{
    decimal_digits, lemma_decimal_round_trip, lemma_digits_hold_no_line_feed, lemma_lines_split,
    lines, parsed_number, push_decimal, trimmed,
};
use crate::utils::{parse_u64, AppError};

verus! {

/// What the connection handed to a handshake that waits for a line.
#[derive(Debug, PartialEq, Eq)]
pub enum HandshakeEvent {
    /// A line of text arrived.
    Line(String),
    /// The stream ended before a line.
    Ended,
    /// The read failed.
    Failed,
}

/// The number that a handshake reads out of an event: that on the line, or
/// the reason why there is none.
pub open spec fn line_number(event: HandshakeEvent) -> Result<u64, AppError> {
    match event {
        HandshakeEvent::Line(text) => match parsed_number(text@, u64::MAX as nat) {
            Some(v) => Ok(v as u64),
            None => Err(AppError::Parse),
        },
        HandshakeEvent::Ended => Err(AppError::Protocol),
        HandshakeEvent::Failed => Err(AppError::Io),
    }
}

/// Reads the number of a handshake line.
pub fn read_number(event: &HandshakeEvent) -> (number: Result<u64, AppError>)
    ensures
        number == line_number(*event),
{
    match event {
        HandshakeEvent::Line(text) => parse_u64(text.as_str()),
        HandshakeEvent::Ended => Err(AppError::Protocol),
        HandshakeEvent::Failed => Err(AppError::Io),
    }
}

/// What the accepting side sends first: its public value, the modulus and
/// the generator, each on a line of its own.
pub open spec fn hello_text(key: KeyPair) -> Seq<char> {
    decimal_digits(key.public as nat) + seq!['\n'] + decimal_digits(key.modulus as nat) + seq![
        '\n',
    ] + decimal_digits(key.gen as nat) + seq!['\n']
}

/// The opening message of the accepting side.
pub fn server_hello(key: &KeyPair) -> (text: String)
    ensures
        text@ == hello_text(*key),
{
    let mut text = String::new();
    push_decimal(&mut text, key.public);
    text.push('\n');
    push_decimal(&mut text, key.modulus);
    text.push('\n');
    push_decimal(&mut text, key.gen);
    text.push('\n');
    assert(text@ =~= hello_text(*key));
    text
}

/// The opening message reads back as what was sent: it has three lines,
/// and they hold the public value, the modulus and the generator.
pub proof fn lemma_hello_round_trip(key: KeyPair)
    ensures
        lines(hello_text(key)).len() == 3,
        parsed_number(lines(hello_text(key))[0], u64::MAX as nat) == Some(key.public as nat),
        parsed_number(lines(hello_text(key))[1], u64::MAX as nat) == Some(key.modulus as nat),
        parsed_number(lines(hello_text(key))[2], u64::MAX as nat) == Some(key.gen as nat),
{
    let a = decimal_digits(key.public as nat);
    let b = decimal_digits(key.modulus as nat);
    let c = decimal_digits(key.gen as nat);
    let feed = seq!['\n'];
    lemma_digits_hold_no_line_feed(key.public as nat);
    lemma_digits_hold_no_line_feed(key.modulus as nat);
    lemma_digits_hold_no_line_feed(key.gen as nat);
    lemma_lines_split(c, Seq::empty());
    lemma_lines_split(b, c + feed);
    lemma_lines_split(a, b + feed + (c + feed));
    assert(c + feed + Seq::<char>::empty() =~= c + feed);
    assert(hello_text(key) =~= a + feed + (b + feed + (c + feed)));
    assert(lines(hello_text(key)) =~= seq![a, b, c]);
    lemma_decimal_round_trip(key.public as nat, u64::MAX as nat);
    lemma_decimal_round_trip(key.modulus as nat, u64::MAX as nat);
    lemma_decimal_round_trip(key.gen as nat, u64::MAX as nat);
}

/// Ends the handshake of the accepting side: reads the peer's public value
/// from its answer and derives the shared secret.
pub fn server_finish(key: &KeyPair, event: &HandshakeEvent) -> (secret: Result<Vec<u8>, AppError>)
    requires
        key.modulus > 0,
    ensures
        match line_number(*event) {
            Ok(peer_public) => secret matches Ok(bytes) && bytes@ == shared_secret(
                key.modulus as nat,
                key.private as nat,
                peer_public as nat,
            ) && bytes@.len() == 32,
            Err(reason) => secret matches Err(e) && e == reason,
        },
{
    match read_number(event) {
        Ok(peer_public) => Ok(gen_common_key(key.modulus, key.private, peer_public)),
        Err(reason) => Err(reason),
    }
}

/// Where the handshake of the connecting side stands.
#[derive(Debug, Clone, Copy, PartialEq, Eq, Structural)]
pub enum ClientHandshake {
    /// Waiting for the peer's public value.
    NeedPublic,
    /// Waiting for the modulus.
    NeedModulus { peer_public: u64 },
    /// Waiting for the generator.
    NeedGenerator { peer_public: u64, modulus: u64 },
    /// The shared secret is derived.
    Established,
    /// The handshake was given up.
    Failed,
}

/// What the connecting side sends back, and what it keeps.
#[derive(Debug, PartialEq, Eq)]
pub struct ClientReply {
    /// The key pair made for this session.
    pub key: KeyPair,
    /// The line to send: the own public value.
    pub line: String,
    /// The shared secret.
    pub secret: Vec<u8>,
}

/// What the handshake of the connecting side asks of its driver next.
#[derive(Debug, PartialEq, Eq)]
pub enum ClientAction {
    /// Read the next line and hand it back.
    ReadLine,
    /// Send the line of the reply; the session is established.
    Reply(ClientReply),
    /// Close the connection.
    Abort(AppError),
}

/// The state that follows `state` on `event`: each number read takes the
/// handshake one line further, the third establishes the session unless
/// the modulus is zero, and anything else gives the handshake up.
pub open spec fn client_next(state: ClientHandshake, event: HandshakeEvent) -> ClientHandshake {
    match (state, line_number(event)) {
        (ClientHandshake::NeedPublic, Ok(v)) => ClientHandshake::NeedModulus { peer_public: v },
        (ClientHandshake::NeedModulus { peer_public }, Ok(v)) => ClientHandshake::NeedGenerator {
            peer_public,
            modulus: v,
        },
        (ClientHandshake::NeedGenerator { peer_public, modulus }, Ok(v)) => if modulus > 0 {
            ClientHandshake::Established
        } else {
            ClientHandshake::Failed
        },
        _ => ClientHandshake::Failed,
    }
}

/// Why a step gives the handshake up: for the reason why it got no number,
/// or, where it got one, because the protocol does not allow the step.
pub open spec fn client_failure(event: HandshakeEvent) -> AppError {
    match line_number(event) {
        Ok(_) => AppError::Protocol,
        Err(reason) => reason,
    }
}

/// `reply` is what the connecting side answers to the offer of
/// `peer_public`, `modulus` and `generator`: a well-formed key pair in that
/// group, its public value as a line, and the secret both sides share.
pub open spec fn answers_offer(
    reply: ClientReply,
    peer_public: u64,
    modulus: u64,
    generator: u64,
) -> bool {
    &&& reply.key.wf()
    &&& reply.key.modulus == modulus
    &&& reply.key.gen == generator
    &&& reply.line@ == decimal_digits(reply.key.public as nat) + seq!['\n']
    &&& reply.secret@ == shared_secret(
        modulus as nat,
        reply.key.private as nat,
        peer_public as nat,
    )
    &&& reply.secret@.len() == 32
}

/// The reply of the connecting side, with the key pair that it made.
pub fn client_reply(key: KeyPair, peer_public: u64) -> (reply: ClientReply)
    requires
        key.modulus > 0,
    ensures
        reply.key == key,
        reply.line@ == decimal_digits(key.public as nat) + seq!['\n'],
        reply.secret@ == shared_secret(
            key.modulus as nat,
            key.private as nat,
            peer_public as nat,
        ),
        reply.secret@.len() == 32,
{
    let mut line = String::new();
    push_decimal(&mut line, key.public);
    line.push('\n');
    assert(line@ =~= decimal_digits(key.public as nat) + seq!['\n']);
    let secret = gen_common_key(key.modulus, key.private, peer_public);
    ClientReply { key, line, secret }
}

/// The state in which the handshake of the connecting side starts, and
/// what it asks first: a line.
pub fn client_begin() -> (start: (ClientHandshake, ClientAction))
    ensures
        start.0 == ClientHandshake::NeedPublic,
        start.1 is ReadLine,
{
    (ClientHandshake::NeedPublic, ClientAction::ReadLine)
}

/// One step of the handshake of the connecting side. On the third number
/// it draws a key pair for the session.
pub fn client_step(state: ClientHandshake, event: &HandshakeEvent) -> (next: (
    ClientHandshake,
    ClientAction,
))
    ensures
        next.0 == client_next(state, *event),
        match next.0 {
            ClientHandshake::NeedPublic => false,
            ClientHandshake::NeedModulus { .. } | ClientHandshake::NeedGenerator { .. } => next.1
                is ReadLine,
            ClientHandshake::Established => state matches ClientHandshake::NeedGenerator {
                peer_public,
                modulus,
            } && line_number(*event) matches Ok(generator) && next.1 matches ClientAction::Reply(
                reply,
            ) && answers_offer(reply, peer_public, modulus, generator),
            ClientHandshake::Failed => next.1 matches ClientAction::Abort(reason) && reason
                == client_failure(*event),
        },
{
    let number = read_number(event);
    match (state, number) {
        (ClientHandshake::NeedPublic, Ok(v)) => (
            ClientHandshake::NeedModulus { peer_public: v },
            ClientAction::ReadLine,
        ),
        (ClientHandshake::NeedModulus { peer_public }, Ok(v)) => (
            ClientHandshake::NeedGenerator { peer_public, modulus: v },
            ClientAction::ReadLine,
        ),
        (ClientHandshake::NeedGenerator { peer_public, modulus }, Ok(generator)) => {
            if modulus > 0 {
                let key = gen_key_pair(modulus, generator);
                (ClientHandshake::Established, ClientAction::Reply(client_reply(key, peer_public)))
            } else {
                (ClientHandshake::Failed, ClientAction::Abort(AppError::Protocol))
            }
        },
        (_, Ok(_)) => (ClientHandshake::Failed, ClientAction::Abort(AppError::Protocol)),
        (_, Err(reason)) => (ClientHandshake::Failed, ClientAction::Abort(reason)),
    }
}

/// The two sides of a handshake end with the same secret: what the
/// connecting side derives from the offer of a well-formed key pair is what
/// the accepting side derives from the reply.
pub proof fn lemma_handshake_agrees(server: KeyPair, reply: ClientReply)
    requires
        server.wf(),
        answers_offer(reply, server.public, server.modulus, server.gen),
    ensures
        reply.secret@ == shared_secret(
            server.modulus as nat,
            server.private as nat,
            reply.key.public as nat,
        ),
{
    lemma_shared_secret_agreement(reply.key, server);
}

/// After a handshake each side reads what the other wrote: a message of
/// one-byte characters that the connecting side frames under its secret
/// comes out, on the accepting side and under the secret derived there, as
/// it went in, but for the white space at its ends.
pub proof fn lemma_session_delivers(
    server: KeyPair,
    reply: ClientReply,
    text: Seq<char>,
    rest: Seq<u8>,
)
    requires
        server.wf(),
        answers_offer(reply, server.public, server.modulus, server.gen),
        is_ascii_chars(text),
        text.len() <= u64::MAX,
    ensures
        received(
            receive_start(),
            shared_secret(server.modulus as nat, server.private as nat, reply.key.public as nat),
            framed(reply.secret@, text) + rest,
        ) == seq![trimmed(text)] + received(
            receive_start(),
            shared_secret(server.modulus as nat, server.private as nat, reply.key.public as nat),
            rest,
        ),
{
    lemma_handshake_agrees(server, reply);
    lemma_received_text(reply.secret@, text, rest);
}

} // verus!

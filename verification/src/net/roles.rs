//! The two roles of the program: one accepts peers on a port, one after
//! the other; the other connects to an address, again and again.

use vstd::prelude::*;

use crate::text::{chars_of, parse_decimal, parsed_number, trim_bounds};

verus! {

/// Reads a port number: a decimal integer of 16 bits, white space around
/// it aside.
pub fn parse_port(text: &str) -> (port: Option<u16>)
    ensures
        match parsed_number(text@, u16::MAX as nat) {
            Some(v) => port == Some(v as u16),
            None => port is None,
        },
{
    let chars = chars_of(text);
    assert(chars@.subrange(0, chars@.len() as int) =~= chars@);
    let (start, end) = trim_bounds(&chars, 0, chars.len());
    match parse_decimal(&chars, start, end, 0xffff) {
        Some(v) => Some(v as u16),
        None => None,
    }
}

/// Where the accepting side of the program stands.
#[derive(Debug, Clone, Copy, PartialEq, Eq, Structural)]
pub enum ServerState {
    /// Waiting for the user to name a port.
    AskingPort,
    /// Binding to the port.
    Binding { port: u16 },
    /// Bound, and waiting for a peer to connect.
    Accepting,
    /// In a session with the one peer that is connected.
    Serving,
    /// Given up.
    Failed,
}

/// What happened to the accepting side.
#[derive(Debug, PartialEq, Eq)]
pub enum ServerEvent {
    /// The user entered this text as the port.
    PortEntered(String),
    /// The port is bound.
    Bound,
    /// The port could not be bound.
    BindFailed,
    /// A peer connected.
    Accepted,
    /// Accepting a connection failed.
    AcceptFailed,
    /// The session with the peer is over.
    SessionEnded,
}

/// What the accepting side asks of its driver next.
#[derive(Debug, Clone, Copy, PartialEq, Eq, Structural)]
pub enum ServerAction {
    /// Ask the user for a port.
    AskPort,
    /// Tell the user that the text is no port, and ask again.
    RejectPort,
    /// Bind to this port on every address.
    Bind(u16),
    /// Tell the user that this port could not be bound, and ask for another.
    RejectBinding(u16),
    /// Wait for the first peer.
    Accept,
    /// Run the handshake and the session with the peer that connected.
    Serve,
    /// Tell the user that the peer is gone, and wait for the next one.
    AcceptNext,
    /// Report the failure and end the program.
    Abort,
}

/// The state and the action that follow `state` on `event`. The loop serves
/// one peer at a time: it asks for a connection only when none is open, and
/// after a session it goes back to accepting. An event that cannot come in
/// the state, like a failure to accept, ends the loop.
pub open spec fn server_next(state: ServerState, event: ServerEvent) -> (
    ServerState,
    ServerAction,
) {
    match (state, event) {
        (ServerState::AskingPort, ServerEvent::PortEntered(text)) => match parsed_number(
            text@,
            u16::MAX as nat,
        ) {
            Some(v) => (ServerState::Binding { port: v as u16 }, ServerAction::Bind(v as u16)),
            None => (ServerState::AskingPort, ServerAction::RejectPort),
        },
        (ServerState::Binding { port }, ServerEvent::Bound) => (
            ServerState::Accepting,
            ServerAction::Accept,
        ),
        (ServerState::Binding { port }, ServerEvent::BindFailed) => (
            ServerState::AskingPort,
            ServerAction::RejectBinding(port),
        ),
        (ServerState::Accepting, ServerEvent::Accepted) => (
            ServerState::Serving,
            ServerAction::Serve,
        ),
        (ServerState::Serving, ServerEvent::SessionEnded) => (
            ServerState::Accepting,
            ServerAction::AcceptNext,
        ),
        _ => (ServerState::Failed, ServerAction::Abort),
    }
}

/// The state in which the accepting side starts; its driver begins by
/// asking for a port.
pub fn server_begin() -> (start: (ServerState, ServerAction))
    ensures
        start == (ServerState::AskingPort, ServerAction::AskPort),
{
    (ServerState::AskingPort, ServerAction::AskPort)
}

/// One step of the accepting side.
pub fn server_step(state: ServerState, event: &ServerEvent) -> (next: (ServerState, ServerAction))
    ensures
        next == server_next(state, *event),
{
    match (state, event) {
        (ServerState::AskingPort, ServerEvent::PortEntered(text)) => match parse_port(
            text.as_str(),
        ) {
            Some(port) => (ServerState::Binding { port }, ServerAction::Bind(port)),
            None => (ServerState::AskingPort, ServerAction::RejectPort),
        },
        (ServerState::Binding { port }, ServerEvent::Bound) => (
            ServerState::Accepting,
            ServerAction::Accept,
        ),
        (ServerState::Binding { port }, ServerEvent::BindFailed) => (
            ServerState::AskingPort,
            ServerAction::RejectBinding(port),
        ),
        (ServerState::Accepting, ServerEvent::Accepted) => (
            ServerState::Serving,
            ServerAction::Serve,
        ),
        (ServerState::Serving, ServerEvent::SessionEnded) => (
            ServerState::Accepting,
            ServerAction::AcceptNext,
        ),
        _ => (ServerState::Failed, ServerAction::Abort),
    }
}

/// The accepting side never has two sessions at once: it starts a session
/// only from the accepting state, and while it serves it asks for no other
/// connection.
pub proof fn lemma_server_serves_one_peer(state: ServerState, event: ServerEvent)
    ensures
        server_next(state, event).1 == ServerAction::Serve ==> state == ServerState::Accepting
            && server_next(state, event).0 == ServerState::Serving,
        state == ServerState::Serving ==> server_next(state, event).1 != ServerAction::Serve
            && server_next(state, event).1 != ServerAction::Accept,
        server_next(state, event).1 == ServerAction::Accept || server_next(state, event).1
            == ServerAction::AcceptNext ==> server_next(state, event).0 == ServerState::Accepting,
{
}

/// Where the connecting side of the program stands.
#[derive(Debug, Clone, Copy, PartialEq, Eq, Structural)]
pub enum ClientState {
    /// Waiting for the user to name an address.
    AskingAddress,
    /// Connecting to the address.
    Connecting,
    /// In a session with the peer.
    Chatting,
}

/// What happened to the connecting side.
#[derive(Debug, PartialEq, Eq)]
pub enum ClientEvent {
    /// The user entered this text as the address.
    AddressEntered(String),
    /// The connection is open.
    Connected,
    /// The connection could not be opened.
    ConnectFailed,
    /// The handshake failed, or the session is over.
    SessionEnded,
}

/// What the connecting side asks of its driver next.
#[derive(Debug, PartialEq, Eq)]
pub enum ClientLoopAction {
    /// Ask the user for an address.
    AskAddress,
    /// Connect to this address.
    Connect(String),
    /// Run the handshake and the session.
    Chat,
    /// Tell the user that the connection failed, and ask for an address.
    ReportFailure,
    /// Tell the user that the session is over, and ask for an address.
    ReportDisconnect,
}

/// The state that follows `state` on `event`: whatever goes wrong, the loop
/// comes back to asking for an address.
pub open spec fn client_loop_next(state: ClientState, event: ClientEvent) -> ClientState {
    match (state, event) {
        (ClientState::AskingAddress, ClientEvent::AddressEntered(_)) => ClientState::Connecting,
        (ClientState::Connecting, ClientEvent::Connected) => ClientState::Chatting,
        _ => ClientState::AskingAddress,
    }
}

/// The state in which the connecting side starts, and what it asks first:
/// an address.
pub fn client_loop_begin() -> (start: (ClientState, ClientLoopAction))
    ensures
        start.0 == ClientState::AskingAddress,
        start.1 is AskAddress,
{
    (ClientState::AskingAddress, ClientLoopAction::AskAddress)
}

/// One step of the connecting side.
pub fn client_loop_step(state: ClientState, event: ClientEvent) -> (next: (
    ClientState,
    ClientLoopAction,
))
    ensures
        next.0 == client_loop_next(state, event),
        match (state, event) {
            (ClientState::AskingAddress, ClientEvent::AddressEntered(address)) => next.1
                matches ClientLoopAction::Connect(target) && target@ == address@,
            (ClientState::Connecting, ClientEvent::Connected) => next.1 is Chat,
            (ClientState::Connecting, ClientEvent::ConnectFailed) => next.1 is ReportFailure,
            (ClientState::Chatting, ClientEvent::SessionEnded) => next.1 is ReportDisconnect,
            _ => next.1 is AskAddress,
        },
{
    match (state, event) {
        (ClientState::AskingAddress, ClientEvent::AddressEntered(address)) => (
            ClientState::Connecting,
            ClientLoopAction::Connect(address),
        ),
        (ClientState::Connecting, ClientEvent::Connected) => (
            ClientState::Chatting,
            ClientLoopAction::Chat,
        ),
        (ClientState::Connecting, ClientEvent::ConnectFailed) => (
            ClientState::AskingAddress,
            ClientLoopAction::ReportFailure,
        ),
        (ClientState::Chatting, ClientEvent::SessionEnded) => (
            ClientState::AskingAddress,
            ClientLoopAction::ReportDisconnect,
        ),
        _ => (ClientState::AskingAddress, ClientLoopAction::AskAddress),
    }
}

} // verus!

use dh_chat::crypt::dh::{gen_common_key, key_pair_from_private, mod_exp, KeyPair};
use dh_chat::net::framing::frame_message;
use dh_chat::net::handshake::{
    client_begin, client_reply, client_step, read_number, server_finish, server_hello,
    ClientAction, ClientHandshake, HandshakeEvent,
};
use dh_chat::net::pump::{
    receive_begin, receive_step, receive_stream, send_begin, send_step, ReceiveEvent,
    ReceiveRequest, ReceiveState, SendAction, SendEvent, SendState,
};
use dh_chat::net::roles::{
    client_loop_begin, client_loop_step, parse_port, server_begin, server_step, ClientEvent,
    ClientLoopAction, ClientState, ServerAction, ServerEvent, ServerState,
};
use dh_chat::utils::AppError;

/// Runs the receiving side over a connection that holds `stream` and then
/// closes. Gives the messages delivered and the last state.
fn run_receiver(key: &[u8], stream: &[u8]) -> (Vec<String>, ReceiveState, usize) {
    let (mut state, mut request) = receive_begin();
    let mut pos = 0usize;
    let mut delivered = Vec::new();
    let mut steps = 0usize;
    loop {
        let count = match request {
            ReceiveRequest::Read(count) => count as usize,
            ReceiveRequest::Stop => return (delivered, state, steps),
        };
        let event = if pos + count <= stream.len() {
            let data = stream[pos..pos + count].to_vec();
            pos += count;
            ReceiveEvent::Data(data)
        } else {
            ReceiveEvent::Failed
        };
        let (next, output) = receive_step(state, key, event);
        steps += 1;
        if let Some(text) = output.delivered {
            delivered.push(text);
        }
        state = next;
        request = output.request;
    }
}

#[test]
fn pump_shutdown_after_three_frames() {
    let key = gen_common_key(2315981, 1234, 5678);
    let mut stream = Vec::new();
    for text in ["first", "second message", "third"] {
        stream.extend(frame_message(&key, text));
    }
    let (delivered, state, _) = run_receiver(&key, &stream);
    assert_eq!(delivered, vec!["first", "second message", "third"]);
    assert_eq!(state, ReceiveState::Closed);

    // The receiving side has raised the signal; the sending side, which
    // waits for input, sees it and stops without a frame.
    let (send_state, first) = send_begin();
    assert_eq!(first, SendAction::Wait);
    let (send_state, action) =
        send_step(send_state, &key, SendEvent::Woken { cancelled: true, input: None });
    assert_eq!(send_state, SendState::Closed);
    assert_eq!(action, SendAction::Stop);
    let (send_state, action) = send_step(
        send_state,
        &key,
        SendEvent::Woken { cancelled: false, input: Some("late".to_string()) },
    );
    assert_eq!(send_state, SendState::Closed);
    assert_eq!(action, SendAction::Stop);
}

#[test]
fn receiver_reads_byte_by_byte_then_the_body() {
    let key = [1u8, 2, 3];
    let (state, request) = receive_begin();
    assert_eq!(state, ReceiveState::Length { total: 0 });
    assert_eq!(request, ReceiveRequest::Read(1));
    let (state, out) = receive_step(state, &key, ReceiveEvent::Data(vec![255]));
    assert_eq!(state, ReceiveState::Length { total: 255 });
    assert_eq!(out.request, ReceiveRequest::Read(1));
    assert_eq!(out.delivered, None);
    let (state, out) = receive_step(state, &key, ReceiveEvent::Data(vec![45]));
    assert_eq!(state, ReceiveState::Body { length: 300 });
    assert_eq!(out.request, ReceiveRequest::Read(300));
    assert_eq!(out.delivered, None);
    let text = "m".repeat(300);
    let body = dh_chat::crypt::encrypt(&key, &text);
    let (state, out) = receive_step(state, &key, ReceiveEvent::Data(body));
    assert_eq!(state, ReceiveState::Length { total: 0 });
    assert_eq!(out.request, ReceiveRequest::Read(1));
    assert_eq!(out.delivered, Some(text));
}

#[test]
fn receiver_delivers_messages_without_outer_white_space() {
    let key = [9u8];
    let stream = frame_message(&key, "  padded text \n");
    let (delivered, _, _) = run_receiver(&key, &stream);
    assert_eq!(delivered, vec!["padded text"]);
}

#[test]
fn receiver_delivers_an_empty_frame() {
    let key = [9u8];
    let mut stream = frame_message(&key, "");
    stream.extend(frame_message(&key, "after"));
    let (delivered, state, _) = run_receiver(&key, &stream);
    assert_eq!(delivered, vec!["", "after"]);
    assert_eq!(state, ReceiveState::Closed);
}

#[test]
fn receiver_closes_on_a_cut_frame() {
    let key = [5u8, 6];
    let mut stream = frame_message(&key, "whole");
    let cut = frame_message(&key, "this one is cut");
    stream.extend(&cut[..cut.len() - 3]);
    let (delivered, state, _) = run_receiver(&key, &stream);
    assert_eq!(delivered, vec!["whole"]);
    assert_eq!(state, ReceiveState::Closed);

    let (delivered, state, steps) = run_receiver(&key, &[255, 255]);
    assert!(delivered.is_empty());
    assert_eq!(state, ReceiveState::Closed);
    assert_eq!(steps, 3);
}

#[test]
fn receiver_closes_on_failure_and_stays_closed() {
    let key = [5u8];
    for state in [
        ReceiveState::Length { total: 0 },
        ReceiveState::Length { total: 510 },
        ReceiveState::Body { length: 4 },
        ReceiveState::Closed,
    ] {
        let (next, out) = receive_step(state, &key, ReceiveEvent::Failed);
        assert_eq!(next, ReceiveState::Closed);
        assert_eq!(out.request, ReceiveRequest::Stop);
        assert_eq!(out.delivered, None);
    }
    let (next, out) = receive_step(ReceiveState::Closed, &key, ReceiveEvent::Data(vec![1]));
    assert_eq!(next, ReceiveState::Closed);
    assert_eq!(out.request, ReceiveRequest::Stop);
    assert_eq!(out.delivered, None);
}

#[test]
fn receiver_closes_on_data_of_the_wrong_size() {
    let key = [5u8];
    let (next, out) =
        receive_step(ReceiveState::Length { total: 0 }, &key, ReceiveEvent::Data(vec![1, 2]));
    assert_eq!(next, ReceiveState::Closed);
    assert_eq!(out.request, ReceiveRequest::Stop);
    let (next, _) =
        receive_step(ReceiveState::Length { total: 0 }, &key, ReceiveEvent::Data(vec![]));
    assert_eq!(next, ReceiveState::Closed);
    let (next, out) =
        receive_step(ReceiveState::Body { length: 3 }, &key, ReceiveEvent::Data(vec![1, 2]));
    assert_eq!(next, ReceiveState::Closed);
    assert_eq!(out.delivered, None);
}

#[test]
fn receiver_closes_when_the_length_overflows() {
    let key = [5u8];
    let (next, out) = receive_step(
        ReceiveState::Length { total: u64::MAX - 10 },
        &key,
        ReceiveEvent::Data(vec![255]),
    );
    assert_eq!(next, ReceiveState::Closed);
    assert_eq!(out.request, ReceiveRequest::Stop);
    let (next, _) = receive_step(
        ReceiveState::Length { total: u64::MAX - 10 },
        &key,
        ReceiveEvent::Data(vec![10]),
    );
    assert_eq!(next, ReceiveState::Body { length: u64::MAX });
}

#[test]
fn sender_frames_input_and_waits_again() {
    let key = [7u8, 7, 7];
    let (state, _) = send_begin();
    let (state, action) = send_step(
        state,
        &key,
        SendEvent::Woken { cancelled: false, input: Some("hi there".to_string()) },
    );
    assert_eq!(state, SendState::Writing);
    assert_eq!(action, SendAction::Write(frame_message(&key, "hi there")));
    let (state, action) = send_step(state, &key, SendEvent::Written);
    assert_eq!(state, SendState::Waiting);
    assert_eq!(action, SendAction::Wait);
    let (state, action) =
        send_step(state, &key, SendEvent::Woken { cancelled: false, input: None });
    assert_eq!(state, SendState::Waiting);
    assert_eq!(action, SendAction::Wait);
}

#[test]
fn cancellation_wins_over_ready_input() {
    let key = [7u8];
    let (state, action) = send_step(
        SendState::Waiting,
        &key,
        SendEvent::Woken { cancelled: true, input: Some("too late".to_string()) },
    );
    assert_eq!(state, SendState::Closed);
    assert_eq!(action, SendAction::Stop);
}

#[test]
fn sender_stops_on_write_failure() {
    let key = [7u8];
    let (state, action) = send_step(SendState::Writing, &key, SendEvent::WriteFailed);
    assert_eq!(state, SendState::Closed);
    assert_eq!(action, SendAction::Stop);
    let (state, action) = send_step(SendState::Waiting, &key, SendEvent::Written);
    assert_eq!(state, SendState::Closed);
    assert_eq!(action, SendAction::Stop);
    let (state, action) = send_step(
        SendState::Writing,
        &key,
        SendEvent::Woken { cancelled: false, input: Some("x".to_string()) },
    );
    assert_eq!(state, SendState::Closed);
    assert_eq!(action, SendAction::Stop);
}

#[test]
fn sent_frames_are_received_as_sent() {
    let key = gen_common_key(23, 6, 19);
    let mut wire = Vec::new();
    let mut state = SendState::Waiting;
    for text in ["alpha", "", "gamma delta", &"z".repeat(700)] {
        let (next, action) = send_step(
            state,
            &key,
            SendEvent::Woken { cancelled: false, input: Some(text.to_string()) },
        );
        match action {
            SendAction::Write(frame) => wire.extend(frame),
            _ => panic!("no frame for input"),
        }
        let (next, _) = send_step(next, &key, SendEvent::Written);
        state = next;
    }
    let (delivered, _, _) = run_receiver(&key, &wire);
    let expected =
        vec!["alpha".to_string(), String::new(), "gamma delta".to_string(), "z".repeat(700)];
    assert_eq!(delivered, expected);
}

#[test]
fn server_hello_has_three_lines() {
    let key = KeyPair { private: 6, public: 8, modulus: 23, gen: 5 };
    assert_eq!(server_hello(&key), "8\n23\n5\n");
    let key = KeyPair { private: 0, public: u64::MAX, modulus: 0, gen: 10 };
    assert_eq!(server_hello(&key), "18446744073709551615\n0\n10\n");
}

#[test]
fn read_number_tells_the_failures_apart() {
    assert_eq!(read_number(&HandshakeEvent::Line("42\n".to_string())), Ok(42));
    assert_eq!(read_number(&HandshakeEvent::Line(" 7 \r\n".to_string())), Ok(7));
    assert_eq!(read_number(&HandshakeEvent::Line("x".to_string())), Err(AppError::Parse));
    assert_eq!(read_number(&HandshakeEvent::Line(String::new())), Err(AppError::Parse));
    assert_eq!(read_number(&HandshakeEvent::Ended), Err(AppError::Protocol));
    assert_eq!(read_number(&HandshakeEvent::Failed), Err(AppError::Io));
}

#[test]
fn server_finish_derives_the_secret_from_the_reply() {
    let key = key_pair_from_private(23, 5, 6);
    let secret = server_finish(&key, &HandshakeEvent::Line("19\n".to_string()));
    assert_eq!(secret, Ok(gen_common_key(23, 6, 19)));
    assert_eq!(
        server_finish(&key, &HandshakeEvent::Line("nineteen\n".to_string())),
        Err(AppError::Parse)
    );
    assert_eq!(server_finish(&key, &HandshakeEvent::Ended), Err(AppError::Protocol));
    assert_eq!(server_finish(&key, &HandshakeEvent::Failed), Err(AppError::Io));
}

#[test]
fn client_reply_holds_line_and_secret() {
    let key = key_pair_from_private(23, 5, 15);
    let reply = client_reply(key, 8);
    assert_eq!(reply.key, key);
    assert_eq!(reply.line, "19\n");
    assert_eq!(reply.secret, gen_common_key(23, 15, 8));
}

#[test]
fn handshake_gives_both_sides_the_same_secret() {
    let server = key_pair_from_private(2315981, 772197, 1_000_001);
    let hello = server_hello(&server);
    let (mut state, first) = client_begin();
    assert_eq!(first, ClientAction::ReadLine);
    let mut reply = None;
    for line in hello.lines() {
        let (next, action) = client_step(state, &HandshakeEvent::Line(line.to_string()));
        state = next;
        match action {
            ClientAction::ReadLine => {}
            ClientAction::Reply(r) => reply = Some(r),
            ClientAction::Abort(e) => panic!("handshake aborted: {:?}", e),
        }
    }
    assert_eq!(state, ClientHandshake::Established);
    let reply = reply.unwrap();
    assert_eq!(reply.key.modulus, 2315981);
    assert_eq!(reply.key.gen, 772197);
    assert!(reply.key.private < 2315981);
    assert_eq!(reply.key.public, mod_exp(772197, reply.key.private, 2315981));
    assert_eq!(reply.line, format!("{}\n", reply.key.public));
    let server_secret = server_finish(&server, &HandshakeEvent::Line(reply.line.clone()));
    assert_eq!(server_secret, Ok(reply.secret.clone()));
    assert_eq!(reply.secret.len(), 32);
}

#[test]
fn client_handshake_walks_through_its_states() {
    let (state, _) = client_begin();
    let (state, action) = client_step(state, &HandshakeEvent::Line("8\n".to_string()));
    assert_eq!(state, ClientHandshake::NeedModulus { peer_public: 8 });
    assert_eq!(action, ClientAction::ReadLine);
    let (state, action) = client_step(state, &HandshakeEvent::Line("23\n".to_string()));
    assert_eq!(state, ClientHandshake::NeedGenerator { peer_public: 8, modulus: 23 });
    assert_eq!(action, ClientAction::ReadLine);
    let (state, action) = client_step(state, &HandshakeEvent::Line("5\n".to_string()));
    assert_eq!(state, ClientHandshake::Established);
    assert!(matches!(action, ClientAction::Reply(_)));
    let (state, action) = client_step(state, &HandshakeEvent::Line("5\n".to_string()));
    assert_eq!(state, ClientHandshake::Failed);
    assert_eq!(action, ClientAction::Abort(AppError::Protocol));
}

#[test]
fn client_handshake_aborts_on_bad_input() {
    let states = [
        ClientHandshake::NeedPublic,
        ClientHandshake::NeedModulus { peer_public: 8 },
        ClientHandshake::NeedGenerator { peer_public: 8, modulus: 23 },
    ];
    for state in states {
        let (next, action) = client_step(state, &HandshakeEvent::Line("12a\n".to_string()));
        assert_eq!(next, ClientHandshake::Failed);
        assert_eq!(action, ClientAction::Abort(AppError::Parse));
        let (next, action) = client_step(state, &HandshakeEvent::Ended);
        assert_eq!(next, ClientHandshake::Failed);
        assert_eq!(action, ClientAction::Abort(AppError::Protocol));
        let (next, action) = client_step(state, &HandshakeEvent::Failed);
        assert_eq!(next, ClientHandshake::Failed);
        assert_eq!(action, ClientAction::Abort(AppError::Io));
    }
    let (next, action) = client_step(ClientHandshake::Failed, &HandshakeEvent::Ended);
    assert_eq!(next, ClientHandshake::Failed);
    assert_eq!(action, ClientAction::Abort(AppError::Protocol));
}

#[test]
fn client_handshake_rejects_a_zero_modulus() {
    let state = ClientHandshake::NeedGenerator { peer_public: 8, modulus: 0 };
    let (next, action) = client_step(state, &HandshakeEvent::Line("5\n".to_string()));
    assert_eq!(next, ClientHandshake::Failed);
    assert_eq!(action, ClientAction::Abort(AppError::Protocol));
}

#[test]
fn parse_port_accepts_16_bits() {
    assert_eq!(parse_port("0"), Some(0));
    assert_eq!(parse_port("8080"), Some(8080));
    assert_eq!(parse_port(" 65535\n"), Some(65535));
    assert_eq!(parse_port("+443"), Some(443));
    assert_eq!(parse_port("65536"), None);
    assert_eq!(parse_port("-1"), None);
    assert_eq!(parse_port(""), None);
    assert_eq!(parse_port("80 80"), None);
    assert_eq!(parse_port("http"), None);
    for text in ["1", "007", "65535", "65536", "99999999999999999999999", "+", "+0", "1 "] {
        assert_eq!(parse_port(text), text.trim().parse::<u16>().ok(), "{:?}", text);
    }
}

#[test]
fn server_loop_serves_one_peer_after_another() {
    let (state, action) = server_begin();
    assert_eq!((state, action), (ServerState::AskingPort, ServerAction::AskPort));
    let step = server_step(state, &ServerEvent::PortEntered("port".to_string()));
    assert_eq!(step, (ServerState::AskingPort, ServerAction::RejectPort));
    let step = server_step(step.0, &ServerEvent::PortEntered("70000".to_string()));
    assert_eq!(step, (ServerState::AskingPort, ServerAction::RejectPort));
    let step = server_step(step.0, &ServerEvent::PortEntered("80".to_string()));
    assert_eq!(step, (ServerState::Binding { port: 80 }, ServerAction::Bind(80)));
    let step = server_step(step.0, &ServerEvent::BindFailed);
    assert_eq!(step, (ServerState::AskingPort, ServerAction::RejectBinding(80)));
    let step = server_step(step.0, &ServerEvent::PortEntered("4000".to_string()));
    assert_eq!(step, (ServerState::Binding { port: 4000 }, ServerAction::Bind(4000)));
    let step = server_step(step.0, &ServerEvent::Bound);
    assert_eq!(step, (ServerState::Accepting, ServerAction::Accept));
    let step = server_step(step.0, &ServerEvent::Accepted);
    assert_eq!(step, (ServerState::Serving, ServerAction::Serve));
    let step = server_step(step.0, &ServerEvent::SessionEnded);
    assert_eq!(step, (ServerState::Accepting, ServerAction::AcceptNext));
    let step = server_step(step.0, &ServerEvent::Accepted);
    assert_eq!(step, (ServerState::Serving, ServerAction::Serve));
    let step = server_step(step.0, &ServerEvent::SessionEnded);
    assert_eq!(step, (ServerState::Accepting, ServerAction::AcceptNext));
}

#[test]
fn server_loop_gives_up_when_accept_fails() {
    let step = server_step(ServerState::Accepting, &ServerEvent::AcceptFailed);
    assert_eq!(step, (ServerState::Failed, ServerAction::Abort));
    let step = server_step(step.0, &ServerEvent::Accepted);
    assert_eq!(step, (ServerState::Failed, ServerAction::Abort));
    let step = server_step(ServerState::Serving, &ServerEvent::Accepted);
    assert_eq!(step, (ServerState::Failed, ServerAction::Abort));
    let step = server_step(ServerState::AskingPort, &ServerEvent::Bound);
    assert_eq!(step, (ServerState::Failed, ServerAction::Abort));
}

#[test]
fn client_loop_comes_back_to_the_prompt() {
    let (state, action) = client_loop_begin();
    assert_eq!(state, ClientState::AskingAddress);
    assert_eq!(action, ClientLoopAction::AskAddress);
    let (state, action) =
        client_loop_step(state, ClientEvent::AddressEntered("127.0.0.1:4000".to_string()));
    assert_eq!(state, ClientState::Connecting);
    assert_eq!(action, ClientLoopAction::Connect("127.0.0.1:4000".to_string()));
    let (state, action) = client_loop_step(state, ClientEvent::ConnectFailed);
    assert_eq!(state, ClientState::AskingAddress);
    assert_eq!(action, ClientLoopAction::ReportFailure);
    let (state, _) = client_loop_step(state, ClientEvent::AddressEntered("host:1".to_string()));
    let (state, action) = client_loop_step(state, ClientEvent::Connected);
    assert_eq!(state, ClientState::Chatting);
    assert_eq!(action, ClientLoopAction::Chat);
    let (state, action) = client_loop_step(state, ClientEvent::SessionEnded);
    assert_eq!(state, ClientState::AskingAddress);
    assert_eq!(action, ClientLoopAction::ReportDisconnect);
    let (state, action) = client_loop_step(state, ClientEvent::Connected);
    assert_eq!(state, ClientState::AskingAddress);
    assert_eq!(action, ClientLoopAction::AskAddress);
}

#[test]
fn receive_stream_delivers_what_the_steps_deliver() {
    let key = [11u8, 22, 33, 44];
    let mut stream = Vec::new();
    for text in ["one", "  two  ", "", &"3".repeat(300)] {
        stream.extend(frame_message(&key, text));
    }
    let expected = vec!["one".to_string(), "two".to_string(), String::new(), "3".repeat(300)];
    assert_eq!(receive_stream(&key, &stream), expected);
    assert_eq!(run_receiver(&key, &stream).0, expected);
    // A cut in the last frame loses that frame only.
    let cut = &stream[..stream.len() - 1];
    assert_eq!(receive_stream(&key, cut), expected[..3].to_vec());
    assert_eq!(receive_stream(&key, &[]), Vec::<String>::new());
    assert_eq!(receive_stream(&key, &[255, 255, 255]), Vec::<String>::new());
}

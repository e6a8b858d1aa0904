use chat_relay::frame::{decode_frame, encode_frame, FrameError};
use chat_relay::handler::{
    broadcast_chat, event_of_frame, format_line, handle_join_request, handle_list_request,
    handle_event, handler_client_text, Action, ConnState, Event,
};
use chat_relay::model::{Conversation, Message as ChatRecord};
use chat_relay::protocol::{
    ChatMessage, ClientText, ConversationSummary, Error, JoinRequest, ListRequest, ListResponse,
    Message,
};
use chat_relay::store::{InMemoryDB, StoreError};

fn s(x: &str) -> String {
    x.to_string()
}

#[test]
fn test_serialization_ok() {
    let original: Message = Message::ChatMessage(ChatMessage {
        text: String::from("Hello, world!"),
    });
    let buffer: Vec<u8> = original.encode();
    let deserialized = Message::decode(&buffer).unwrap();
    match deserialized {
        Message::ChatMessage(chat_msg) => {
            assert_eq!(chat_msg.text, "Hello, world!");
        }
        _ => panic!("Expected ChatMessage variant"),
    }
}

#[test]
fn envelope_round_trip_every_variant() {
    let cases: Vec<Message> = vec![
        Message::ListRequest(ListRequest {}),
        Message::ListResponse(ListResponse {
            conversations: vec![],
        }),
        Message::ListResponse(ListResponse {
            conversations: vec![
                ConversationSummary {
                    id: s("room1"),
                    user_count: 2,
                    message_count: 7,
                },
                ConversationSummary {
                    id: s(""),
                    user_count: 0,
                    message_count: 0,
                },
            ],
        }),
        Message::JoinRequest(JoinRequest {
            conversation_id: s("room1"),
        }),
        Message::JoinRequest(JoinRequest {
            conversation_id: s(""),
        }),
        Message::ClientText(ClientText { text: s("hi") }),
        Message::ClientText(ClientText { text: s("") }),
        Message::ChatMessage(ChatMessage {
            text: s("ünïcødé \u{1F600}"),
        }),
        Message::Error(Error { message: s("boom") }),
    ];
    for m in cases {
        let bytes = m.encode();
        let back = Message::decode(&bytes).expect("round trip must decode");
        assert_eq!(back, m);
    }
}

#[test]
fn decode_rejects_bad_payloads() {
    assert!(Message::decode(&vec![]).is_err());
    assert!(Message::decode(&vec![0]).is_err());
    assert!(Message::decode(&vec![7]).is_err());
    // tag 1 with trailing byte
    assert!(Message::decode(&vec![1, 0]).is_err());
    // tag 4 with truncated length field
    assert!(Message::decode(&vec![4, 0, 0, 0]).is_err());
    // tag 4 announcing one byte but carrying none
    assert!(Message::decode(&vec![4, 0, 0, 0, 0, 0, 0, 0, 1]).is_err());
    // tag 4 carrying invalid UTF-8
    assert!(Message::decode(&vec![4, 0, 0, 0, 0, 0, 0, 0, 1, 0xFF]).is_err());
    // trailing garbage after a valid string field
    let mut ok = Message::ClientText(ClientText { text: s("a") }).encode();
    ok.push(0);
    assert!(Message::decode(&ok).is_err());
}

#[test]
fn frame_round_trip_lengths() {
    for n in [0usize, 1, 65536] {
        let payload: Vec<u8> = (0..n).map(|i| (i % 251) as u8).collect();
        let framed = encode_frame(&payload);
        assert_eq!(framed.len(), payload.len() + 4);
        let (back, consumed) = decode_frame(&framed, 0).expect("frame must parse");
        assert_eq!(back, payload);
        assert_eq!(consumed, framed.len());
    }
}

#[test]
fn frame_incomplete_is_clean_eof() {
    assert_eq!(decode_frame(&vec![0, 0], 0), Err(FrameError::CleanEof));
    // prefix says 5 bytes, only 2 arrive
    assert_eq!(
        decode_frame(&vec![0, 0, 0, 5, 1, 2], 0),
        Err(FrameError::CleanEof)
    );
}

#[test]
fn join_creates_with_one_member() {
    let mut db = InMemoryDB::new();
    let history = db.join(&s("room1"), &s("A"));
    assert!(history.is_empty());
    let summaries = db.list_summaries();
    assert_eq!(summaries.len(), 1);
    assert_eq!(summaries[0].id, "room1");
    assert_eq!(summaries[0].user_count, 1);
    assert_eq!(summaries[0].message_count, 0);
}

#[test]
fn history_replay_is_order_preserving() {
    let mut db = InMemoryDB::new();
    db.register_session(&s("A"), 1);
    let st = handle_join_request(&mut db, &s("A"), 1, &ConnState::Connected, &s("room1")).0;
    handler_client_text(&mut db, &s("A"), &s("hi"), &st);
    handler_client_text(&mut db, &s("A"), &s("there"), &st);
    db.register_session(&s("B"), 2);
    let (_, actions) = handle_join_request(&mut db, &s("B"), 2, &ConnState::Connected, &s("room1"));
    let replayed: Vec<String> = actions
        .iter()
        .filter_map(|a| match a {
            Action::Reply(Message::ChatMessage(cm)) => Some(cm.text.clone()),
            _ => None,
        })
        .collect();
    assert_eq!(replayed, vec![s("A: hi"), s("A: there")]);
}

#[test]
fn last_leave_deletes_and_rejoin_is_fresh() {
    let mut db = InMemoryDB::new();
    db.register_session(&s("A"), 1);
    db.join(&s("room1"), &s("A"));
    db.post(&s("room1"), &s("A"), s("hi")).unwrap();
    db.leave(&s("room1"), &s("A"));
    assert!(db.list_summaries().is_empty());
    let history = db.join(&s("room1"), &s("A"));
    assert!(history.is_empty());
    let summaries = db.list_summaries();
    assert_eq!(summaries.len(), 1);
    assert_eq!(summaries[0].user_count, 1);
    assert_eq!(summaries[0].message_count, 0);
}

#[test]
fn broadcast_echoes_text_but_excludes_actor_for_notices() {
    let mut db = InMemoryDB::new();
    db.register_session(&s("A"), 1);
    db.register_session(&s("B"), 2);
    db.join(&s("room1"), &s("A"));
    db.join(&s("room1"), &s("B"));
    // a text line reaches both members, the sender included
    assert_eq!(db.broadcast_targets(&s("room1"), None), vec![1, 2]);
    // a join/leave notice for A reaches only B, never A
    assert_eq!(db.broadcast_targets(&s("room1"), Some(&s("A"))), vec![2]);
    let st = ConnState::Joined(s("room1"));
    let actions = handler_client_text(&mut db, &s("A"), &s("hello"), &st);
    let sends: Vec<(u64, String)> = actions
        .iter()
        .filter_map(|a| match a {
            Action::Send(k, Message::ChatMessage(cm)) => Some((*k, cm.text.clone())),
            _ => None,
        })
        .collect();
    assert_eq!(sends, vec![(1, s("A: hello")), (2, s("A: hello"))]);
}

#[test]
fn join_is_idempotent() {
    let mut db = InMemoryDB::new();
    db.join(&s("room2"), &s("A"));
    db.join(&s("room2"), &s("A"));
    db.join(&s("room2"), &s("A"));
    let summaries = db.list_summaries();
    assert_eq!(summaries.len(), 1);
    assert_eq!(summaries[0].user_count, 1);
}

#[test]
fn text_before_join_is_rejected() {
    let mut db = InMemoryDB::new();
    db.register_session(&s("A"), 1);
    let actions = handler_client_text(&mut db, &s("A"), &s("hi"), &ConnState::Connected);
    assert_eq!(actions.len(), 1);
    match &actions[0] {
        Action::Reply(Message::Error(e)) => {
            assert_eq!(e.message, "join required before sending text");
        }
        _ => panic!("expected an error reply"),
    }
    // no history mutation: no conversation came to exist
    assert!(db.list_summaries().is_empty());
}

#[test]
fn post_to_missing_conversation_fails() {
    let mut db = InMemoryDB::new();
    assert_eq!(
        db.post(&s("nowhere"), &s("A"), s("hi")),
        Err(StoreError::NoSuchConversation)
    );
}

#[test]
fn leave_notice_goes_to_remaining_members() {
    let mut db = InMemoryDB::new();
    db.register_session(&s("A"), 1);
    db.register_session(&s("B"), 2);
    db.join(&s("room1"), &s("A"));
    db.join(&s("room1"), &s("B"));
    let (_, actions) = handle_join_request(
        &mut db,
        &s("A"),
        1,
        &ConnState::Joined(s("room1")),
        &s("room3"),
    );
    // the departure notice went only to B
    match &actions[0] {
        Action::Send(k, Message::ChatMessage(cm)) => {
            assert_eq!(*k, 2);
            assert_eq!(cm.text, "User A has left the conversation room1");
        }
        _ => panic!("expected the departure notice first"),
    }
}

#[test]
fn list_request_reports_snapshot() {
    let mut db = InMemoryDB::new();
    db.join(&s("a"), &s("A"));
    db.post(&s("a"), &s("A"), s("x")).unwrap();
    match handle_list_request(&db) {
        Action::Reply(Message::ListResponse(lr)) => {
            assert_eq!(lr.conversations.len(), 1);
            assert_eq!(lr.conversations[0].id, "a");
            assert_eq!(lr.conversations[0].message_count, 1);
        }
        _ => panic!("expected a listing reply"),
    }
}

#[test]
fn event_of_frame_classifies() {
    let bytes = Message::ListRequest(ListRequest {}).encode();
    match event_of_frame(&bytes) {
        Event::Received(Message::ListRequest(_)) => {}
        _ => panic!("expected the decoded envelope"),
    }
    match event_of_frame(&vec![9, 9, 9]) {
        Event::BadFrame(_) => {}
        _ => panic!("expected a decode diagnostic"),
    }
}

#[test]
fn format_line_exact() {
    assert_eq!(format_line(&s("A"), &s("hi")), "A: hi");
}

#[test]
fn model_constructors() {
    let m = ChatRecord::new(s("A"), s("hi"));
    assert_eq!(m.sender, "A");
    assert_eq!(m.content, "hi");
    let mut c = Conversation::new(s("A"));
    assert_eq!(c.users, vec![s("A")]);
    assert!(c.messages.is_empty());
    c.add_message(ChatRecord::new(s("A"), s("hi")));
    assert_eq!(c.messages.len(), 1);
    assert_eq!(c.messages[0].content, "hi");
}

#[test]
fn broadcast_chat_skips_unconnected_members() {
    let mut db = InMemoryDB::new();
    db.register_session(&s("A"), 1);
    db.join(&s("room1"), &s("A"));
    db.join(&s("room1"), &s("B"));
    // B is a member without a live session: only A's sink is written
    let actions = broadcast_chat(&db, &s("room1"), &s("x"), None);
    assert_eq!(actions.len(), 1);
    match &actions[0] {
        Action::Send(k, Message::ChatMessage(cm)) => {
            assert_eq!(*k, 1);
            assert_eq!(cm.text, "x");
        }
        _ => panic!("expected one send"),
    }
}

#[test]
fn disconnect_leaves_and_notifies_remaining() {
    let mut db = InMemoryDB::new();
    db.register_session(&s("A"), 1);
    db.register_session(&s("B"), 2);
    db.join(&s("room1"), &s("A"));
    db.join(&s("room1"), &s("B"));
    let (state, actions) = handle_event(
        &mut db,
        &s("A"),
        1,
        ConnState::Joined(s("room1")),
        Event::Disconnected,
    );
    assert!(matches!(state, ConnState::Closed));
    // the departure notice went to B alone
    assert_eq!(actions.len(), 1);
    match &actions[0] {
        Action::Send(k, Message::ChatMessage(cm)) => {
            assert_eq!(*k, 2);
            assert_eq!(cm.text, "User A has left the conversation room1");
        }
        _ => panic!("expected the departure notice"),
    }
    // A's membership and session entry are gone; the room survives with B
    let summaries = db.list_summaries();
    assert_eq!(summaries.len(), 1);
    assert_eq!(summaries[0].user_count, 1);
    assert_eq!(db.find_sink(&s("A")), None);
    assert_eq!(db.find_sink(&s("B")), Some(2));
}

#[test]
fn disconnect_of_sole_member_deletes_conversation() {
    let mut db = InMemoryDB::new();
    db.register_session(&s("A"), 1);
    db.join(&s("room1"), &s("A"));
    let (state, actions) = handle_event(
        &mut db,
        &s("A"),
        1,
        ConnState::Joined(s("room1")),
        Event::Disconnected,
    );
    assert!(matches!(state, ConnState::Closed));
    assert!(actions.is_empty());
    assert!(db.list_summaries().is_empty());
    assert_eq!(db.find_sink(&s("A")), None);
}

#[test]
fn disconnect_before_join_only_drops_session() {
    let mut db = InMemoryDB::new();
    db.register_session(&s("A"), 1);
    let (state, actions) = handle_event(
        &mut db,
        &s("A"),
        1,
        ConnState::Connected,
        Event::Disconnected,
    );
    assert!(matches!(state, ConnState::Closed));
    assert!(actions.is_empty());
    assert_eq!(db.find_sink(&s("A")), None);
}

#[test]
fn handle_event_answers_listing_and_bad_frames() {
    let mut db = InMemoryDB::new();
    db.register_session(&s("A"), 1);
    db.join(&s("a"), &s("B"));
    let (state, actions) = handle_event(
        &mut db,
        &s("A"),
        1,
        ConnState::Connected,
        Event::Received(Message::ListRequest(ListRequest {})),
    );
    assert!(matches!(state, ConnState::Connected));
    match &actions[0] {
        Action::Reply(Message::ListResponse(lr)) => assert_eq!(lr.conversations.len(), 1),
        _ => panic!("expected a listing reply"),
    }
    let (state, actions) = handle_event(
        &mut db,
        &s("A"),
        1,
        state,
        Event::BadFrame(s("string field: not valid UTF-8")),
    );
    assert!(matches!(state, ConnState::Connected));
    match &actions[0] {
        Action::Reply(Message::Error(e)) => {
            assert_eq!(e.message, "string field: not valid UTF-8");
        }
        _ => panic!("expected an error reply"),
    }
}

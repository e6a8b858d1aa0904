//! The per-connection protocol state machine.
//!
//! One handler runs per accepted connection: Connected (no conversation)
//! → Joined(conversation) → Closed. The transport loop outside reads one
//! frame at a time, turns it into an `Event`, and calls `handle_event`; the
//! returned actions say exactly which envelope to write where — `Reply` to
//! this connection, `Send` to another connection's sink. All store mutation
//! happens in here, under the store's lock; the writes happen afterwards,
//! so a slow peer never stalls the store.

use crate::model::{ConversationId, MessageV, UserId};
use crate::protocol::{
    ChatMessage, Error, EnvelopeV, ListResponse, Message, envelope_enc,
    wf_envelope,
};
use crate::store::{
    InMemoryDB, SinkId, StoreError, StoreV, join_effect, join_snapshot, key_idx, leave_effect,
    post_effect, register_effect, remove_session_effect, skip_view, summaries_of, target_sinks,
    wf_store,
};
use vstd::prelude::*;
use vstd::string::StringExecFns;

verus! {

broadcast use vstd::std_specs::vec::group_vec_axioms;

/// Where a connection stands: accepted with no conversation yet, member of
/// exactly one conversation, or finished. A connection owns at most one
/// membership at a time, by design.
#[derive(Debug)]
pub enum ConnState {
    Connected,
    Joined(ConversationId),
    Closed,
}

/// Mathematical model of a `ConnState`.
#[verifier::ext_equal]
pub ghost enum StateV {
    Connected,
    Joined(Seq<char>),
    Closed,
}

impl View for ConnState {
    type V = StateV;

    open spec fn view(&self) -> StateV {
        match self {
            ConnState::Connected => StateV::Connected,
            ConnState::Joined(c) => StateV::Joined(c@),
            ConnState::Closed => StateV::Closed,
        }
    }
}

/// One thing the connection handler asks the transport to do.
#[derive(Debug)]
pub enum Action {
    /// Write this envelope to this connection's own peer.
    Reply(Message),
    /// Write this envelope to the sink with this token.
    Send(SinkId, Message),
}

/// Mathematical model of an `Action`.
#[verifier::ext_equal]
pub ghost enum ActionV {
    Reply(EnvelopeV),
    Send(u64, EnvelopeV),
}

impl View for Action {
    type V = ActionV;

    open spec fn view(&self) -> ActionV {
        match self {
            Action::Reply(m) => ActionV::Reply(m@),
            Action::Send(k, m) => ActionV::Send(*k, m@),
        }
    }
}

/// The models of a sequence of actions.
pub open spec fn acts(v: Seq<Action>) -> Seq<ActionV> {
    v.map_values(|a: Action| a@)
}

/// One inbound occurrence on a connection, as the transport loop saw it.
#[derive(Debug)]
pub enum Event {
    /// A frame arrived and its payload decoded.
    Received(Message),
    /// A frame arrived but its payload decoded to nothing; the diagnostic
    /// travels back to the peer. Not fatal: the connection lives on.
    BadFrame(String),
    /// The stream ended, cleanly or not. Fatal for this connection.
    Disconnected,
}

/// Mathematical model of an `Event`.
#[verifier::ext_equal]
pub ghost enum EventV {
    Received(EnvelopeV),
    BadFrame(Seq<char>),
    Disconnected,
}

impl View for Event {
    type V = EventV;

    open spec fn view(&self) -> EventV {
        match self {
            Event::Received(m) => EventV::Received(m@),
            Event::BadFrame(d) => EventV::BadFrame(d@),
            Event::Disconnected => EventV::Disconnected,
        }
    }
}

/// A history line or broadcast line: sender, separator, text.
pub open spec fn line_of(sender: Seq<char>, content: Seq<char>) -> Seq<char> {
    sender + ": "@ + content
}

/// The notice broadcast when a user enters a conversation.
pub open spec fn joined_notice(user: Seq<char>, cid: Seq<char>) -> Seq<char> {
    "User "@ + user + " has joined the conversation "@ + cid
}

/// The notice broadcast when a user leaves a conversation.
pub open spec fn left_notice(user: Seq<char>, cid: Seq<char>) -> Seq<char> {
    "User "@ + user + " has left the conversation "@ + cid
}

/// The broadcast of one chat line: one `Send` per recipient sink, in
/// recipient order.
pub open spec fn chat_sends(s: StoreV, cid: Seq<char>, text: Seq<char>, skip: Option<
    Seq<char>,
>) -> Seq<ActionV> {
    target_sinks(s, cid, skip).map_values(|k: u64| ActionV::Send(k, EnvelopeV::ChatMessage { text }))
}

/// The replay of a history snapshot: one `Reply` per message, in append
/// order, each formatted as its line.
pub open spec fn replay(h: Seq<MessageV>) -> Seq<ActionV> {
    h.map_values(|m: MessageV| ActionV::Reply(EnvelopeV::ChatMessage { text: line_of(m.sender, m.content) }))
}

/// Format one line.
pub fn format_line(sender: &String, content: &String) -> (r: String)
    ensures
        r@ == line_of(sender@, content@),
{
    let mut r = sender.clone();
    r.append(": ");
    r.append(content.as_str());
    r
}

fn joined_text(user: &UserId, cid: &ConversationId) -> (r: String)
    ensures
        r@ == joined_notice(user@, cid@),
{
    let mut r = "User ".to_owned();
    r.append(user.as_str());
    r.append(" has joined the conversation ");
    r.append(cid.as_str());
    r
}

fn left_text(user: &UserId, cid: &ConversationId) -> (r: String)
    ensures
        r@ == left_notice(user@, cid@),
{
    let mut r = "User ".to_owned();
    r.append(user.as_str());
    r.append(" has left the conversation ");
    r.append(cid.as_str());
    r
}

/// Snapshot the recipients for one chat line and lay out the writes, one
/// per recipient sink. The store is read, not changed.
pub fn broadcast_chat(db: &InMemoryDB, conv_id: &ConversationId, text: &String, skip_user: Option<
    &UserId,
>) -> (r: Vec<Action>)
    ensures
        acts(r@) == chat_sends(db@, conv_id@, text@, skip_view(skip_user)),
{
    let sinks = db.broadcast_targets(conv_id, skip_user);
    let mut r: Vec<Action> = Vec::new();
    let mut i: usize = 0;
    while i < sinks.len()
        invariant
            i <= sinks@.len(),
            sinks@ == target_sinks(db@, conv_id@, skip_view(skip_user)),
            acts(r@) == chat_sends(db@, conv_id@, text@, skip_view(skip_user)).subrange(
                0,
                i as int,
            ),
        decreases sinks@.len() - i,
    {
        let ghost oldr = r@;
        r.push(Action::Send(sinks[i], Message::ChatMessage(ChatMessage { text: text.clone() })));
        i = i + 1;
        proof {
            assert(oldr.len() == i - 1) by {
                assert(acts(oldr).len() == oldr.len());
            }
            assert(acts(r@) =~= chat_sends(db@, conv_id@, text@, skip_view(skip_user)).subrange(
                0,
                i as int,
            ));
        }
    }
    proof {
        let full = chat_sends(db@, conv_id@, text@, skip_view(skip_user));
        assert(full.len() == sinks@.len());
        assert(full.subrange(0, sinks@.len() as int) =~= full);
    }
    r
}

/// Answer a listing request: a point-in-time snapshot of all conversations.
/// Any state but Closed; nothing changes.
pub fn handle_list_request(db: &InMemoryDB) -> (r: Action)
    ensures
        r@ == ActionV::Reply(EnvelopeV::ListResponse { conversations: summaries_of(db@) }),
{
    Action::Reply(Message::ListResponse(ListResponse { conversations: db.list_summaries() }))
}

/// Leave a conversation and lay out the departure notice for the remaining
/// members — the departed user excluded, its session entry gone.
pub fn handle_leave(db: &mut InMemoryDB, user: &UserId, conversation_id: &ConversationId) -> (r:
    Vec<Action>)
    requires
        wf_store(old(db)@),
    ensures
        wf_store(final(db)@),
        final(db)@ == leave_effect(old(db)@, conversation_id@, user@),
        acts(r@) == chat_sends(
            leave_effect(old(db)@, conversation_id@, user@),
            conversation_id@,
            left_notice(user@, conversation_id@),
            Some(user@),
        ),
{
    db.leave(conversation_id, user);
    let text = left_text(user, conversation_id);
    broadcast_chat(db, conversation_id, &text, Some(user))
}

/// Join a conversation, leaving the current one first when there is one.
/// The actions, in order: the departure notice to the old conversation's
/// remaining members (when leaving), the history replay to the joining
/// connection, one envelope per past message in append order, then the
/// entry notice to the other members. The session entry survives the
/// switch: it lives from accept to disconnect.
pub fn handle_join_request(
    db: &mut InMemoryDB,
    user: &UserId,
    sink: SinkId,
    current: &ConnState,
    new_id: &ConversationId,
) -> (r: (ConnState, Vec<Action>))
    requires
        wf_store(old(db)@),
        !(current@ is Closed),
    ensures
        wf_store(final(db)@),
        r.0@ == StateV::Joined(new_id@),
        ({
            let s0 = old(db)@;
            let s1 = match current@ {
                StateV::Joined(old_id) => register_effect(
                    leave_effect(s0, old_id, user@),
                    user@,
                    sink,
                ),
                _ => s0,
            };
            let pre = match current@ {
                StateV::Joined(old_id) => chat_sends(
                    leave_effect(s0, old_id, user@),
                    old_id,
                    left_notice(user@, old_id),
                    Some(user@),
                ),
                _ => Seq::<ActionV>::empty(),
            };
            final(db)@ == join_effect(s1, new_id@, user@) && acts(r.1@) == pre + replay(
                join_snapshot(s1, new_id@),
            ) + chat_sends(
                join_effect(s1, new_id@, user@),
                new_id@,
                joined_notice(user@, new_id@),
                Some(user@),
            )
        }),
{
    let mut actions: Vec<Action> = Vec::new();
    match current {
        ConnState::Joined(old_id) => {
            let mut pre = handle_leave(db, user, old_id);
            actions.append(&mut pre);
            db.register_session(user, sink);
        },
        _ => {},
    }
    let ghost s1 = db@;
    let ghost pre_acts = acts(actions@);
    let history = db.join(new_id, user);
    let mut h: usize = 0;
    while h < history.len()
        invariant
            h <= history@.len(),
            db@ == join_effect(s1, new_id@, user@),
            wf_store(db@),
            acts(actions@) == pre_acts + replay(
                crate::model::msg_views(history@).subrange(0, h as int),
            ),
            crate::model::msg_views(history@) == join_snapshot(s1, new_id@),
        decreases history@.len() - h,
    {
        let ghost olda = actions@;
        let line = format_line(&history[h].sender, &history[h].content);
        actions.push(Action::Reply(Message::ChatMessage(ChatMessage { text: line })));
        h = h + 1;
        proof {
            let mv = crate::model::msg_views(history@);
            let prev = pre_acts + replay(mv.subrange(0, h as int - 1));
            let full = pre_acts + replay(mv.subrange(0, h as int));
            assert(olda.len() == acts(olda).len());
            assert(replay(mv.subrange(0, h as int)).len() == h as int);
            assert(replay(mv.subrange(0, h as int - 1)).len() == h as int - 1);
            assert forall|w: int| 0 <= w < full.len() implies acts(actions@)[w] == full[w] by {
                if w < olda.len() {
                    assert(actions@[w] == olda[w]);
                    assert(acts(olda)[w] == prev[w]);
                    if w >= pre_acts.len() {
                        assert(mv.subrange(0, h as int - 1)[w - pre_acts.len()] == mv.subrange(
                            0,
                            h as int,
                        )[w - pre_acts.len()]);
                    }
                } else {
                    assert(mv.subrange(0, h as int)[w - pre_acts.len()] == mv[h as int - 1]);
                }
            }
            assert(acts(actions@) =~= full);
        }
    }
    proof {
        assert(crate::model::msg_views(history@).subrange(0, history@.len() as int)
            =~= crate::model::msg_views(history@));
        assert(crate::model::msg_views(history@).len() == history@.len());
    }
    let text = joined_text(user, new_id);
    let mut notices = broadcast_chat(db, new_id, &text, Some(user));
    let ghost mid_acts = acts(actions@);
    actions.append(&mut notices);
    proof {
        assert(acts(actions@) =~= mid_acts + chat_sends(
            join_effect(s1, new_id@, user@),
            new_id@,
            joined_notice(user@, new_id@),
            Some(user@),
        ));
        assert(acts(actions@) =~= pre_acts + replay(join_snapshot(s1, new_id@)) + chat_sends(
            join_effect(s1, new_id@, user@),
            new_id@,
            joined_notice(user@, new_id@),
            Some(user@),
        ));
    }
    (ConnState::Joined(new_id.clone()), actions)
}

/// Handle a line of text from the client. Before any join this is refused
/// with an error notice and nothing changes; in a conversation the line is
/// appended to the history and broadcast to all current members, the sender
/// included — the echo — unless the conversation vanished underneath, which
/// is answered with an error notice and changes nothing.
pub fn handler_client_text(
    db: &mut InMemoryDB,
    user: &UserId,
    text: &String,
    current: &ConnState,
) -> (r: Vec<Action>)
    requires
        wf_store(old(db)@),
        !(current@ is Closed),
    ensures
        wf_store(final(db)@),
        current@ is Connected ==> final(db)@ == old(db)@ && acts(r@) == seq![
            ActionV::Reply(
                EnvelopeV::Error { message: "join required before sending text"@ },
            ),
        ],
        ({
            match current@ {
                StateV::Joined(cid) => {
                    if key_idx(old(db)@.conversations, cid) == -1 {
                        final(db)@ == old(db)@ && acts(r@) == seq![
                            ActionV::Reply(EnvelopeV::Error { message: "no such conversation"@ }),
                        ]
                    } else {
                        final(db)@ == post_effect(
                            old(db)@,
                            cid,
                            MessageV { sender: user@, content: text@ },
                        ) && acts(r@) == chat_sends(
                            final(db)@,
                            cid,
                            line_of(user@, text@),
                            None,
                        )
                    }
                },
                _ => true,
            }
        }),
{
    match current {
        ConnState::Joined(cid) => {
            match db.post(cid, user, text.clone()) {
                Ok(_) => {
                    let line = format_line(user, text);
                    broadcast_chat(db, cid, &line, None)
                },
                Err(_) => {
                    let mut r: Vec<Action> = Vec::new();
                    r.push(
                        Action::Reply(
                            Message::Error(Error { message: "no such conversation".to_owned() }),
                        ),
                    );
                    proof {
                        assert(acts(r@) =~= seq![
                            ActionV::Reply(EnvelopeV::Error { message: "no such conversation"@ }),
                        ]);
                    }
                    r
                },
            }
        },
        _ => {
            let mut r: Vec<Action> = Vec::new();
            r.push(
                Action::Reply(
                    Message::Error(
                        Error { message: "join required before sending text".to_owned() },
                    ),
                ),
            );
            proof {
                assert(acts(r@) =~= seq![
                    ActionV::Reply(
                        EnvelopeV::Error { message: "join required before sending text"@ },
                    ),
                ]);
            }
            r
        },
    }
}

/// Turn one frame payload into the event it carries.
pub fn event_of_frame(payload: &Vec<u8>) -> (r: Event)
    ensures
        match r {
            Event::Received(m) => envelope_enc(m@) == payload@,
            Event::BadFrame(_) => !exists|x: EnvelopeV|
                wf_envelope(x) && #[trigger] envelope_enc(x) == payload@,
            Event::Disconnected => false,
        },
{
    match Message::decode(payload) {
        Ok(m) => Event::Received(m),
        Err(e) => {
            proof {
                if exists|x: EnvelopeV| wf_envelope(x) && #[trigger] envelope_enc(x) == payload@ {
                    let x = choose|x: EnvelopeV|
                        wf_envelope(x) && #[trigger] envelope_enc(x) == payload@;
                }
            }
            Event::BadFrame(e.detail)
        },
    }
}

/// One step of the connection state machine: from the current state and one
/// inbound event to the next state and the writes to perform, exactly.
///
/// A listing request is answered in any open state and changes nothing. A
/// join request moves to the new conversation, leaving the old one first
/// when there is one. A text line is posted and echoed, or refused before a
/// join. A server-to-client envelope arriving here, or an undecodable
/// frame, draws one error reply and changes no state. A disconnect is
/// terminal: it leaves the current conversation with its departure notice,
/// and unconditionally drops the session entry.
pub fn handle_event(
    db: &mut InMemoryDB,
    user: &UserId,
    sink: SinkId,
    current: ConnState,
    event: Event,
) -> (r: (ConnState, Vec<Action>))
    requires
        wf_store(old(db)@),
        !(current@ is Closed),
    ensures
        wf_store(final(db)@),
        ({
            let s0 = old(db)@;
            match event@ {
                EventV::Received(env) => match env {
                    EnvelopeV::ListRequest => final(db)@ == s0 && r.0@ == current@ && acts(r.1@)
                        == seq![
                        ActionV::Reply(
                            EnvelopeV::ListResponse { conversations: summaries_of(s0) },
                        ),
                    ],
                    EnvelopeV::JoinRequest { conversation_id } => {
                        let s1 = match current@ {
                            StateV::Joined(old_id) => register_effect(
                                leave_effect(s0, old_id, user@),
                                user@,
                                sink,
                            ),
                            _ => s0,
                        };
                        let pre = match current@ {
                            StateV::Joined(old_id) => chat_sends(
                                leave_effect(s0, old_id, user@),
                                old_id,
                                left_notice(user@, old_id),
                                Some(user@),
                            ),
                            _ => Seq::<ActionV>::empty(),
                        };
                        r.0@ == StateV::Joined(conversation_id) && final(db)@ == join_effect(
                            s1,
                            conversation_id,
                            user@,
                        ) && acts(r.1@) == pre + replay(join_snapshot(s1, conversation_id))
                            + chat_sends(
                            join_effect(s1, conversation_id, user@),
                            conversation_id,
                            joined_notice(user@, conversation_id),
                            Some(user@),
                        )
                    },
                    EnvelopeV::ClientText { text } => r.0@ == current@ && (match current@ {
                        StateV::Joined(cid) => {
                            if key_idx(s0.conversations, cid) == -1 {
                                final(db)@ == s0 && acts(r.1@) == seq![
                                    ActionV::Reply(
                                        EnvelopeV::Error { message: "no such conversation"@ },
                                    ),
                                ]
                            } else {
                                final(db)@ == post_effect(
                                    s0,
                                    cid,
                                    MessageV { sender: user@, content: text },
                                ) && acts(r.1@) == chat_sends(
                                    final(db)@,
                                    cid,
                                    line_of(user@, text),
                                    None,
                                )
                            }
                        },
                        _ => final(db)@ == s0 && acts(r.1@) == seq![
                            ActionV::Reply(
                                EnvelopeV::Error {
                                    message: "join required before sending text"@,
                                },
                            ),
                        ],
                    }),
                    _ => final(db)@ == s0 && r.0@ == current@ && acts(r.1@) == seq![
                        ActionV::Reply(EnvelopeV::Error { message: "Unknown message type."@ }),
                    ],
                },
                EventV::BadFrame(d) => final(db)@ == s0 && r.0@ == current@ && acts(r.1@) == seq![
                    ActionV::Reply(EnvelopeV::Error { message: d }),
                ],
                EventV::Disconnected => r.0@ is Closed && (match current@ {
                    StateV::Joined(cid) => final(db)@ == remove_session_effect(
                        leave_effect(s0, cid, user@),
                        user@,
                    ) && acts(r.1@) == chat_sends(
                        leave_effect(s0, cid, user@),
                        cid,
                        left_notice(user@, cid),
                        Some(user@),
                    ),
                    _ => final(db)@ == remove_session_effect(s0, user@) && acts(r.1@)
                        == Seq::<ActionV>::empty(),
                }),
            }
        }),
{
    match event {
        Event::Received(msg) => match msg {
            Message::ListRequest(_) => {
                let a = handle_list_request(db);
                let mut v: Vec<Action> = Vec::new();
                v.push(a);
                proof {
                    assert(acts(v@) =~= seq![
                        ActionV::Reply(
                            EnvelopeV::ListResponse { conversations: summaries_of(db@) },
                        ),
                    ]);
                }
                (current, v)
            },
            Message::JoinRequest(jr) => handle_join_request(
                db,
                user,
                sink,
                &current,
                &jr.conversation_id,
            ),
            Message::ClientText(ct) => {
                let v = handler_client_text(db, user, &ct.text, &current);
                (current, v)
            },
            _ => {
                let mut v: Vec<Action> = Vec::new();
                v.push(
                    Action::Reply(
                        Message::Error(Error { message: "Unknown message type.".to_owned() }),
                    ),
                );
                proof {
                    assert(acts(v@) =~= seq![
                        ActionV::Reply(EnvelopeV::Error { message: "Unknown message type."@ }),
                    ]);
                }
                (current, v)
            },
        },
        Event::BadFrame(d) => {
            let ghost dv = d@;
            let mut v: Vec<Action> = Vec::new();
            v.push(Action::Reply(Message::Error(Error { message: d })));
            proof {
                assert(acts(v@) =~= seq![ActionV::Reply(EnvelopeV::Error { message: dv })]);
            }
            (current, v)
        },
        Event::Disconnected => {
            let actions = match &current {
                ConnState::Joined(cid) => handle_leave(db, user, cid),
                _ => Vec::new(),
            };
            db.remove_session(user);
            proof {
                if !(current@ is Joined) {
                    assert(acts(Seq::<Action>::empty()) =~= Seq::<ActionV>::empty());
                }
            }
            (ConnState::Closed, actions)
        },
    }
}

} // verus!

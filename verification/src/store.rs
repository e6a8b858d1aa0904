//! The shared conversation-and-session store.
//!
//! One aggregate owns both maps — conversation id to membership and history,
//! and user id to the sink token of that user's live connection — so that
//! operations needing a consistent cross-view of membership and connectivity
//! act on one value. The caller serializes access (one coarse lock around
//! the whole store); every operation here is one such critical section, and
//! none of them blocks on transport work. Sinks appear as plain tokens: the
//! transport hands a token out for each accepted connection and writes to
//! the matching stream when asked.

use crate::model::{Conversation, ConversationId, ConversationV, Message, MessageV, UserId,
    msg_views, user_views};
use crate::protocol::{ConversationSummary, SummaryV, views_of};
use vstd::prelude::*;

verus! {

broadcast use vstd::std_specs::vec::group_vec_axioms;

/// A token naming one live connection's write side.
pub type SinkId = u64;

/// Why a store operation was refused.
#[derive(Clone, Copy, Debug, PartialEq, Eq, Structural)]
pub enum StoreError {
    NoSuchConversation,
}

/// The store: both maps, as association lists with distinct keys.
#[derive(Debug)]
pub struct InMemoryDB {
    pub conversations: Vec<(ConversationId, Conversation)>,
    pub connections: Vec<(UserId, SinkId)>,
}

/// Mathematical model of the store.
#[verifier::ext_equal]
pub ghost struct StoreV {
    pub conversations: Seq<(Seq<char>, ConversationV)>,
    pub connections: Seq<(Seq<char>, u64)>,
}

/// The models of the conversation entries.
pub open spec fn conv_views(v: Seq<(ConversationId, Conversation)>) -> Seq<
    (Seq<char>, ConversationV),
> {
    v.map_values(|p: (ConversationId, Conversation)| (p.0@, p.1@))
}

/// The models of the session entries.
pub open spec fn conn_views(v: Seq<(UserId, SinkId)>) -> Seq<(Seq<char>, u64)> {
    v.map_values(|p: (UserId, SinkId)| (p.0@, p.1))
}

impl View for InMemoryDB {
    type V = StoreV;

    open spec fn view(&self) -> StoreV {
        StoreV {
            conversations: conv_views(self.conversations@),
            connections: conn_views(self.connections@),
        }
    }
}

/// Index of the first entry with key `k`, or -1 when there is none.
pub open spec fn key_idx<V>(s: Seq<(Seq<char>, V)>, k: Seq<char>) -> int
    decreases s.len(),
{
    if s.len() == 0 {
        -1
    } else if s[0].0 == k {
        0
    } else if key_idx(s.drop_first(), k) == -1 {
        -1
    } else {
        key_idx(s.drop_first(), k) + 1
    }
}

/// The value stored under key `k`, if any.
pub open spec fn assoc_find<V>(s: Seq<(Seq<char>, V)>, k: Seq<char>) -> Option<V> {
    if key_idx(s, k) == -1 {
        None
    } else {
        Some(s[key_idx(s, k)].1)
    }
}

/// What `key_idx` answers: a real index holding the key, or absence.
pub proof fn lemma_key_idx<V>(s: Seq<(Seq<char>, V)>, k: Seq<char>)
    ensures
        key_idx(s, k) == -1 ==> forall|i: int| 0 <= i < s.len() ==> (#[trigger] s[i]).0 != k,
        key_idx(s, k) != -1 ==> 0 <= key_idx(s, k) < s.len() && s[key_idx(s, k)].0 == k && (forall|
            m: int,
        | 0 <= m < key_idx(s, k) ==> (#[trigger] s[m]).0 != k),
    decreases s.len(),
{
    if s.len() > 0 {
        lemma_key_idx(s.drop_first(), k);
        if key_idx(s, k) == -1 {
            assert forall|i: int| 0 <= i < s.len() implies (#[trigger] s[i]).0 != k by {
                if i > 0 {
                    assert(s[i] == s.drop_first()[i - 1]);
                }
            }
        } else {
            assert forall|m: int| 0 <= m < key_idx(s, k) implies (#[trigger] s[m]).0 != k by {
                if m > 0 {
                    assert(s[m] == s.drop_first()[m - 1]);
                }
            }
        }
    }
}

/// The first index whose prefix misses the key is what `key_idx` answers.
pub proof fn lemma_key_idx_of_first<V>(s: Seq<(Seq<char>, V)>, k: Seq<char>, i: int)
    requires
        0 <= i <= s.len(),
        forall|m: int| 0 <= m < i ==> (#[trigger] s[m]).0 != k,
        i < s.len() ==> s[i].0 == k,
    ensures
        i == s.len() ==> key_idx(s, k) == -1,
        i < s.len() ==> key_idx(s, k) == i,
    decreases s.len(),
{
    if s.len() > 0 && i > 0 {
        lemma_key_idx_of_first(s.drop_first(), k, i - 1);
    }
}

/// No two entries share a key.
pub open spec fn distinct_keys<V>(s: Seq<(Seq<char>, V)>) -> bool {
    forall|i: int, j: int|
        0 <= i < j < s.len() ==> (#[trigger] s[i]).0 != (#[trigger] s[j]).0
}

/// No two members are the same user.
pub open spec fn distinct_users(u: Seq<Seq<char>>) -> bool {
    forall|i: int, j: int| 0 <= i < j < u.len() ==> u[i] != u[j]
}

/// A conversation in the store is well formed: at least one member, no
/// duplicate members.
pub open spec fn wf_conv(c: ConversationV) -> bool {
    c.users.len() >= 1 && distinct_users(c.users)
}

/// The store's invariant: a conversation exists exactly while it has
/// members, nobody is a member twice, and both maps have distinct keys.
pub open spec fn wf_store(s: StoreV) -> bool {
    &&& distinct_keys(s.conversations)
    &&& distinct_keys(s.connections)
    &&& forall|i: int|
        0 <= i < s.conversations.len() ==> wf_conv((#[trigger] s.conversations[i]).1)
}

/// What `join` does to the store: create the conversation with the joining
/// user as sole member, or add the user to it if absent; idempotent.
pub open spec fn join_effect(s: StoreV, cid: Seq<char>, uid: Seq<char>) -> StoreV {
    let j = key_idx(s.conversations, cid);
    if j == -1 {
        StoreV {
            conversations: s.conversations.push(
                (cid, ConversationV { users: seq![uid], messages: Seq::empty() }),
            ),
            connections: s.connections,
        }
    } else {
        let c = s.conversations[j].1;
        if c.users.contains(uid) {
            s
        } else {
            StoreV {
                conversations: s.conversations.update(
                    j,
                    (cid, ConversationV { users: c.users.push(uid), messages: c.messages }),
                ),
                connections: s.connections,
            }
        }
    }
}

/// What `join` hands back: the history to replay, in append order.
pub open spec fn join_snapshot(s: StoreV, cid: Seq<char>) -> Seq<MessageV> {
    match assoc_find(s.conversations, cid) {
        Some(c) => c.messages,
        None => Seq::empty(),
    }
}

/// What `post` does to the store when the conversation exists: append one
/// message to its history; nothing else moves.
pub open spec fn post_effect(s: StoreV, cid: Seq<char>, m: MessageV) -> StoreV {
    let j = key_idx(s.conversations, cid);
    let c = s.conversations[j].1;
    StoreV {
        conversations: s.conversations.update(
            j,
            (cid, ConversationV { users: c.users, messages: c.messages.push(m) }),
        ),
        connections: s.connections,
    }
}

/// The members left after `uid` departs, order kept.
pub open spec fn keep_members(users: Seq<Seq<char>>, uid: Seq<char>) -> Seq<Seq<char>>
    decreases users.len(),
{
    if users.len() == 0 {
        Seq::empty()
    } else {
        let rest = keep_members(users.drop_last(), uid);
        if users.last() == uid {
            rest
        } else {
            rest.push(users.last())
        }
    }
}

/// The session entries left after `uid`'s is removed, order kept.
pub open spec fn keep_conns(conns: Seq<(Seq<char>, u64)>, uid: Seq<char>) -> Seq<(Seq<char>, u64)>
    decreases conns.len(),
{
    if conns.len() == 0 {
        Seq::empty()
    } else {
        let rest = keep_conns(conns.drop_last(), uid);
        if conns.last().0 == uid {
            rest
        } else {
            rest.push(conns.last())
        }
    }
}

/// What `leave` does to the store: drop the user from the conversation's
/// membership, delete the conversation the instant its membership reaches
/// zero (its history with it), and always drop the user's session entry.
pub open spec fn leave_effect(s: StoreV, cid: Seq<char>, uid: Seq<char>) -> StoreV {
    let j = key_idx(s.conversations, cid);
    let convs = if j == -1 {
        s.conversations
    } else {
        let c = s.conversations[j].1;
        let remaining = keep_members(c.users, uid);
        if remaining.len() == 0 {
            s.conversations.remove(j)
        } else {
            s.conversations.update(j, (cid, ConversationV { users: remaining, messages: c.messages }))
        }
    };
    StoreV { conversations: convs, connections: keep_conns(s.connections, uid) }
}

/// What `register_session` does: insert or overwrite the user's sink,
/// last writer wins.
pub open spec fn register_effect(s: StoreV, uid: Seq<char>, sink: u64) -> StoreV {
    let j = key_idx(s.connections, uid);
    StoreV {
        conversations: s.conversations,
        connections: if j == -1 {
            s.connections.push((uid, sink))
        } else {
            s.connections.update(j, (uid, sink))
        },
    }
}

/// What `remove_session` does: drop the user's session entry, if any.
pub open spec fn remove_session_effect(s: StoreV, uid: Seq<char>) -> StoreV {
    StoreV { conversations: s.conversations, connections: keep_conns(s.connections, uid) }
}

/// What `list_summaries` answers: one summary per conversation, counts
/// taken at this instant.
pub open spec fn summaries_of(s: StoreV) -> Seq<SummaryV> {
    s.conversations.map_values(
        |p: (Seq<char>, ConversationV)|
            SummaryV {
                id: p.0,
                user_count: p.1.users.len() as u32,
                message_count: p.1.messages.len() as u32,
            },
    )
}

/// The broadcast recipients among `users`, in membership order: every user
/// with a live session, except the skipped actor.
pub open spec fn collect_recipients(
    users: Seq<Seq<char>>,
    conns: Seq<(Seq<char>, u64)>,
    skip: Option<Seq<char>>,
) -> Seq<(Seq<char>, u64)>
    decreases users.len(),
{
    if users.len() == 0 {
        Seq::empty()
    } else {
        let rest = collect_recipients(users.drop_last(), conns, skip);
        let u = users.last();
        if skip == Some(u) {
            rest
        } else {
            match assoc_find(conns, u) {
                Some(k) => rest.push((u, k)),
                None => rest,
            }
        }
    }
}

/// Who receives a broadcast for `cid`: the connected members, minus the
/// optional excluded actor. Snapshot semantics: taken while the store is
/// held, written to afterwards.
pub open spec fn recipients_of(s: StoreV, cid: Seq<char>, skip: Option<Seq<char>>) -> Seq<
    (Seq<char>, u64),
> {
    match assoc_find(s.conversations, cid) {
        Some(c) => collect_recipients(c.users, s.connections, skip),
        None => Seq::empty(),
    }
}

/// The sink tokens of those recipients, in the same order.
pub open spec fn target_sinks(s: StoreV, cid: Seq<char>, skip: Option<Seq<char>>) -> Seq<u64> {
    recipients_of(s, cid, skip).map_values(|p: (Seq<char>, u64)| p.1)
}

/// The model of an optional excluded actor.
pub open spec fn skip_view(skip: Option<&UserId>) -> Option<Seq<char>> {
    match skip {
        Some(u) => Some(u@),
        None => None,
    }
}

/// Find the position of a conversation entry.
fn find_conv_idx(v: &Vec<(ConversationId, Conversation)>, k: &String) -> (r: Option<usize>)
    ensures
        match r {
            Some(i) => i < v@.len() && key_idx(conv_views(v@), k@) == i as int,
            None => key_idx(conv_views(v@), k@) == -1,
        },
{
    let mut i: usize = 0;
    while i < v.len()
        invariant
            i <= v@.len(),
            forall|m: int| 0 <= m < i ==> (#[trigger] conv_views(v@)[m]).0 != k@,
        decreases v@.len() - i,
    {
        if v[i].0 == *k {
            proof {
                lemma_key_idx_of_first(conv_views(v@), k@, i as int);
            }
            return Some(i);
        }
        i = i + 1;
    }
    proof {
        lemma_key_idx_of_first(conv_views(v@), k@, v@.len() as int);
    }
    None
}

/// Find the position of a session entry.
fn find_conn_idx(v: &Vec<(UserId, SinkId)>, k: &String) -> (r: Option<usize>)
    ensures
        match r {
            Some(i) => i < v@.len() && key_idx(conn_views(v@), k@) == i as int,
            None => key_idx(conn_views(v@), k@) == -1,
        },
{
    let mut i: usize = 0;
    while i < v.len()
        invariant
            i <= v@.len(),
            forall|m: int| 0 <= m < i ==> (#[trigger] conn_views(v@)[m]).0 != k@,
        decreases v@.len() - i,
    {
        if v[i].0 == *k {
            proof {
                lemma_key_idx_of_first(conn_views(v@), k@, i as int);
            }
            return Some(i);
        }
        i = i + 1;
    }
    proof {
        lemma_key_idx_of_first(conn_views(v@), k@, v@.len() as int);
    }
    None
}

/// What `keep_conns` keeps: entries of the original, none under the removed
/// key, distinctness preserved.
pub proof fn lemma_keep_conns_props(conns: Seq<(Seq<char>, u64)>, uid: Seq<char>)
    ensures
        forall|i: int|
            0 <= i < keep_conns(conns, uid).len() ==> (#[trigger] keep_conns(conns, uid)[i]).0
                != uid && conns.contains(keep_conns(conns, uid)[i]),
        distinct_keys(conns) ==> distinct_keys(keep_conns(conns, uid)),
        key_idx(conns, uid) == -1 ==> keep_conns(conns, uid) == conns,
    decreases conns.len(),
{
    if conns.len() > 0 {
        lemma_keep_conns_props(conns.drop_last(), uid);
        let kept = keep_conns(conns, uid);
        let rest = keep_conns(conns.drop_last(), uid);
        assert forall|i: int|
            0 <= i < kept.len() implies (#[trigger] kept[i]).0 != uid && conns.contains(
            kept[i],
        ) by {
            if i < rest.len() {
                let w = choose|w: int| 0 <= w < conns.drop_last().len() && conns.drop_last()[w]
                    == rest[i];
                assert(conns[w] == kept[i]);
            } else {
                assert(conns[conns.len() - 1] == kept[i]);
            }
        }
        if distinct_keys(conns) {
            assert(distinct_keys(conns.drop_last()));
            assert forall|i: int, j: int|
                0 <= i < j < kept.len() implies (#[trigger] kept[i]).0 != (
            #[trigger] kept[j]).0 by {
                if j == kept.len() - 1 && conns.last().0 != uid {
                    let w = choose|w: int| 0 <= w < conns.drop_last().len()
                        && conns.drop_last()[w] == rest[i];
                    assert(conns[w].0 != conns[conns.len() - 1].0);
                }
            }
        }
        if key_idx(conns, uid) == -1 {
            lemma_key_idx(conns, uid);
            assert(conns[conns.len() - 1].0 != uid);
            assert(key_idx(conns.drop_last(), uid) == -1) by {
                lemma_key_idx(conns.drop_last(), uid);
                if key_idx(conns.drop_last(), uid) != -1 {
                    assert(conns[key_idx(conns.drop_last(), uid)].0 == uid);
                }
            }
            assert(kept =~= conns);
        }
    }
}

/// What `keep_members` keeps: members of the original, never the departed
/// user, distinctness preserved; and when the departed user was the sole
/// member, nobody.
pub proof fn lemma_keep_members_props(users: Seq<Seq<char>>, uid: Seq<char>)
    ensures
        forall|i: int|
            0 <= i < keep_members(users, uid).len() ==> #[trigger] keep_members(users, uid)[i]
                != uid && users.contains(keep_members(users, uid)[i]),
        distinct_users(users) ==> distinct_users(keep_members(users, uid)),
        users == seq![uid] ==> keep_members(users, uid) == Seq::<Seq<char>>::empty(),
    decreases users.len(),
{
    if users.len() > 0 {
        lemma_keep_members_props(users.drop_last(), uid);
        let kept = keep_members(users, uid);
        let rest = keep_members(users.drop_last(), uid);
        assert forall|i: int|
            0 <= i < kept.len() implies #[trigger] kept[i] != uid && users.contains(kept[i]) by {
            if i < rest.len() {
                let w = choose|w: int| 0 <= w < users.drop_last().len() && users.drop_last()[w]
                    == rest[i];
                assert(users[w] == kept[i]);
            } else {
                assert(users[users.len() - 1] == kept[i]);
            }
        }
        if distinct_users(users) {
            assert(distinct_users(users.drop_last()));
            assert forall|i: int, j: int|
                0 <= i < j < kept.len() implies kept[i] != kept[j] by {
                if j == kept.len() - 1 && users.last() != uid {
                    let w = choose|w: int| 0 <= w < users.drop_last().len()
                        && users.drop_last()[w] == rest[i];
                    assert(users[w] != users[users.len() - 1]);
                }
            }
        }
        if users == seq![uid] {
            assert(users.last() == uid);
            assert(users.drop_last() =~= Seq::<Seq<char>>::empty());
        }
    }
}

impl InMemoryDB {
    /// A fresh store: no conversations, no sessions.
    pub fn new() -> (r: Self)
        ensures
            r@.conversations == Seq::<(Seq<char>, ConversationV)>::empty(),
            r@.connections == Seq::<(Seq<char>, u64)>::empty(),
            wf_store(r@),
    {
        let r = InMemoryDB { conversations: Vec::new(), connections: Vec::new() };
        proof {
            assert(r@.conversations =~= Seq::<(Seq<char>, ConversationV)>::empty());
            assert(r@.connections =~= Seq::<(Seq<char>, u64)>::empty());
        }
        r
    }

    /// Record the sink for a user's live connection. Idempotent; a second
    /// registration under the same identity replaces the sink (last writer
    /// wins — identity reuse implies the prior session already ended).
    pub fn register_session(&mut self, user: &UserId, sink: SinkId)
        requires
            wf_store(old(self)@),
        ensures
            wf_store(final(self)@),
            final(self)@ == register_effect(old(self)@, user@, sink),
    {
        match find_conn_idx(&self.connections, user) {
            Some(i) => {
                proof {
                    lemma_key_idx(conn_views(self.connections@), user@);
                }
                let mut e = self.connections.remove(i);
                e.1 = sink;
                self.connections.insert(i, e);
                proof {
                    assert(conn_views(self.connections@) =~= conn_views(
                        old(self).connections@,
                    ).update(i as int, (user@, sink)));
                    assert(self@ =~= register_effect(old(self)@, user@, sink));
                }
            },
            None => {
                proof {
                    lemma_key_idx(conn_views(self.connections@), user@);
                }
                self.connections.push((user.clone(), sink));
                proof {
                    assert(conn_views(self.connections@) =~= conn_views(
                        old(self).connections@,
                    ).push((user@, sink)));
                    assert(self@ =~= register_effect(old(self)@, user@, sink));
                }
            },
        }
        proof {
            let oldc = conn_views(old(self).connections@);
            let newc = self@.connections;
            lemma_key_idx(oldc, user@);
            assert forall|i: int, j: int|
                0 <= i < j < newc.len() implies (#[trigger] newc[i]).0 != (
            #[trigger] newc[j]).0 by {
                if key_idx(oldc, user@) == -1 && j == newc.len() - 1 {
                    assert(oldc[i].0 != user@);
                }
            }
        }
    }

    /// Join a conversation: create it with `user` as sole member when it is
    /// new, add `user` when absent, change nothing when already a member.
    /// Hands back a copy of the history at this instant, in append order,
    /// for replay to the joining user.
    pub fn join(&mut self, conversation_id: &ConversationId, user: &UserId) -> (history: Vec<
        Message,
    >)
        requires
            wf_store(old(self)@),
        ensures
            wf_store(final(self)@),
            final(self)@ == join_effect(old(self)@, conversation_id@, user@),
            msg_views(history@) == join_snapshot(old(self)@, conversation_id@),
    {
        match find_conv_idx(&self.conversations, conversation_id) {
            None => {
                proof {
                    lemma_key_idx(conv_views(self.conversations@), conversation_id@);
                }
                self.conversations.push((conversation_id.clone(), Conversation::new(user.clone())));
                proof {
                    assert(conv_views(self.conversations@) =~= conv_views(
                        old(self).conversations@,
                    ).push(
                        (
                            conversation_id@,
                            ConversationV { users: seq![user@], messages: Seq::empty() },
                        ),
                    ));
                    assert(self@ =~= join_effect(old(self)@, conversation_id@, user@));
                    let newc = self@.conversations;
                    let oldc = old(self)@.conversations;
                    lemma_key_idx(oldc, conversation_id@);
                    assert forall|i: int, j: int|
                        0 <= i < j < newc.len() implies (#[trigger] newc[i]).0 != (
                    #[trigger] newc[j]).0 by {
                        if j == newc.len() - 1 {
                            assert(oldc[i].0 != conversation_id@);
                        }
                    }
                    assert forall|i: int|
                        0 <= i < newc.len() implies wf_conv((#[trigger] newc[i]).1) by {
                        if i == newc.len() - 1 {
                            assert(newc[i].1.users =~= seq![user@]);
                        }
                    }
                    assert(msg_views(Seq::<Message>::empty()) =~= Seq::<MessageV>::empty());
                }
                Vec::new()
            },
            Some(i) => {
                proof {
                    lemma_key_idx(conv_views(self.conversations@), conversation_id@);
                }
                let ghost cv = conv_views(self.conversations@)[i as int].1;
                // copy the history first, for replay
                let mut history: Vec<Message> = Vec::new();
                let mut h: usize = 0;
                let n = self.conversations[i].1.messages.len();
                while h < n
                    invariant
                        h <= n,
                        i < self.conversations@.len(),
                        self.conversations == old(self).conversations,
                        n == self.conversations@[i as int].1.messages@.len(),
                        msg_views(history@) == msg_views(
                            self.conversations@[i as int].1.messages@,
                        ).subrange(0, h as int),
                    decreases n - h,
                {
                    let ghost msgs = self.conversations@[i as int].1.messages@;
                    let ghost oldh = history@;
                    let msg = self.conversations[i].1.messages[h].clone();
                    proof {
                        assert(msg@ == msgs[h as int]@);
                    }
                    history.push(msg);
                    h = h + 1;
                    proof {
                        assert(oldh.len() == h - 1) by {
                            assert(msg_views(oldh).len() == oldh.len());
                        }
                        assert forall|w: int|
                            0 <= w < h implies msg_views(history@)[w] == msg_views(msgs)[w] by {
                            if w < h - 1 {
                                assert(msg_views(oldh)[w] == msg_views(msgs).subrange(
                                    0,
                                    h as int - 1,
                                )[w]);
                                assert(history@[w] == oldh[w]);
                            } else {
                                assert(history@[w] == msg);
                            }
                        }
                        assert(msg_views(history@) =~= msg_views(msgs).subrange(0, h as int));
                    }
                }
                proof {
                    assert(msg_views(self.conversations@[i as int].1.messages@).subrange(
                        0,
                        n as int,
                    ) =~= cv.messages);
                    assert(msg_views(history@) == join_snapshot(old(self)@, conversation_id@));
                }
                // membership, idempotent
                let mut member = false;
                let mut m: usize = 0;
                let ucount = self.conversations[i].1.users.len();
                while m < ucount
                    invariant
                        m <= ucount,
                        i < self.conversations@.len(),
                        self.conversations == old(self).conversations,
                        ucount == self.conversations@[i as int].1.users@.len(),
                        member ==> cv.users.contains(user@),
                        cv == conv_views(self.conversations@)[i as int].1,
                        !member ==> forall|w: int| 0 <= w < m ==> cv.users[w] != user@,
                    decreases ucount - m,
                {
                    if self.conversations[i].1.users[m] == *user {
                        member = true;
                        proof {
                            assert(cv.users[m as int] == user@);
                        }
                    }
                    m = m + 1;
                }
                if member {
                    proof {
                        assert(self@ =~= join_effect(old(self)@, conversation_id@, user@));
                    }
                } else {
                    proof {
                        assert(!cv.users.contains(user@));
                    }
                    let mut e = self.conversations.remove(i);
                    e.1.users.push(user.clone());
                    self.conversations.insert(i, e);
                    proof {
                        let oldc = conv_views(old(self).conversations@);
                        assert(conv_views(self.conversations@) =~~= oldc.update(
                            i as int,
                            (
                                conversation_id@,
                                ConversationV {
                                    users: cv.users.push(user@),
                                    messages: cv.messages,
                                },
                            ),
                        ));
                        assert(self@ =~= join_effect(old(self)@, conversation_id@, user@));
                        let newc = self@.conversations;
                        assert forall|w: int|
                            0 <= w < newc.len() implies wf_conv((#[trigger] newc[w]).1) by {
                            if w == i as int {
                                let nu = cv.users.push(user@);
                                assert forall|a: int, b: int|
                                    0 <= a < b < nu.len() implies nu[a] != nu[b] by {
                                    if b == nu.len() - 1 {
                                        assert(!cv.users.contains(user@));
                                    }
                                }
                            }
                        }
                    }
                }
                history
            },
        }
    }

    /// Append a message to a conversation's history. Fails, changing
    /// nothing, exactly when the conversation does not exist; join before
    /// posting is the caller's duty (see the connection handler).
    pub fn post(&mut self, conversation_id: &ConversationId, sender: &UserId, text: String) -> (r:
        Result<(), StoreError>)
        requires
            wf_store(old(self)@),
        ensures
            wf_store(final(self)@),
            match r {
                Ok(_) => key_idx(old(self)@.conversations, conversation_id@) != -1 && final(self)@
                    == post_effect(
                    old(self)@,
                    conversation_id@,
                    MessageV { sender: sender@, content: text@ },
                ),
                Err(e) => e == StoreError::NoSuchConversation && key_idx(
                    old(self)@.conversations,
                    conversation_id@,
                ) == -1 && final(self)@ == old(self)@,
            },
    {
        match find_conv_idx(&self.conversations, conversation_id) {
            None => Err(StoreError::NoSuchConversation),
            Some(i) => {
                proof {
                    lemma_key_idx(conv_views(self.conversations@), conversation_id@);
                }
                let ghost cv = conv_views(self.conversations@)[i as int].1;
                let mut e = self.conversations.remove(i);
                e.1.add_message(Message::new(sender.clone(), text));
                self.conversations.insert(i, e);
                proof {
                    let oldc = conv_views(old(self).conversations@);
                    assert(conv_views(self.conversations@) =~= oldc.update(
                        i as int,
                        (
                            conversation_id@,
                            ConversationV {
                                users: cv.users,
                                messages: cv.messages.push(
                                    MessageV { sender: sender@, content: text@ },
                                ),
                            },
                        ),
                    ));
                    assert(self@ =~= post_effect(
                        old(self)@,
                        conversation_id@,
                        MessageV { sender: sender@, content: text@ },
                    ));
                }
                Ok(())
            },
        }
    }

    /// Leave a conversation: drop the membership, delete the conversation
    /// when it thereby empties (discarding its history), and always drop
    /// the user's session entry, found or not.
    pub fn leave(&mut self, conversation_id: &ConversationId, user: &UserId)
        requires
            wf_store(old(self)@),
        ensures
            wf_store(final(self)@),
            final(self)@ == leave_effect(old(self)@, conversation_id@, user@),
    {
        match find_conv_idx(&self.conversations, conversation_id) {
            None => {},
            Some(i) => {
                proof {
                    lemma_key_idx(conv_views(self.conversations@), conversation_id@);
                }
                let ghost cv = conv_views(self.conversations@)[i as int].1;
                let e = self.conversations.remove(i);
                let mut kept: Vec<UserId> = Vec::new();
                let mut m: usize = 0;
                let users = e.1.users;
                while m < users.len()
                    invariant
                        m <= users@.len(),
                        user_views(kept@) == keep_members(
                            user_views(users@).subrange(0, m as int),
                            user@,
                        ),
                    decreases users@.len() - m,
                {
                    let ghost prefix = user_views(users@).subrange(0, m as int);
                    if !(users[m] == *user) {
                        kept.push(users[m].clone());
                    }
                    m = m + 1;
                    proof {
                        let prefix2 = user_views(users@).subrange(0, m as int);
                        assert(prefix2.drop_last() =~= prefix);
                        assert(user_views(kept@) =~= keep_members(prefix2, user@));
                    }
                }
                proof {
                    assert(user_views(users@).subrange(0, users@.len() as int) =~= user_views(
                        users@,
                    ));
                    assert(user_views(kept@) == keep_members(cv.users, user@));
                    lemma_keep_members_props(cv.users, user@);
                }
                if kept.len() > 0 {
                    self.conversations.insert(
                        i,
                        (e.0, Conversation { users: kept, messages: e.1.messages }),
                    );
                    proof {
                        let oldc = conv_views(old(self).conversations@);
                        assert(conv_views(self.conversations@) =~= oldc.update(
                            i as int,
                            (
                                conversation_id@,
                                ConversationV {
                                    users: keep_members(cv.users, user@),
                                    messages: cv.messages,
                                },
                            ),
                        ));
                    }
                } else {
                    proof {
                        let oldc = conv_views(old(self).conversations@);
                        assert(conv_views(self.conversations@) =~= oldc.remove(i as int));
                    }
                }
            },
        }
        proof {
            // the conversation half keeps the invariant
            let oldc = old(self)@.conversations;
            let newc = self@.conversations;
            let j = key_idx(oldc, conversation_id@);
            if j != -1 {
                lemma_key_idx(oldc, conversation_id@);
                lemma_keep_members_props(oldc[j].1.users, user@);
                if keep_members(oldc[j].1.users, user@).len() == 0 {
                    assert forall|a: int, b: int|
                        0 <= a < b < newc.len() implies (#[trigger] newc[a]).0 != (
                    #[trigger] newc[b]).0 by {
                        let a0: int = if a < j {
                            a
                        } else {
                            a + 1
                        };
                        let b0: int = if b < j {
                            b
                        } else {
                            b + 1
                        };
                        assert(newc[a] == oldc[a0] && newc[b] == oldc[b0]);
                    }
                } else {
                    assert(forall|w: int|
                        0 <= w < newc.len() ==> (#[trigger] newc[w]).0 == oldc[w].0);
                }
            }
            assert(wf_store(self@));
        }
        self.remove_session(user);
        proof {
            assert(self@ =~= leave_effect(old(self)@, conversation_id@, user@));
        }
    }

    /// A point-in-time snapshot over all live conversations: id, member
    /// count, message count, one summary each. No ordering is promised to
    /// callers; what comes out is creation order.
    pub fn list_summaries(&self) -> (r: Vec<ConversationSummary>)
        ensures
            views_of(r@) == summaries_of(self@),
    {
        let mut r: Vec<ConversationSummary> = Vec::new();
        let mut i: usize = 0;
        while i < self.conversations.len()
            invariant
                i <= self.conversations@.len(),
                views_of(r@) == summaries_of(self@).subrange(0, i as int),
            decreases self.conversations@.len() - i,
        {
            let entry = &self.conversations[i];
            let ghost cv = self@.conversations[i as int];
            let uc = entry.1.users.len();
            let mc = entry.1.messages.len();
            let s = ConversationSummary {
                id: entry.0.clone(),
                user_count: #[verifier::truncate] (uc as u32),
                message_count: #[verifier::truncate] (mc as u32),
            };
            proof {
                assert(cv.1.users.len() == uc);
                assert(cv.1.messages.len() == mc);
                assert(s@ == summaries_of(self@)[i as int]);
            }
            let ghost oldr = r@;
            let ghost svw = s@;
            r.push(s);
            i = i + 1;
            proof {
                assert(oldr.len() == i - 1) by {
                    assert(views_of(oldr).len() == oldr.len());
                }
                assert forall|w: int|
                    0 <= w < i implies views_of(r@)[w] == summaries_of(self@).subrange(
                    0,
                    i as int,
                )[w] by {
                    if w < i - 1 {
                        assert(views_of(oldr)[w] == summaries_of(self@).subrange(
                            0,
                            i as int - 1,
                        )[w]);
                        assert(r@[w] == oldr[w]);
                    } else {
                        assert(views_of(r@)[w] == svw);
                    }
                }
                assert(views_of(r@) =~= summaries_of(self@).subrange(0, i as int));
            }
        }
        proof {
            assert(summaries_of(self@).subrange(0, self.conversations@.len() as int)
                =~= summaries_of(self@));
        }
        r
    }

    /// The sink registered for a user, if any.
    pub fn find_sink(&self, user: &UserId) -> (r: Option<SinkId>)
        ensures
            r == assoc_find(self@.connections, user@),
    {
        match find_conn_idx(&self.connections, user) {
            Some(i) => {
                proof {
                    lemma_key_idx(conn_views(self.connections@), user@);
                }
                Some(self.connections[i].1)
            },
            None => None,
        }
    }

    /// Snapshot the sinks to write one broadcast to: every member of the
    /// conversation holding a live session, minus the optional excluded
    /// actor. Taken while the store is held; the writes happen after
    /// release, so a slow peer never stalls the store.
    pub fn broadcast_targets(&self, conversation_id: &ConversationId, skip: Option<&UserId>) -> (r:
        Vec<SinkId>)
        ensures
            r@ == target_sinks(self@, conversation_id@, skip_view(skip)),
    {
        let ghost sv = skip_view(skip);
        let mut r: Vec<SinkId> = Vec::new();
        let i = match find_conv_idx(&self.conversations, conversation_id) {
            None => {
                proof {
                    assert(r@ =~= target_sinks(self@, conversation_id@, sv));
                }
                return r;
            },
            Some(i) => i,
        };
        proof {
            lemma_key_idx(conv_views(self.conversations@), conversation_id@);
        }
        let ghost users = conv_views(self.conversations@)[i as int].1.users;
        let ghost conns = self@.connections;
        let mut m: usize = 0;
        let ucount = self.conversations[i].1.users.len();
        while m < ucount
            invariant
                m <= ucount,
                i < self.conversations@.len(),
                users == conv_views(self.conversations@)[i as int].1.users,
                conns == self@.connections,
                ucount == self.conversations@[i as int].1.users@.len(),
                sv == skip_view(skip),
                r@ == collect_recipients(users.subrange(0, m as int), conns, sv).map_values(
                    |p: (Seq<char>, u64)| p.1,
                ),
            decreases ucount - m,
        {
            let ghost prefix = users.subrange(0, m as int);
            let u = &self.conversations[i].1.users[m];
            let skipped = match skip {
                Some(su) => *su == *u,
                None => false,
            };
            if !skipped {
                match self.find_sink(u) {
                    Some(k) => {
                        r.push(k);
                    },
                    None => {},
                }
            }
            m = m + 1;
            proof {
                let prefix2 = users.subrange(0, m as int);
                assert(prefix2.drop_last() =~= prefix);
                assert(prefix2.last() == users[m as int - 1]);
                assert(r@ =~= collect_recipients(prefix2, conns, sv).map_values(
                    |p: (Seq<char>, u64)| p.1,
                ));
            }
        }
        proof {
            assert(users.subrange(0, ucount as int) =~= users);
        }
        r
    }

    /// Drop the session entry for a user, if one is present.
    pub fn remove_session(&mut self, user: &UserId)
        requires
            wf_store(old(self)@),
        ensures
            wf_store(final(self)@),
            final(self)@ == remove_session_effect(old(self)@, user@),
    {
        let mut kept: Vec<(UserId, SinkId)> = Vec::new();
        let mut i: usize = 0;
        while i < self.connections.len()
            invariant
                i <= self.connections@.len(),
                self.connections == old(self).connections,
                self.conversations == old(self).conversations,
                conn_views(kept@) == keep_conns(
                    conn_views(self.connections@).subrange(0, i as int),
                    user@,
                ),
            decreases self.connections@.len() - i,
        {
            let ghost prefix = conn_views(self.connections@).subrange(0, i as int);
            if !(self.connections[i].0 == *user) {
                let entry = (self.connections[i].0.clone(), self.connections[i].1);
                kept.push(entry);
            }
            i = i + 1;
            proof {
                let prefix2 = conn_views(self.connections@).subrange(0, i as int);
                assert(prefix2.drop_last() =~= prefix);
                assert(conn_views(kept@) =~= keep_conns(prefix2, user@));
            }
        }
        proof {
            assert(conn_views(self.connections@).subrange(
                0,
                self.connections@.len() as int,
            ) =~= conn_views(self.connections@));
        }
        self.connections = kept;
        proof {
            lemma_keep_conns_props(conn_views(old(self).connections@), user@);
            assert(self@ =~= remove_session_effect(old(self)@, user@));
        }
    }
}

/// Law: joining is idempotent. However many times the same user joins the
/// same conversation — concurrent calls are linearized by the store's lock
/// into some such sequence — the store ends as after one join: one
/// conversation record, one membership entry, never duplicates.
pub proof fn lemma_join_idempotent(s: StoreV, cid: Seq<char>, uid: Seq<char>)
    requires
        wf_store(s),
    ensures
        join_effect(join_effect(s, cid, uid), cid, uid) == join_effect(s, cid, uid),
{
    let s1 = join_effect(s, cid, uid);
    let j = key_idx(s.conversations, cid);
    lemma_key_idx(s.conversations, cid);
    if j == -1 {
        lemma_key_idx_of_first(s1.conversations, cid, s.conversations.len() as int);
        assert(seq![uid].contains(uid)) by {
            assert(seq![uid][0] == uid);
        }
        assert(join_effect(s1, cid, uid) =~= s1);
    } else if s.conversations[j].1.users.contains(uid) {
        assert(join_effect(s1, cid, uid) =~= s1);
    } else {
        lemma_key_idx_of_first(s1.conversations, cid, j);
        let nu = s.conversations[j].1.users.push(uid);
        assert(nu.contains(uid)) by {
            assert(nu[nu.len() - 1] == uid);
        }
        assert(join_effect(s1, cid, uid) =~= s1);
    }
}

/// Law: when the sole member leaves, the conversation is deleted — it is no
/// longer found, so no listing shows it — and a later join recreates it
/// fresh: one member, empty history.
pub proof fn lemma_last_leave_deletes(s: StoreV, cid: Seq<char>, uid: Seq<char>, uid2: Seq<char>)
    requires
        wf_store(s),
        key_idx(s.conversations, cid) != -1,
        s.conversations[key_idx(s.conversations, cid)].1.users == seq![uid],
    ensures
        key_idx(leave_effect(s, cid, uid).conversations, cid) == -1,
        assoc_find(leave_effect(s, cid, uid).conversations, cid) is None,
        assoc_find(join_effect(leave_effect(s, cid, uid), cid, uid2).conversations, cid) == Some(
            ConversationV { users: seq![uid2], messages: Seq::<MessageV>::empty() },
        ),
{
    let j = key_idx(s.conversations, cid);
    lemma_key_idx(s.conversations, cid);
    lemma_keep_members_props(s.conversations[j].1.users, uid);
    let s1 = leave_effect(s, cid, uid);
    assert(s1.conversations == s.conversations.remove(j));
    assert forall|m: int| 0 <= m < s1.conversations.len() implies (#[trigger] s1.conversations[m]).0
        != cid by {
        let m0: int = if m < j {
            m
        } else {
            m + 1
        };
        assert(s1.conversations[m] == s.conversations[m0]);
    }
    lemma_key_idx_of_first(s1.conversations, cid, s1.conversations.len() as int);
    let s2 = join_effect(s1, cid, uid2);
    lemma_key_idx_of_first(s2.conversations, cid, s1.conversations.len() as int);
    lemma_key_idx(s2.conversations, cid);
}

proof fn lemma_collect_sound(users: Seq<Seq<char>>, conns: Seq<(Seq<char>, u64)>, skip: Option<
    Seq<char>,
>)
    ensures
        forall|w: int|
            0 <= w < collect_recipients(users, conns, skip).len() ==> {
                let p = #[trigger] collect_recipients(users, conns, skip)[w];
                users.contains(p.0) && assoc_find(conns, p.0) == Some(p.1) && skip != Some(p.0)
            },
    decreases users.len(),
{
    if users.len() > 0 {
        lemma_collect_sound(users.drop_last(), conns, skip);
        let out = collect_recipients(users, conns, skip);
        let rest = collect_recipients(users.drop_last(), conns, skip);
        assert forall|w: int|
            0 <= w < out.len() implies {
                let p = #[trigger] out[w];
                users.contains(p.0) && assoc_find(conns, p.0) == Some(p.1) && skip != Some(p.0)
            } by {
            if w < rest.len() {
                assert(out[w] == rest[w]);
                let v = choose|v: int| 0 <= v < users.drop_last().len() && users.drop_last()[v]
                    == rest[w].0;
                assert(users[v] == rest[w].0);
            } else {
                assert(users[users.len() - 1] == out[w].0);
            }
        }
    }
}

proof fn lemma_collect_complete(
    users: Seq<Seq<char>>,
    conns: Seq<(Seq<char>, u64)>,
    skip: Option<Seq<char>>,
    m: Seq<char>,
    k: u64,
)
    requires
        users.contains(m),
        assoc_find(conns, m) == Some(k),
        skip != Some(m),
    ensures
        collect_recipients(users, conns, skip).contains((m, k)),
    decreases users.len(),
{
    let out = collect_recipients(users, conns, skip);
    let rest = collect_recipients(users.drop_last(), conns, skip);
    if users.last() == m {
        assert(out[out.len() - 1] == (m, k));
    } else {
        assert(users.drop_last().contains(m)) by {
            let v = choose|v: int| 0 <= v < users.len() && users[v] == m;
            assert(users.drop_last()[v] == m);
        }
        lemma_collect_complete(users.drop_last(), conns, skip, m, k);
        let v = choose|v: int| 0 <= v < rest.len() && rest[v] == (m, k);
        assert(out[v] == (m, k));
    }
}

/// Law, one half of the broadcast semantics: every recipient of a broadcast
/// is a member of the conversation with a live session, and never the
/// excluded actor. In particular a join or leave notice for a user, sent
/// with that user excluded, never reaches that user.
pub proof fn lemma_recipients_sound(
    s: StoreV,
    cid: Seq<char>,
    c: ConversationV,
    skip: Option<Seq<char>>,
)
    requires
        assoc_find(s.conversations, cid) == Some(c),
    ensures
        forall|w: int|
            0 <= w < recipients_of(s, cid, skip).len() ==> {
                let p = #[trigger] recipients_of(s, cid, skip)[w];
                c.users.contains(p.0) && assoc_find(s.connections, p.0) == Some(p.1) && skip
                    != Some(p.0)
            },
{
    lemma_collect_sound(c.users, s.connections, skip);
}

/// Law, the other half: every connected member that is not the excluded
/// actor receives the broadcast. With no exclusion that includes the
/// posting member itself — the poster sees its own message echoed back.
pub proof fn lemma_recipients_complete(
    s: StoreV,
    cid: Seq<char>,
    c: ConversationV,
    skip: Option<Seq<char>>,
    m: Seq<char>,
    k: u64,
)
    requires
        assoc_find(s.conversations, cid) == Some(c),
        c.users.contains(m),
        assoc_find(s.connections, m) == Some(k),
        skip != Some(m),
    ensures
        recipients_of(s, cid, skip).contains((m, k)),
        target_sinks(s, cid, skip).contains(k),
{
    lemma_collect_complete(c.users, s.connections, skip, m, k);
    let r = recipients_of(s, cid, skip);
    let v = choose|v: int| 0 <= v < r.len() && r[v] == (m, k);
    assert(target_sinks(s, cid, skip)[v] == k);
}

} // verus!

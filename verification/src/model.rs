//! Data model: chat messages and conversations.

use vstd::prelude::*;

verus! {

broadcast use vstd::std_specs::vec::group_vec_axioms;

/// A user identity, derived from the transport's peer address; opaque here.
pub type UserId = String;

/// A conversation identity, caller-supplied and case-sensitive; opaque here.
pub type ConversationId = String;

/// One chat message: who sent it and what it says. Immutable once appended.
#[derive(Debug, PartialEq)]
pub struct Message {
    pub sender: UserId,
    pub content: String,
}

/// Mathematical model of a `Message`.
#[verifier::ext_equal]
pub ghost struct MessageV {
    pub sender: Seq<char>,
    pub content: Seq<char>,
}

impl View for Message {
    type V = MessageV;

    open spec fn view(&self) -> MessageV {
        MessageV { sender: self.sender@, content: self.content@ }
    }
}

impl Clone for Message {
    fn clone(&self) -> (r: Message)
        ensures
            r == *self,
    {
        Message { sender: self.sender.clone(), content: self.content.clone() }
    }
}

/// The models of a sequence of messages.
pub open spec fn msg_views(v: Seq<Message>) -> Seq<MessageV> {
    v.map_values(|m: Message| m@)
}

/// The models of a sequence of user ids.
pub open spec fn user_views(v: Seq<String>) -> Seq<Seq<char>> {
    v.map_values(|u: String| u@)
}

/// A named room: its members and its append-only history.
#[derive(Debug, PartialEq)]
pub struct Conversation {
    pub users: Vec<UserId>,
    pub messages: Vec<Message>,
}

/// Mathematical model of a `Conversation`.
#[verifier::ext_equal]
pub ghost struct ConversationV {
    pub users: Seq<Seq<char>>,
    pub messages: Seq<MessageV>,
}

impl View for Conversation {
    type V = ConversationV;

    open spec fn view(&self) -> ConversationV {
        ConversationV { users: user_views(self.users@), messages: msg_views(self.messages@) }
    }
}

impl Message {
    /// Build a message.
    pub fn new(sender: String, content: String) -> (r: Self)
        ensures
            r.sender == sender,
            r.content == content,
    {
        Message { sender, content }
    }
}

impl Conversation {
    /// A fresh conversation: its first member, no history yet.
    pub fn new(first_user: UserId) -> (r: Self)
        ensures
            r@.users == seq![first_user@],
            r@.messages == Seq::<MessageV>::empty(),
    {
        let r = Conversation { users: vec![first_user], messages: Vec::new() };
        proof {
            assert(r@.users =~= seq![first_user@]);
            assert(r@.messages =~= Seq::<MessageV>::empty());
        }
        r
    }

    /// Append one message to the history. History only grows: nothing is
    /// deleted or reordered.
    pub fn add_message(&mut self, message: Message)
        ensures
            final(self)@.users == old(self)@.users,
            final(self)@.messages == old(self)@.messages.push(message@),
    {
        let ghost mv = message@;
        self.messages.push(message);
        proof {
            assert(self@.messages =~= old(self)@.messages.push(mv));
        }
    }
}

} // verus!

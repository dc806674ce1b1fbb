//! A single chat room: its subscribers, its sequence counter and its broadcast channel.
use vstd::prelude::*;

use dashmap::DashSet;
use tokio::sync::broadcast::{Receiver, Sender};

use crate::outside::{
    broadcast_new, broadcast_send, broadcast_subscribe, name_set, name_set_insert, name_set_len,
    name_set_new, name_set_remove,
};
use crate::wire::ServerMessage;

verus! {

/// How many unread messages each receiver keeps before it loses the oldest.
pub const SUBSCRIPT_SIZE: usize = 16;

/// Why a publish or a send was refused.
#[derive(Clone, Copy, Debug, PartialEq, Eq)]
pub enum HubError {
    /// The topic has no live receiver to hand the message to.
    NoSubscribers,
    /// No topic of that id is registered.
    TopicNotFound,
    /// The topic's sequence counter has reached its largest value.
    SequenceExhausted,
    /// The envelope carried no command.
    EmptyCommand,
}

/// `m` is the message that one publish stamped, taking topic `before` to `after`.
pub open spec fn stamped(before: Topic, after: Topic, m: ServerMessage) -> bool {
    &&& after.last_sequence() == before.last_sequence() + 1
    &&& m.sequence == after.last_sequence()
    &&& m.topic@ == before.topic_id()
    &&& after.topic_id() == before.topic_id()
}

/// A chat room.
pub struct Topic {
    pub id: String,
    pub subscribes: DashSet<String>,
    sequence: u64,
    input_stream: Sender<ServerMessage>,
}

/// Mathematical model of a topic as its registry sees it.
pub struct TopicState {
    pub subscribers: Set<Seq<char>>,
    pub sequence: nat,
}

impl Topic {
    /// The id of this topic.
    pub closed spec fn topic_id(&self) -> Seq<char> {
        self.id@
    }

    /// The names subscribed to this topic.
    pub closed spec fn subscribers(&self) -> Set<Seq<char>> {
        name_set(self.subscribes)
    }

    /// The sequence number of the last message published here (0 before any).
    pub closed spec fn last_sequence(&self) -> nat {
        self.sequence as nat
    }

    /// The counter is a `u64`.
    pub proof fn lemma_sequence_bound(&self)
        ensures
            self.last_sequence() <= u64::MAX,
    {
    }

    pub open spec fn state(&self) -> TopicState {
        TopicState { subscribers: self.subscribers(), sequence: self.last_sequence() }
    }

    pub open spec fn wf(&self) -> bool {
        self.subscribers().finite()
    }

    /// A topic with no subscriber and no message yet.
    pub fn new(id: String) -> (r: Topic)
        ensures
            r.wf(),
            r.topic_id() == id@,
            r.subscribers() == Set::<Seq<char>>::empty(),
            r.last_sequence() == 0,
    {
        let tx = broadcast_new(SUBSCRIPT_SIZE);
        Topic { id, sequence: 0, input_stream: tx, subscribes: name_set_new() }
    }

    /// Registers `user_name` and gives a receiver of the messages published from now on.
    pub fn subscribe(&mut self, user_name: String) -> (r: Receiver<ServerMessage>)
        requires
            old(self).wf(),
        ensures
            final(self).wf(),
            final(self).topic_id() == old(self).topic_id(),
            final(self).subscribers() == old(self).subscribers().insert(user_name@),
            final(self).last_sequence() == old(self).last_sequence(),
    {
        name_set_insert(&mut self.subscribes, user_name);
        broadcast_subscribe(&self.input_stream)
    }

    /// Removes `user_name`; gives the number of names left.
    pub fn unsubscribe(&mut self, user_name: String) -> (r: usize)
        requires
            old(self).wf(),
        ensures
            final(self).wf(),
            final(self).topic_id() == old(self).topic_id(),
            final(self).subscribers() == old(self).subscribers().remove(user_name@),
            final(self).last_sequence() == old(self).last_sequence(),
            r == final(self).subscribers().len(),
    {
        name_set_remove(&mut self.subscribes, user_name.as_str());
        name_set_len(&self.subscribes)
    }

    /// Takes the next sequence number and stamps `msg` with it and with this topic's id.
    pub fn next_message(&mut self, msg: String) -> (r: ServerMessage)
        requires
            old(self).last_sequence() < u64::MAX,
        ensures
            stamped(*old(self), *final(self), r),
            final(self).subscribers() == old(self).subscribers(),
            r.message == Some(msg),
    {
        self.sequence = self.sequence + 1;
        ServerMessage { sequence: self.sequence, topic: self.id.clone(), message: Some(msg) }
    }

    /// Publishes `msg` to every receiver under the next sequence number. The
    /// number is used up even when no receiver is there to take the message.
    pub fn publish(&mut self, msg: String) -> (r: Result<(), HubError>)
        ensures
            final(self).topic_id() == old(self).topic_id(),
            final(self).subscribers() == old(self).subscribers(),
            old(self).last_sequence() == u64::MAX ==> r == Err::<(), HubError>(
                HubError::SequenceExhausted) && final(self).last_sequence() == old(
                self).last_sequence(),
            old(self).last_sequence() < u64::MAX ==> final(self).last_sequence() == old(
                self).last_sequence() + 1 && (r is Ok || r == Err::<(), HubError>(
                HubError::NoSubscribers)),
    {
        if self.sequence == u64::MAX {
            return Err(HubError::SequenceExhausted);
        }
        let m = self.next_message(msg);
        match broadcast_send(&self.input_stream, m) {
            Some(_) => Ok(()),
            None => Err(HubError::NoSubscribers),
        }
    }
}

proof fn lemma_stamped_from_start(topics: Seq<Topic>, msgs: Seq<ServerMessage>, i: int)
    requires
        topics.len() == msgs.len() + 1,
        forall|j: int| 0 <= j < msgs.len() ==> stamped(topics[j], topics[j + 1], #[trigger] msgs[j]),
        0 <= i < msgs.len(),
    ensures
        msgs[i].sequence == topics[0].last_sequence() + i + 1,
    decreases i,
{
    if i > 0 {
        lemma_stamped_from_start(topics, msgs, i - 1);
    }
}

/// Within one topic, the messages of successive publishes carry sequence
/// numbers that rise by one each time. So what a subscriber receives of them,
/// in order and with gaps where it lagged behind, has strictly increasing
/// sequence numbers and never the same one twice.
pub proof fn law_delivered_sequences_increase(
    topics: Seq<Topic>,
    msgs: Seq<ServerMessage>,
    delivered: Seq<int>,
)
    requires
        topics.len() == msgs.len() + 1,
        forall|j: int| 0 <= j < msgs.len() ==> stamped(topics[j], topics[j + 1], #[trigger] msgs[j]),
        forall|a: int| 0 <= a < delivered.len() ==> 0 <= #[trigger] delivered[a] < msgs.len(),
        forall|a: int, b: int| 0 <= a < b < delivered.len() ==> delivered[a] < delivered[b],
    ensures
        forall|a: int, b: int| 0 <= a < b < delivered.len() ==> msgs[delivered[a]].sequence
            < msgs[delivered[b]].sequence,
        forall|j: int| 0 <= j < msgs.len() ==> #[trigger] msgs[j].topic@ == topics[0].topic_id(),
{
    assert forall|a: int, b: int| 0 <= a < b < delivered.len() implies msgs[delivered[a]].sequence
        < msgs[delivered[b]].sequence by {
        lemma_stamped_from_start(topics, msgs, delivered[a]);
        lemma_stamped_from_start(topics, msgs, delivered[b]);
    }
    assert forall|j: int| 0 <= j < msgs.len() implies #[trigger] msgs[j].topic@ == topics[0].topic_id() by {
        lemma_same_topic(topics, msgs, j);
    }
}

proof fn lemma_same_topic(topics: Seq<Topic>, msgs: Seq<ServerMessage>, i: int)
    requires
        topics.len() == msgs.len() + 1,
        forall|j: int| 0 <= j < msgs.len() ==> stamped(topics[j], topics[j + 1], #[trigger] msgs[j]),
        0 <= i < msgs.len(),
    ensures
        msgs[i].topic@ == topics[0].topic_id(),
        topics[i].topic_id() == topics[0].topic_id(),
    decreases i,
{
    if i > 0 {
        lemma_same_topic(topics, msgs, i - 1);
    }
}

} // verus!

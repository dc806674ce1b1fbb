//! The per-connection state machine: login, joining and leaving topics, and
//! relaying publish requests. The connection's runtime spawns and runs the
//! forwarder tasks; a session records them and cancels them when it leaves.
use vstd::prelude::*;

use tokio::sync::broadcast::Receiver;
use tokio::task::JoinHandle;

use crate::client_message::{Command, Message};
use crate::hub::{left_all, send_outcome, sent, subscribed, unsubscribed, TopicStore};
use crate::outside::{
    abort_task, forwarder_table, forwarder_table_contains, forwarder_table_insert,
    forwarder_table_keys, forwarder_table_new, forwarder_table_remove, ForwarderTable,
};
use crate::topic::HubError;
use crate::topic::TopicState;
use crate::wire::{ClientEnvelope, ClientMessage, ServerMessage};

verus! {

/// What the connection's runtime has to do after a command was handled.
pub enum Step {
    /// Nothing more.
    Done,
    /// Spawn a task that relays what the receiver yields to the client, and
    /// record it with `Session::spawn` under the topic id.
    Forward(String, Receiver<ServerMessage>),
}

/// What handling command envelope `msg` does: `before` and `t0` are the
/// session and the topic registry before, `after` and `t1` after, `r` the result.
pub open spec fn handled(
    before: Session,
    after: Session,
    msg: ClientEnvelope,
    t0: Map<Seq<char>, TopicState>,
    t1: Map<Seq<char>, TopicState>,
    r: Result<Step, HubError>,
) -> bool {
    &&& after.session_id() == before.session_id()
    &&& match msg.command {
        None => r == Err::<Step, HubError>(HubError::EmptyCommand) && after == before && t1 == t0,
        Some(Command::Login(n)) => {
            &&& r is Ok && r->Ok_0 is Done
            &&& after.name() == n && after.joined() == before.joined()
            &&& t1 == t0
        },
        Some(Command::LeaveRoom) | Some(Command::LeaveUser) => {
            &&& r is Ok && r->Ok_0 is Done
            &&& after.name() == before.name()
            &&& after.joined() == before.joined().remove(msg.topic)
            &&& t1 == if before.joined().contains(msg.topic) {
                unsubscribed(t0, before.name(), msg.topic)
            } else {
                t0
            }
        },
        Some(Command::SendMessage(_)) => {
            &&& after.name() == before.name() && after.joined() == before.joined()
            &&& if before.joined().contains(msg.topic) {
                &&& t1 == sent(t0, msg.topic)
                &&& match r {
                    Ok(s) => s is Done && send_outcome(t0, msg.topic, Ok(())),
                    Err(e) => send_outcome(t0, msg.topic, Err(e)),
                }
            } else {
                r is Ok && r->Ok_0 is Done && t1 == t0
            }
        },
        Some(_) => {
            &&& after.name() == before.name() && after.joined() == before.joined()
            &&& if before.joined().contains(msg.topic) {
                r is Ok && r->Ok_0 is Done && t1 == t0
            } else {
                &&& r is Ok && r->Ok_0 is Forward && r->Ok_0->Forward_0@ == msg.topic
                &&& t1 == subscribed(t0, before.name(), msg.topic)
            }
        },
    }
}

/// One connection's state.
pub struct Session {
    pub id: String,
    pub user_name: String,
    subscriptions: ForwarderTable,
}

impl Session {
    pub closed spec fn session_id(&self) -> Seq<char> {
        self.id@
    }

    /// A copy of this session's id.
    pub fn id_string(&self) -> (r: String)
        ensures
            r@ == self.session_id(),
    {
        self.id.clone()
    }

    /// The name given by the last login ("" before any).
    pub closed spec fn name(&self) -> Seq<char> {
        self.user_name@
    }

    /// The topics that this session has a forwarder for.
    pub closed spec fn joined(&self) -> Set<Seq<char>> {
        forwarder_table(self.subscriptions).dom()
    }

    /// A session with no name and no topic.
    pub fn new(id: String) -> (r: Session)
        ensures
            r.session_id() == id@,
            r.name() == Seq::<char>::empty(),
            r.joined() == Set::<Seq<char>>::empty(),
    {
        Session { id, user_name: String::new(), subscriptions: forwarder_table_new() }
    }

    /// Whether this session has joined topic `topic`.
    pub fn is_subscribed(&self, topic: &str) -> (r: bool)
        ensures
            r == self.joined().contains(topic@),
    {
        forwarder_table_contains(&self.subscriptions, topic)
    }

    /// Records the forwarder task of topic `topic`; one recorded before for it is cancelled.
    pub fn spawn(&mut self, topic: &str, handle: JoinHandle<()>)
        ensures
            final(self).session_id() == old(self).session_id(),
            final(self).name() == old(self).name(),
            final(self).joined() == old(self).joined().insert(topic@),
    {
        if let Some(prev) = forwarder_table_remove(&mut self.subscriptions, topic) {
            abort_task(&prev);
        }
        forwarder_table_insert(&mut self.subscriptions, String::from_str(topic), handle);
        assert(self.joined() =~= old(self).joined().insert(topic@));
    }

    /// Handles one command of the client.
    ///
    /// `Login` renames the session. A join of a topic not joined yet subscribes
    /// to it and asks for a forwarder; a leave of a joined topic cancels its
    /// forwarder and unsubscribes. `SendMessage` publishes on a joined topic and
    /// is dropped otherwise. An envelope without a command is refused.
    pub fn handle(&mut self, msg: ClientMessage, topics: &mut TopicStore) -> (r: Result<Step, HubError>)
        requires
            old(topics).wf(),
        ensures
            final(topics).wf(),
            handled(*old(self), *final(self), msg@, old(topics)@, final(topics)@, r),
    {
        let ClientMessage { topic, message } = msg;
        match message {
            None => Err(HubError::EmptyCommand),
            Some(Message::Login(data)) => {
                self.user_name = data.name;
                Ok(Step::Done)
            },
            Some(Message::JoinRoom(_)) | Some(Message::JoinUser(_)) | Some(
                Message::CreateRoom(_),
            ) => {
                if self.is_subscribed(topic.as_str()) {
                    Ok(Step::Done)
                } else {
                    let receiver = topics.subscribe(self.user_name.clone(), topic.as_str());
                    Ok(Step::Forward(topic, receiver))
                }
            },
            Some(Message::LeaveRoom(_)) | Some(Message::LeaveUser(_)) => {
                if let Some(sub) = forwarder_table_remove(&mut self.subscriptions, topic.as_str()) {
                    abort_task(&sub);
                    topics.unsubscribe(self.user_name.clone(), topic.as_str());
                } else {
                    assert(self.joined() =~= old(self).joined().remove(topic@));
                }
                Ok(Step::Done)
            },
            Some(Message::SendMessage(data)) => {
                if self.is_subscribed(topic.as_str()) {
                    match topics.send_message(topic.as_str(), data) {
                        Ok(()) => Ok(Step::Done),
                        Err(e) => Err(e),
                    }
                } else {
                    Ok(Step::Done)
                }
            },
        }
    }

    /// Ends the session: cancels every forwarder and leaves every joined topic.
    pub fn close(self, topics: &mut TopicStore)
        requires
            old(topics).wf(),
        ensures
            final(topics).wf(),
            final(topics)@ == left_all(old(topics)@, self.name(), self.joined()),
    {
        let mut this = self;
        let keys = forwarder_table_keys(&this.subscriptions);
        let ghost name = self.name();
        let ghost joined0 = self.joined();
        let ghost start = topics@;
        let ghost ks = keys@.map_values(|k: String| k@);
        let mut i: usize = 0;
        proof {
            assert(ks.take(0).to_set() =~= Set::<Seq<char>>::empty());
            assert(left_all(start, name, Set::<Seq<char>>::empty()) =~= start);
        }
        while i < keys.len()
            invariant
                i <= keys@.len(),
                ks == keys@.map_values(|k: String| k@),
                name == this.name(),
                topics.wf(),
                topics@ == left_all(start, name, ks.take(i as int).to_set()),
                forall|a: int, b: int| 0 <= a < b < keys@.len() ==> keys@[a]@ != keys@[b]@,
            decreases keys.len() - i,
        {
            let ghost done = ks.take(i as int).to_set();
            let ghost k = ks[i as int];
            let key = &keys[i];
            if let Some(h) = forwarder_table_remove(&mut this.subscriptions, key.as_str()) {
                abort_task(&h);
            }
            topics.unsubscribe(this.user_name.clone(), key.as_str());
            proof {
                assert(!done.contains(k)) by {
                    if done.contains(k) {
                        assert(ks.take(i as int).contains(k));
                        let j = choose|j: int| 0 <= j < i && #[trigger] ks.take(i as int)[j] == k;
                        assert(keys@[j]@ == k);
                    }
                }
                assert(ks.take(i + 1).to_set() =~= done.insert(k)) by {
                    assert(ks.take(i + 1) =~= ks.take(i as int).push(k));
                    ks.take(i as int).lemma_push_to_set_commute(k);
                }
                assert(unsubscribed(left_all(start, name, done), name, k) =~= left_all(start, name, done.insert(k)));
            }
            i = i + 1;
        }
        proof {
            assert(ks.take(ks.len() as int) =~= ks);
            assert(ks.to_set() =~= joined0) by {
                assert forall|k: Seq<char>| joined0.contains(k) implies ks.to_set().contains(k) by {
                    let j = choose|j: int| 0 <= j < keys@.len() && keys@[j]@ == k;
                    assert(ks[j] == k);
                }
            }
        }
    }
}

/// After a session leaves a topic, a `SendMessage` that it addresses to that
/// topic is dropped: it succeeds with nothing to do and leaves every topic,
/// the topic's sequence number included, as it was.
pub proof fn law_send_after_leave_is_dropped(
    s0: Session,
    s1: Session,
    s2: Session,
    leave: ClientEnvelope,
    send: ClientEnvelope,
    t0: Map<Seq<char>, TopicState>,
    t1: Map<Seq<char>, TopicState>,
    t2: Map<Seq<char>, TopicState>,
    r1: Result<Step, HubError>,
    r2: Result<Step, HubError>,
)
    requires
        leave.command == Some(Command::LeaveRoom) || leave.command == Some(Command::LeaveUser),
        send.command is Some && send.command->Some_0 is SendMessage,
        send.topic == leave.topic,
        handled(s0, s1, leave, t0, t1, r1),
        handled(s1, s2, send, t1, t2, r2),
    ensures
        !s1.joined().contains(leave.topic),
        r2 is Ok && r2->Ok_0 is Done,
        t2 == t1,
{
}

} // verus!

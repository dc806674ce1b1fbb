//! The registries shared by all connections: topics by id and sessions by id.
use vstd::prelude::*;

use tokio::sync::broadcast::Receiver;
use tokio::task::JoinHandle;

use crate::outside::{
    session_table, session_table_contains, session_table_insert, session_table_new,
    session_table_remove, topic_table, topic_table_contains, topic_table_insert, topic_table_new,
    topic_table_remove, SessionTable, TopicTable,
};
use crate::outside::abort_task;
use crate::session::{handled, Session, Step};
use crate::topic::{HubError, Topic, TopicState};
use crate::wire::{ClientMessage, ServerMessage};

verus! {

/// `m` after `name` subscribed to topic `id`: a topic that is absent is created first.
pub open spec fn subscribed(m: Map<Seq<char>, TopicState>, name: Seq<char>, id: Seq<char>) -> Map<Seq<char>, TopicState> {
    if m.contains_key(id) {
        m.insert(id, TopicState { subscribers: m[id].subscribers.insert(name), sequence: m[id].sequence })
    } else {
        m.insert(id, TopicState { subscribers: Set::empty().insert(name), sequence: 0 })
    }
}

/// `m` after `name` left topic `id`: a topic left without subscribers is removed.
pub open spec fn unsubscribed(m: Map<Seq<char>, TopicState>, name: Seq<char>, id: Seq<char>) -> Map<Seq<char>, TopicState> {
    if !m.contains_key(id) {
        m
    } else if m[id].subscribers.remove(name).len() == 0 {
        m.remove(id)
    } else {
        m.insert(id, TopicState { subscribers: m[id].subscribers.remove(name), sequence: m[id].sequence })
    }
}

/// `m` after a message was sent to topic `id`: its sequence number moves on by one
/// when the topic is there and its counter is not exhausted.
pub open spec fn sent(m: Map<Seq<char>, TopicState>, id: Seq<char>) -> Map<Seq<char>, TopicState> {
    if m.contains_key(id) && m[id].sequence < u64::MAX {
        m.insert(id, TopicState { subscribers: m[id].subscribers, sequence: m[id].sequence + 1 })
    } else {
        m
    }
}

/// The outcomes that a send to topic `id` of `m` may have.
pub open spec fn send_outcome(m: Map<Seq<char>, TopicState>, id: Seq<char>, r: Result<(), HubError>) -> bool {
    if !m.contains_key(id) {
        r == Err::<(), HubError>(HubError::TopicNotFound)
    } else if m[id].sequence == u64::MAX {
        r == Err::<(), HubError>(HubError::SequenceExhausted)
    } else {
        r is Ok || r == Err::<(), HubError>(HubError::NoSubscribers)
    }
}

/// `m` after `name` left every topic of `ids`.
pub open spec fn left_all(m: Map<Seq<char>, TopicState>, name: Seq<char>, ids: Set<Seq<char>>) -> Map<Seq<char>, TopicState> {
    Map::new(
        |k: Seq<char>| m.contains_key(k) && !(ids.contains(k) && m[k].subscribers.remove(name).len() == 0),
        |k: Seq<char>| if ids.contains(k) {
            TopicState { subscribers: m[k].subscribers.remove(name), sequence: m[k].sequence }
        } else {
            m[k]
        },
    )
}

/// Every topic that is registered, by id.
pub struct TopicStore(TopicTable);

impl View for TopicStore {
    type V = Map<Seq<char>, TopicState>;

    closed spec fn view(&self) -> Map<Seq<char>, TopicState> {
        topic_table(self.0).map_values(|t: Topic| t.state())
    }
}

impl TopicStore {
    /// Each entry is a well-formed topic under its own id, with at least one subscriber.
    pub closed spec fn wf(&self) -> bool {
        forall|k: Seq<char>| #[trigger] topic_table(self.0).contains_key(k) ==> {
            let t = topic_table(self.0)[k];
            t.wf() && t.topic_id() == k && t.subscribers().len() > 0
        }
    }

    /// A topic is registered only while someone is subscribed to it: every
    /// topic of a well-formed store has a finite, non-empty subscriber set.
    pub proof fn lemma_registered_topics_have_subscribers(&self)
        requires
            self.wf(),
        ensures
            forall|k: Seq<char>| #[trigger] self@.contains_key(k) ==> self@[k].subscribers.finite()
                && self@[k].subscribers.len() > 0,
    {
    }

    /// An empty store.
    pub fn new() -> (r: TopicStore)
        ensures
            r.wf(),
            r@ == Map::<Seq<char>, TopicState>::empty(),
    {
        let r = TopicStore(topic_table_new());
        assert(r@ =~= Map::<Seq<char>, TopicState>::empty());
        r
    }

    /// Whether a topic of that id is registered.
    pub fn contains(&self, topic_id: &str) -> (r: bool)
        ensures
            r == self@.contains_key(topic_id@),
    {
        topic_table_contains(&self.0, topic_id)
    }

    /// Subscribes `user_name` to topic `topic_id`, creating the topic if it is
    /// absent; gives a receiver of the messages published on it from now on.
    pub fn subscribe(&mut self, user_name: String, topic_id: &str) -> (r: Receiver<ServerMessage>)
        requires
            old(self).wf(),
        ensures
            final(self).wf(),
            final(self)@ == subscribed(old(self)@, user_name@, topic_id@),
    {
        let ghost name = user_name@;
        let mut topic = match topic_table_remove(&mut self.0, topic_id) {
            Some(t) => t,
            None => Topic::new(String::from_str(topic_id)),
        };
        let res = topic.subscribe(user_name);
        topic_table_insert(&mut self.0, String::from_str(topic_id), topic);
        assert(self@ =~= subscribed(old(self)@, name, topic_id@));
        res
    }

    /// Takes `user_name` out of topic `topic_id`; removes the topic when no
    /// subscriber is left. Does nothing when the topic is absent.
    pub fn unsubscribe(&mut self, user_name: String, topic_id: &str)
        requires
            old(self).wf(),
        ensures
            final(self).wf(),
            final(self)@ == unsubscribed(old(self)@, user_name@, topic_id@),
    {
        let ghost name = user_name@;
        match topic_table_remove(&mut self.0, topic_id) {
            None => {
                assert(topic_table(self.0) =~= topic_table(old(self).0));
            },
            Some(mut topic) => {
                let n = topic.unsubscribe(user_name);
                if n > 0 {
                    topic_table_insert(&mut self.0, String::from_str(topic_id), topic);
                }
            },
        }
        assert(self@ =~= unsubscribed(old(self)@, name, topic_id@));
    }

    /// Publishes `message` on topic `topic_id`.
    pub fn send_message(&mut self, topic_id: &str, message: String) -> (r: Result<(), HubError>)
        requires
            old(self).wf(),
        ensures
            final(self).wf(),
            final(self)@ == sent(old(self)@, topic_id@),
            send_outcome(old(self)@, topic_id@, r),
    {
        match topic_table_remove(&mut self.0, topic_id) {
            None => {
                assert(topic_table(self.0) =~= topic_table(old(self).0));
                Err(HubError::TopicNotFound)
            },
            Some(mut topic) => {
                let ghost t0 = topic;
                proof {
                    t0.lemma_sequence_bound();
                }
                assert(old(self)@[topic_id@] == t0.state());
                let r = topic.publish(message);
                let ghost t1 = topic;
                proof {
                if t0.last_sequence() < u64::MAX {
                    assert(t1.state() == (TopicState {
                        subscribers: t0.subscribers(),
                        sequence: t0.last_sequence() + 1,
                    }));
                } else {
                    assert(t1.state() == t0.state());
                }
                }
                topic_table_insert(&mut self.0, String::from_str(topic_id), topic);
                assert(topic_table(old(self).0).remove(topic_id@).insert(topic_id@, topic)
                    =~= topic_table(old(self).0).insert(topic_id@, topic));
                assert(self@ =~= sent(old(self)@, topic_id@));
                r
            },
        }
    }
}

/// What disconnecting session `id` does: `s0` and `t0` are the session and
/// topic registries before, `s1` and `t1` after, `r` whether a session was removed.
pub open spec fn disconnected(
    s0: Map<Seq<char>, Session>,
    t0: Map<Seq<char>, TopicState>,
    id: Seq<char>,
    r: bool,
    s1: Map<Seq<char>, Session>,
    t1: Map<Seq<char>, TopicState>,
) -> bool {
    &&& r == s0.contains_key(id)
    &&& s1 == s0.remove(id)
    &&& t1 == if r { left_all(t0, s0[id].name(), s0[id].joined()) } else { t0 }
}

/// Every live session, by id.
pub struct SessionStore {
    sessions: SessionTable,
}

impl View for SessionStore {
    type V = Map<Seq<char>, Session>;

    closed spec fn view(&self) -> Map<Seq<char>, Session> {
        session_table(self.sessions)
    }
}

impl SessionStore {
    /// Each session is stored under its own id.
    pub open spec fn wf(&self) -> bool {
        forall|k: Seq<char>| #[trigger] self@.contains_key(k) ==> self@[k].session_id() == k
    }

    /// An empty store.
    pub fn new() -> (r: Self)
        ensures
            r.wf(),
            r@ == Map::<Seq<char>, Session>::empty(),
    {
        let r = SessionStore { sessions: session_table_new() };
        assert(r@ =~= Map::<Seq<char>, Session>::empty());
        r
    }

    /// Whether a session of that id is registered.
    pub fn contains(&self, sess_id: &str) -> (r: bool)
        ensures
            r == self@.contains_key(sess_id@),
    {
        session_table_contains(&self.sessions, sess_id)
    }

    /// Registers `sess` under its id, unless a session of that id is there already.
    pub fn add(&mut self, sess: Session)
        requires
            old(self).wf(),
        ensures
            final(self).wf(),
            final(self)@ == if old(self)@.contains_key(sess.session_id()) {
                old(self)@
            } else {
                old(self)@.insert(sess.session_id(), sess)
            },
    {
        let key = sess.id_string();
        if !session_table_contains(&self.sessions, key.as_str()) {
            session_table_insert(&mut self.sessions, key, sess);
        }
        assert forall|k: Seq<char>| #[trigger] self@.contains_key(k) implies self@[k].session_id() == k by {
            if k != sess.session_id() {
                assert(old(self)@.contains_key(k));
            }
        }
    }

    /// Takes the session of that id out of the store, with its key.
    pub fn remove(&mut self, sess_id: String) -> (r: Option<(String, Session)>)
        requires
            old(self).wf(),
        ensures
            final(self).wf(),
            final(self)@ == old(self)@.remove(sess_id@),
            match r {
                Some((k, s)) => old(self)@.contains_key(sess_id@) && k@ == sess_id@ && s == old(
                    self)@[sess_id@],
                None => !old(self)@.contains_key(sess_id@),
            },
    {
        let r = session_table_remove(&mut self.sessions, sess_id.as_str());
        assert forall|k: Seq<char>| #[trigger] self@.contains_key(k) implies self@[k].session_id() == k by {
            assert(old(self)@.contains_key(k));
        }
        r
    }

    /// Hands command envelope `msg` to the session of that id; `None` when
    /// there is no such session.
    pub fn dispatch(&mut self, sess_id: &str, msg: ClientMessage, topics: &mut TopicStore) -> (r: Option<Result<Step, HubError>>)
        requires
            old(self).wf(),
            old(topics).wf(),
        ensures
            final(self).wf(),
            final(topics).wf(),
            final(self)@.dom() == old(self)@.dom(),
            forall|k: Seq<char>| k != sess_id@ && #[trigger] old(self)@.contains_key(k) ==> final(
                self)@[k] == old(self)@[k],
            match r {
                None => !old(self)@.contains_key(sess_id@) && final(self)@ == old(self)@ && final(
                    topics)@ == old(topics)@,
                Some(x) => old(self)@.contains_key(sess_id@) && handled(
                    old(self)@[sess_id@],
                    final(self)@[sess_id@],
                    msg@,
                    old(topics)@,
                    final(topics)@,
                    x,
                ),
            },
    {
        let ghost msg_view = msg@;
        match session_table_remove(&mut self.sessions, sess_id) {
            None => {
                assert(self@ =~= old(self)@);
                None
            },
            Some((key, mut sess)) => {
                let r = sess.handle(msg, topics);
                session_table_insert(&mut self.sessions, key, sess);
                assert(self@.dom() =~= old(self)@.dom());
                Some(r)
            },
        }
    }

    /// Records the forwarder task of topic `topic` in the session of that id;
    /// when the session is gone the task is cancelled instead. Gives whether it
    /// was recorded.
    pub fn spawn(&mut self, sess_id: &str, topic: &str, handle: JoinHandle<()>) -> (r: bool)
        requires
            old(self).wf(),
        ensures
            final(self).wf(),
            r == old(self)@.contains_key(sess_id@),
            final(self)@.dom() == old(self)@.dom(),
            forall|k: Seq<char>| k != sess_id@ && #[trigger] old(self)@.contains_key(k) ==> final(
                self)@[k] == old(self)@[k],
            r ==> final(self)@[sess_id@].name() == old(self)@[sess_id@].name() && final(
                self)@[sess_id@].joined() == old(self)@[sess_id@].joined().insert(topic@),
    {
        match session_table_remove(&mut self.sessions, sess_id) {
            None => {
                abort_task(&handle);
                assert(self@ =~= old(self)@);
                false
            },
            Some((key, mut sess)) => {
                sess.spawn(topic, handle);
                session_table_insert(&mut self.sessions, key, sess);
                assert(self@.dom() =~= old(self)@.dom());
                true
            },
        }
    }

    /// Ends the session of that id: removes it from the store, cancels its
    /// forwarders and takes its name out of every topic it joined. Gives whether
    /// there was such a session; a second call for the same id does nothing.
    pub fn disconnect(&mut self, sess_id: &str, topics: &mut TopicStore) -> (r: bool)
        requires
            old(self).wf(),
            old(topics).wf(),
        ensures
            final(self).wf(),
            final(topics).wf(),
            disconnected(old(self)@, old(topics)@, sess_id@, r, final(self)@, final(topics)@),
    {
        match session_table_remove(&mut self.sessions, sess_id) {
            None => {
                assert(self@ =~= old(self)@.remove(sess_id@));
                false
            },
            Some((_, sess)) => {
                sess.close(topics);
                assert forall|k: Seq<char>| #[trigger] self@.contains_key(k) implies self@[k].session_id() == k by {
                    assert(old(self)@.contains_key(k));
                }
                true
            },
        }
    }
}

/// A session that is disconnected is cleaned up once: a second disconnect of
/// the same id changes nothing, and after the first every topic that the
/// session had joined holds one subscriber less (the session's name), or is
/// gone when that name was its last.
pub proof fn law_disconnect_once(
    s0: Map<Seq<char>, Session>,
    t0: Map<Seq<char>, TopicState>,
    id: Seq<char>,
    r1: bool,
    s1: Map<Seq<char>, Session>,
    t1: Map<Seq<char>, TopicState>,
    r2: bool,
    s2: Map<Seq<char>, Session>,
    t2: Map<Seq<char>, TopicState>,
)
    requires
        forall|k: Seq<char>| #[trigger] t0.contains_key(k) ==> t0[k].subscribers.finite(),
        disconnected(s0, t0, id, r1, s1, t1),
        disconnected(s1, t1, id, r2, s2, t2),
    ensures
        r1 == s0.contains_key(id),
        !s1.contains_key(id),
        !r2 && s2 == s1 && t2 == t1,
        r1 ==> forall|k: Seq<char>| #[trigger] s0[id].joined().contains(k) && t0.contains_key(k)
            && t0[k].subscribers.contains(s0[id].name()) ==> if t1.contains_key(k) {
            t1[k].subscribers.len() + 1 == t0[k].subscribers.len()
        } else {
            t0[k].subscribers.len() == 1
        },
{
    assert(s2 =~= s1);
    if r1 {
        let name = s0[id].name();
        assert forall|k: Seq<char>| #[trigger] s0[id].joined().contains(k) && t0.contains_key(k)
            && t0[k].subscribers.contains(name) implies if t1.contains_key(k) {
            t1[k].subscribers.len() + 1 == t0[k].subscribers.len()
        } else {
            t0[k].subscribers.len() == 1
        } by {
            assert(t0[k].subscribers.remove(name).len() + 1 == t0[k].subscribers.len());
        }
    }
}

} // verus!

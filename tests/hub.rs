use chat_hub::client_message::{JoinRoom, LeaveRoom, Login, Message};
use chat_hub::{ClientMessage, HubError, ServerMessage, Session, SessionStore, Step, Topic, TopicStore};
use tokio::sync::broadcast::error::TryRecvError;

fn runtime() -> tokio::runtime::Runtime {
    tokio::runtime::Builder::new_current_thread().build().unwrap()
}

fn cmd(topic: &str, message: Message) -> ClientMessage {
    ClientMessage { topic: topic.into(), message: Some(message) }
}

#[test]
fn topic_store_subscribe() {
    let mut store = TopicStore::new();
    let topic_id = "topic_id";
    let user_name = "user_name";
    let mut res = store.subscribe(user_name.into(), topic_id);
    store.send_message(topic_id, "xxx".to_string()).unwrap();
    let result = res.try_recv().unwrap();
    assert_eq!(
        result,
        ServerMessage { sequence: 1, topic: "topic_id".to_string(), message: Some("xxx".to_string()) }
    );
}

#[test]
fn topics_drop() {
    let mut store = TopicStore::new();
    let topic_id = "topic_id";
    let user_name = "user_name";
    store.subscribe(user_name.into(), topic_id);
    store.unsubscribe(user_name.into(), topic_id);
    assert!(!store.contains(topic_id));
}

#[test]
fn second_publish_has_sequence_two() {
    let mut store = TopicStore::new();
    let mut rx = store.subscribe("u".into(), "t");
    store.send_message("t", "one".into()).unwrap();
    store.send_message("t", "two".into()).unwrap();
    assert_eq!(rx.try_recv().unwrap().sequence, 1);
    let second = rx.try_recv().unwrap();
    assert_eq!(second.sequence, 2);
    assert_eq!(second.message, Some("two".to_string()));
}

#[test]
fn send_after_last_unsubscribe_is_topic_not_found() {
    let mut store = TopicStore::new();
    let _rx = store.subscribe("user_name".into(), "topic_id");
    store.unsubscribe("user_name".into(), "topic_id");
    assert_eq!(store.send_message("topic_id", "x".into()), Err(HubError::TopicNotFound));
}

#[test]
fn send_to_unknown_topic_is_topic_not_found() {
    let mut store = TopicStore::new();
    assert_eq!(store.send_message("nowhere", "x".into()), Err(HubError::TopicNotFound));
}

#[test]
fn send_without_live_receiver_is_no_subscribers_and_uses_a_number() {
    let mut store = TopicStore::new();
    let rx = store.subscribe("u".into(), "t");
    drop(rx);
    assert_eq!(store.send_message("t", "lost".into()), Err(HubError::NoSubscribers));
    let mut rx = store.subscribe("v".into(), "t");
    store.send_message("t", "kept".into()).unwrap();
    assert_eq!(rx.try_recv().unwrap().sequence, 2);
}

#[test]
fn topic_stays_while_a_subscriber_is_left() {
    let mut store = TopicStore::new();
    let _a = store.subscribe("a".into(), "t");
    let _b = store.subscribe("b".into(), "t");
    store.unsubscribe("a".into(), "t");
    assert!(store.contains("t"));
    store.unsubscribe("b".into(), "t");
    assert!(!store.contains("t"));
}

#[test]
fn topic_subscribe_is_idempotent_on_names() {
    let mut topic = Topic::new("t".into());
    let _a = topic.subscribe("a".into());
    let _b = topic.subscribe("a".into());
    assert_eq!(topic.unsubscribe("a".into()), 0);
}

#[test]
fn topic_next_message_stamps_in_order() {
    let mut topic = Topic::new("room".into());
    let m1 = topic.next_message("x".into());
    let m2 = topic.next_message("y".into());
    assert_eq!(m1, ServerMessage { topic: "room".into(), sequence: 1, message: Some("x".into()) });
    assert_eq!(m2.sequence, 2);
}

#[test]
fn lagging_receiver_sees_increasing_sequences() {
    let mut store = TopicStore::new();
    let mut rx = store.subscribe("u".into(), "t");
    for i in 0..40 {
        store.send_message("t", format!("m{}", i)).unwrap();
    }
    let mut last = 0u64;
    let mut lagged = false;
    loop {
        match rx.try_recv() {
            Ok(m) => {
                assert!(m.sequence > last);
                last = m.sequence;
            }
            Err(TryRecvError::Lagged(_)) => lagged = true,
            Err(_) => break,
        }
    }
    assert!(lagged);
    assert_eq!(last, 40);
}

#[test]
fn session_join_then_leave_stops_publishing() {
    let rt = runtime();
    let mut topics = TopicStore::new();
    let mut s1 = Session::new("s1".into());
    let mut s2 = Session::new("s2".into());
    s1.handle(cmd("", Message::Login(Login { name: "one".into() })), &mut topics).unwrap();
    s2.handle(cmd("", Message::Login(Login { name: "two".into() })), &mut topics).unwrap();
    let rx1 = match s1.handle(cmd("A", Message::JoinRoom(JoinRoom {})), &mut topics).unwrap() {
        Step::Forward(t, rx) => {
            assert_eq!(t, "A");
            rx
        }
        Step::Done => panic!("join should ask for a forwarder"),
    };
    drop(rx1);
    s1.spawn("A", rt.spawn(async {}));
    let mut rx2 = match s2.handle(cmd("A", Message::JoinRoom(JoinRoom {})), &mut topics).unwrap() {
        Step::Forward(_, rx) => rx,
        Step::Done => panic!("join should ask for a forwarder"),
    };
    s2.spawn("A", rt.spawn(async {}));
    assert!(s1.is_subscribed("A"));
    s1.handle(cmd("A", Message::LeaveRoom(LeaveRoom {})), &mut topics).unwrap();
    assert!(!s1.is_subscribed("A"));
    let r = s1.handle(cmd("A", Message::SendMessage("hidden".into())), &mut topics).unwrap();
    assert!(matches!(r, Step::Done));
    assert!(matches!(rx2.try_recv(), Err(TryRecvError::Empty)));
    s2.handle(cmd("A", Message::SendMessage("seen".into())), &mut topics).unwrap();
    let m = rx2.try_recv().unwrap();
    assert_eq!(m.sequence, 1);
    assert_eq!(m.message, Some("seen".to_string()));
}

#[test]
fn session_second_join_asks_nothing() {
    let rt = runtime();
    let mut topics = TopicStore::new();
    let mut s = Session::new("s".into());
    let r = s.handle(cmd("A", Message::JoinRoom(JoinRoom {})), &mut topics).unwrap();
    assert!(matches!(r, Step::Forward(_, _)));
    s.spawn("A", rt.spawn(async {}));
    let r = s.handle(cmd("A", Message::JoinRoom(JoinRoom {})), &mut topics).unwrap();
    assert!(matches!(r, Step::Done));
}

#[test]
fn session_empty_command_is_refused() {
    let mut topics = TopicStore::new();
    let mut s = Session::new("s".into());
    let r = s.handle(ClientMessage { topic: "a".into(), message: None }, &mut topics);
    assert!(matches!(r, Err(HubError::EmptyCommand)));
}

#[test]
fn session_login_overwrites_name() {
    let mut topics = TopicStore::new();
    let mut s = Session::new("s".into());
    assert_eq!(s.user_name, "");
    s.handle(cmd("", Message::Login(Login { name: "a".into() })), &mut topics).unwrap();
    s.handle(cmd("", Message::Login(Login { name: "b".into() })), &mut topics).unwrap();
    assert_eq!(s.user_name, "b");
}

#[test]
fn session_send_to_joined_topic_without_receivers_fails() {
    let rt = runtime();
    let mut topics = TopicStore::new();
    let mut s = Session::new("s".into());
    if let Step::Forward(_, rx) = s.handle(cmd("A", Message::JoinRoom(JoinRoom {})), &mut topics).unwrap() {
        drop(rx);
    }
    s.spawn("A", rt.spawn(async {}));
    let r = s.handle(cmd("A", Message::SendMessage("x".into())), &mut topics);
    assert!(matches!(r, Err(HubError::NoSubscribers)));
}

#[test]
fn disconnect_removes_session_once_and_leaves_topics() {
    let rt = runtime();
    let mut topics = TopicStore::new();
    let mut sessions = SessionStore::new();
    sessions.add(Session::new("c1".into()));
    sessions.add(Session::new("c1".into()));
    sessions.add(Session::new("c2".into()));
    sessions.dispatch("c1", cmd("", Message::Login(Login { name: "one".into() })), &mut topics);
    sessions.dispatch("c2", cmd("", Message::Login(Login { name: "two".into() })), &mut topics);
    for (id, topic) in [("c1", "A"), ("c1", "B"), ("c2", "B")] {
        match sessions.dispatch(id, cmd(topic, Message::JoinRoom(JoinRoom {})), &mut topics) {
            Some(Ok(Step::Forward(t, _rx))) => {
                assert!(sessions.spawn(id, &t, rt.spawn(async {})));
            }
            _ => panic!("join should ask for a forwarder"),
        }
    }
    assert!(sessions.disconnect("c1", &mut topics));
    assert!(!sessions.contains("c1"));
    assert!(sessions.contains("c2"));
    assert!(!topics.contains("A"));
    assert!(topics.contains("B"));
    assert!(!sessions.disconnect("c1", &mut topics));
    assert!(sessions.remove("c1".into()).is_none());
    assert!(sessions.dispatch("c1", cmd("B", Message::SendMessage("x".into())), &mut topics).is_none());
    assert!(!sessions.spawn("c1", "B", rt.spawn(async {})));
    assert!(sessions.disconnect("c2", &mut topics));
    assert!(!topics.contains("B"));
}

#[test]
fn session_store_remove_returns_the_session() {
    let mut sessions = SessionStore::new();
    sessions.add(Session::new("x".into()));
    let (k, s) = sessions.remove("x".into()).unwrap();
    assert_eq!(k, "x");
    assert_eq!(s.id, "x");
    assert!(!sessions.contains("x"));
}

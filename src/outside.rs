//! The outside types that the hub keeps its state in, and the calls into them.
//! Each contract here is taken on trust from the crate that provides the item.
use vstd::prelude::*;

use dashmap::{DashMap, DashSet};
use tokio::sync::broadcast::{Receiver, Sender};
use tokio::task::JoinHandle;

use crate::session::Session;
use crate::topic::Topic;
use crate::wire::ServerMessage;

verus! {

#[verifier::external_type_specification]
#[verifier::external_body]
#[verifier::reject_recursive_types(K)]
#[verifier::reject_recursive_types(V)]
#[verifier::reject_recursive_types(S)]
pub struct ExDashMap<K, V, S>(DashMap<K, V, S>);

#[verifier::external_type_specification]
#[verifier::external_body]
#[verifier::reject_recursive_types(K)]
#[verifier::reject_recursive_types(S)]
pub struct ExDashSet<K, S>(DashSet<K, S>);

#[verifier::external_type_specification]
#[verifier::external_body]
#[verifier::reject_recursive_types(T)]
pub struct ExSender<T>(Sender<T>);

#[verifier::external_type_specification]
#[verifier::external_body]
#[verifier::reject_recursive_types(T)]
pub struct ExReceiver<T>(Receiver<T>);

#[verifier::external_type_specification]
#[verifier::external_body]
#[verifier::reject_recursive_types(T)]
pub struct ExJoinHandle<T>(JoinHandle<T>);

#[verifier::external_type_specification]
#[verifier::external_body]
pub struct ExJoinError(tokio::task::JoinError);

#[verifier::external_type_specification]
#[verifier::external_body]
pub struct ExAnyhowError(anyhow::Error);

/// Relies on `anyhow::Error::msg` and `ToString`: an error that carries the
/// text of `err` and nothing else.
#[verifier::external_body]
pub fn convert_err<E: std::error::Error>(err: E) -> anyhow::Error {
    anyhow::Error::msg(err.to_string())
}

/// Topics by id.
pub type TopicTable = DashMap<String, Topic>;

/// Sessions by id.
pub type SessionTable = DashMap<String, Session>;

/// Forwarder tasks by topic id.
pub type ForwarderTable = DashMap<String, JoinHandle<()>>;

/// The names held by a set of subscriber names.
pub uninterp spec fn name_set(s: DashSet<String>) -> Set<Seq<char>>;

/// The topics held by a topic table, by id.
pub uninterp spec fn topic_table(m: TopicTable) -> Map<Seq<char>, Topic>;

/// The sessions held by a session table, by id.
pub uninterp spec fn session_table(m: SessionTable) -> Map<Seq<char>, Session>;

/// The forwarder tasks held by a subscription table, by topic id.
pub uninterp spec fn forwarder_table(m: ForwarderTable) -> Map<Seq<char>, JoinHandle<()>>;

/// Relies on `DashSet::new`: an empty set.
#[verifier::external_body]
pub(crate) fn name_set_new() -> (r: DashSet<String>)
    ensures
        name_set(r) == Set::<Seq<char>>::empty(),
{
    DashSet::new()
}

/// Relies on `DashSet::insert`: the name is in the set afterwards, nothing else changes.
#[verifier::external_body]
pub(crate) fn name_set_insert(s: &mut DashSet<String>, name: String)
    ensures
        name_set(*final(s)) == name_set(*old(s)).insert(name@),
{
    s.insert(name);
}

/// Relies on `DashSet::remove`: the name is not in the set afterwards, nothing else changes.
#[verifier::external_body]
pub(crate) fn name_set_remove(s: &mut DashSet<String>, name: &str)
    ensures
        name_set(*final(s)) == name_set(*old(s)).remove(name@),
{
    s.remove(name);
}

/// Relies on `DashSet::len`: the number of names in the set.
#[verifier::external_body]
pub(crate) fn name_set_len(s: &DashSet<String>) -> (r: usize)
    requires
        name_set(*s).finite(),
    ensures
        r == name_set(*s).len(),
{
    s.len()
}

/// Relies on `DashMap::new`: an empty map.
#[verifier::external_body]
pub(crate) fn topic_table_new() -> (r: TopicTable)
    ensures
        topic_table(r).dom() == Set::<Seq<char>>::empty(),
{
    DashMap::new()
}

/// Relies on `DashMap::insert`: the key maps to the value afterwards, nothing else changes.
#[verifier::external_body]
pub(crate) fn topic_table_insert(m: &mut TopicTable, key: String, value: Topic)
    ensures
        topic_table(*final(m)) == topic_table(*old(m)).insert(key@, value),
{
    m.insert(key, value);
}

/// Relies on `DashMap::remove`: the entry of the key leaves the map and its value is returned.
#[verifier::external_body]
pub(crate) fn topic_table_remove(m: &mut TopicTable, key: &str) -> (r: Option<Topic>)
    ensures
        topic_table(*final(m)) == topic_table(*old(m)).remove(key@),
        r == (if topic_table(*old(m)).contains_key(key@) {
            Some(topic_table(*old(m))[key@])
        } else {
            None
        }),
{
    m.remove(key).map(|e| e.1)
}

/// Relies on `DashMap::contains_key`.
#[verifier::external_body]
pub(crate) fn topic_table_contains(m: &TopicTable, key: &str) -> (r: bool)
    ensures
        r == topic_table(*m).contains_key(key@),
{
    m.contains_key(key)
}

/// Relies on `DashMap::new`: an empty map.
#[verifier::external_body]
pub(crate) fn session_table_new() -> (r: SessionTable)
    ensures
        session_table(r).dom() == Set::<Seq<char>>::empty(),
{
    DashMap::new()
}

/// Relies on `DashMap::insert`: the key maps to the value afterwards, nothing else changes.
#[verifier::external_body]
pub(crate) fn session_table_insert(m: &mut SessionTable, key: String, value: Session)
    ensures
        session_table(*final(m)) == session_table(*old(m)).insert(key@, value),
{
    m.insert(key, value);
}

/// Relies on `DashMap::remove`: the entry of the key leaves the map and is returned.
#[verifier::external_body]
pub(crate) fn session_table_remove(m: &mut SessionTable, key: &str) -> (r: Option<(String, Session)>)
    ensures
        session_table(*final(m)) == session_table(*old(m)).remove(key@),
        match r {
            Some((k, v)) => session_table(*old(m)).contains_key(key@) && k@ == key@
                && v == session_table(*old(m))[key@],
            None => !session_table(*old(m)).contains_key(key@),
        },
{
    m.remove(key)
}

/// Relies on `DashMap::contains_key`.
#[verifier::external_body]
pub(crate) fn session_table_contains(m: &SessionTable, key: &str) -> (r: bool)
    ensures
        r == session_table(*m).contains_key(key@),
{
    m.contains_key(key)
}

/// Relies on `DashMap::new`: an empty map.
#[verifier::external_body]
pub(crate) fn forwarder_table_new() -> (r: ForwarderTable)
    ensures
        forwarder_table(r).dom() == Set::<Seq<char>>::empty(),
{
    DashMap::new()
}

/// Relies on `DashMap::insert`: the key maps to the value afterwards, nothing else changes.
#[verifier::external_body]
pub(crate) fn forwarder_table_insert(m: &mut ForwarderTable, key: String, value: JoinHandle<()>)
    ensures
        forwarder_table(*final(m)) == forwarder_table(*old(m)).insert(key@, value),
{
    m.insert(key, value);
}

/// Relies on `DashMap::remove`: the entry of the key leaves the map and its value is returned.
#[verifier::external_body]
pub(crate) fn forwarder_table_remove(m: &mut ForwarderTable, key: &str) -> (r: Option<JoinHandle<()>>)
    ensures
        forwarder_table(*final(m)) == forwarder_table(*old(m)).remove(key@),
        r == (if forwarder_table(*old(m)).contains_key(key@) {
            Some(forwarder_table(*old(m))[key@])
        } else {
            None
        }),
{
    m.remove(key).map(|e| e.1)
}

/// Relies on `DashMap::contains_key`.
#[verifier::external_body]
pub(crate) fn forwarder_table_contains(m: &ForwarderTable, key: &str) -> (r: bool)
    ensures
        r == forwarder_table(*m).contains_key(key@),
{
    m.contains_key(key)
}

/// Relies on `DashMap::iter`: each key of the map once, in an order that the
/// map's hashing decides.
#[verifier::external_body]
pub(crate) fn forwarder_table_keys(m: &ForwarderTable) -> (r: Vec<String>)
    ensures
        forall|k: Seq<char>| #[trigger] forwarder_table(*m).contains_key(k) ==> exists|i: int|
            0 <= i < r@.len() && r@[i]@ == k,
        forall|i: int| 0 <= i < r@.len() ==> forwarder_table(*m).contains_key(#[trigger] r@[i]@),
        forall|i: int, j: int| 0 <= i < j < r@.len() ==> r@[i]@ != r@[j]@,
{
    m.iter().map(|e| e.key().clone()).collect()
}

/// Relies on `JoinHandle::abort`: asks the runtime to cancel the task.
#[verifier::external_body]
pub(crate) fn abort_task(h: &JoinHandle<()>) {
    h.abort()
}

/// Relies on `broadcast::Sender::new`: a channel that keeps the last `capacity`
/// values for each receiver; it panics on a capacity of zero or above `usize::MAX / 2`.
#[verifier::external_body]
pub(crate) fn broadcast_new(capacity: usize) -> (r: Sender<ServerMessage>)
    requires
        0 < capacity <= usize::MAX / 2,
{
    Sender::new(capacity)
}

/// Relies on `broadcast::Sender::subscribe`: a receiver of the values sent from now on.
#[verifier::external_body]
pub(crate) fn broadcast_subscribe(tx: &Sender<ServerMessage>) -> (r: Receiver<ServerMessage>) {
    tx.subscribe()
}

/// Relies on `broadcast::Sender::send`: hands the value to every live receiver
/// and gives their number, or fails when there is none.
#[verifier::external_body]
pub(crate) fn broadcast_send(tx: &Sender<ServerMessage>, value: ServerMessage) -> (r: Option<usize>)
    ensures
        r is Some ==> r->Some_0 > 0,
{
    tx.send(value).ok()
}

} // verus!

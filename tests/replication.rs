use std::cell::RefCell;

use rustkv::session::{react, Frame, Reaction, Session};
use rustkv::{Command, CommandLog, Connect, ConnectOk, Message, ReplicationCommand, ReplicationPeers, KV};

fn put(k: &str, v: &str) -> Command {
    Command::Put { key: k.to_string(), value: v.to_string() }
}

fn del(k: &str) -> Command {
    Command::Delete { key: k.to_string() }
}

/// A stand-in for a replica's connection: it applies what it receives to its
/// own store, or fails every write once it is marked down.
struct FakeReplica {
    down: bool,
    kv: RefCell<KV>,
    received: RefCell<Vec<usize>>,
}

impl FakeReplica {
    fn new(down: bool) -> FakeReplica {
        FakeReplica { down, kv: RefCell::new(KV::new(Vec::new())), received: RefCell::new(Vec::new()) }
    }
}

fn deliver(replica: &FakeReplica, record: &ReplicationCommand) -> bool {
    if replica.down {
        return false;
    }
    replica.kv.borrow_mut().apply(&record.command);
    replica.received.borrow_mut().push(record.sequence);
    true
}

fn value(replica: &FakeReplica, key: &str) -> Option<String> {
    replica.kv.borrow().get(&key.to_string()).cloned()
}

#[test]
fn both_replicas_see_the_write() {
    let mut peers: ReplicationPeers<FakeReplica> = ReplicationPeers::new();
    peers.register("localhost:1339".to_string(), FakeReplica::new(false)).unwrap();
    peers.register("localhost:1340".to_string(), FakeReplica::new(false)).unwrap();
    let mut log = CommandLog::new("log.owner".to_string(), &Vec::new()).unwrap();
    let c = put("a", "1");
    let line = log.append(&c).unwrap();
    let record = ReplicationCommand { command: c, sequence: line.sequence };
    let outcome = peers.replicate(&record, |r: &FakeReplica, rec: &ReplicationCommand| deliver(r, rec));
    assert_eq!(outcome, vec![true, true]);
    assert_eq!(peers.len(), 2);
    let seen = RefCell::new(0);
    let _ = peers.replicate(&ReplicationCommand { command: put("b", "2"), sequence: 1 }, |r: &FakeReplica, _rec: &ReplicationCommand| {
        assert_eq!(value(r, "a"), Some("1".to_string()));
        *seen.borrow_mut() += 1;
        true
    });
    assert_eq!(*seen.borrow(), 2);
}

#[test]
fn dead_peer_is_pruned_and_others_still_receive() {
    let mut peers: ReplicationPeers<FakeReplica> = ReplicationPeers::new();
    let a = peers.register("A".to_string(), FakeReplica::new(true)).unwrap();
    let b = peers.register("B".to_string(), FakeReplica::new(false)).unwrap();
    let c = peers.register("C".to_string(), FakeReplica::new(false)).unwrap();
    assert!(a != b && b != c && a != c);

    let record = ReplicationCommand { command: put("k", "v"), sequence: 0 };
    let attempted = RefCell::new(Vec::new());
    let outcome = peers.replicate(&record, |r: &FakeReplica, rec: &ReplicationCommand| {
        attempted.borrow_mut().push(r.down);
        deliver(r, rec)
    });
    assert_eq!(outcome, vec![false, true, true]);
    assert_eq!(attempted.borrow().len(), 3);
    assert_eq!(peers.len(), 2);

    let next = ReplicationCommand { command: del("k"), sequence: 1 };
    let calls = RefCell::new(0);
    let outcome = peers.replicate(&next, |r: &FakeReplica, rec: &ReplicationCommand| {
        *calls.borrow_mut() += 1;
        assert!(!r.down);
        let ok = deliver(r, rec);
        assert_eq!(value(r, "k"), None);
        assert_eq!(*r.received.borrow(), vec![0, 1]);
        ok
    });
    assert_eq!(outcome, vec![true, true]);
    assert_eq!(*calls.borrow(), 2);
}

#[test]
fn connected_replica_applies_in_owner_order() {
    let mut peers: ReplicationPeers<FakeReplica> = ReplicationPeers::new();
    peers.register("R".to_string(), FakeReplica::new(false)).unwrap();
    let mut owner_log = CommandLog::new("log.o".to_string(), &Vec::new()).unwrap();
    let mut owner = KV::new(Vec::new());
    for c in [put("x", "1"), put("x", "2"), del("x"), put("y", "3")] {
        let line = owner_log.append(&c).unwrap();
        owner.apply(&c);
        let record = ReplicationCommand { command: c.clone(), sequence: line.sequence };
        peers.replicate(&record, |r: &FakeReplica, rec: &ReplicationCommand| deliver(r, rec));
    }
    let seen = RefCell::new(None);
    peers.replicate(&ReplicationCommand { command: put("z", "0"), sequence: 4 }, |r: &FakeReplica, _rec: &ReplicationCommand| {
        *seen.borrow_mut() = Some((r.received.borrow().clone(), r.kv.borrow().snapshot()));
        false
    });
    let (order, store) = seen.into_inner().unwrap();
    assert_eq!(order, vec![0, 1, 2, 3]);
    assert_eq!(store, owner.snapshot());
    assert_eq!(peers.len(), 0);
}

#[test]
fn deregister_removes_only_that_replica() {
    let mut peers: ReplicationPeers<u8> = ReplicationPeers::new();
    let first = peers.register("one".to_string(), 1).unwrap();
    let _second = peers.register("two".to_string(), 2).unwrap();
    peers.deregister(first);
    assert_eq!(peers.len(), 1);
    peers.deregister(12345);
    assert_eq!(peers.len(), 1);
    let got = RefCell::new(Vec::new());
    peers.replicate(&ReplicationCommand { command: del("q"), sequence: 9 }, |s: &u8, _r: &ReplicationCommand| {
        got.borrow_mut().push(*s);
        true
    });
    assert_eq!(*got.borrow(), vec![2]);
}

fn command_frame(c: Command) -> Frame {
    Frame::Message(Message::Command(c))
}

#[test]
fn first_frame_fixes_the_role() {
    let get = || command_frame(Command::Get { key: "a".to_string() });
    assert_eq!(react(Session::Unidentified, &Frame::Ping), (Session::Unidentified, Reaction::Pong));
    assert_eq!(react(Session::Unidentified, &get()), (Session::Client, Reaction::Lookup));
    assert_eq!(react(Session::Unidentified, &command_frame(put("a", "1"))), (Session::Client, Reaction::Mutate));
    assert_eq!(react(Session::Client, &command_frame(del("a"))), (Session::Client, Reaction::Mutate));
    let connect = || Frame::Message(Message::Connect(Connect { from: "localhost:1339".to_string() }));
    assert_eq!(react(Session::Unidentified, &connect()), (Session::ReplicaSink, Reaction::AcceptReplica));
    assert_eq!(react(Session::Client, &connect()), (Session::Closed, Reaction::Close));
    assert_eq!(react(Session::ReplicaSink, &get()), (Session::Closed, Reaction::Close));
    assert_eq!(react(Session::ReplicaSink, &Frame::Ping), (Session::ReplicaSink, Reaction::Pong));
    assert_eq!(react(Session::Closed, &Frame::Ping), (Session::Closed, Reaction::Close));
}

#[test]
fn upstream_frames() {
    let snapshot = Frame::Message(Message::ConnectOk(ConnectOk { map: vec![("a".to_string(), "1".to_string())] }));
    assert_eq!(react(Session::Upstream, &snapshot), (Session::Upstream, Reaction::LoadSnapshot));
    assert_eq!(react(Session::Unidentified, &snapshot), (Session::Closed, Reaction::Close));
    let rep = |c: Command| Frame::Message(Message::ReplicationCommand(ReplicationCommand { command: c, sequence: 3 }));
    assert_eq!(react(Session::Upstream, &rep(put("a", "2"))), (Session::Upstream, Reaction::ApplyReplicated));
    assert_eq!(react(Session::Upstream, &rep(Command::Get { key: "a".to_string() })), (Session::Closed, Reaction::Close));
    assert_eq!(react(Session::Client, &rep(put("a", "2"))), (Session::Closed, Reaction::Close));
    assert_eq!(react(Session::Upstream, &command_frame(put("a", "1"))), (Session::Closed, Reaction::Close));
}

#[test]
fn unloggable_mutation_closes_the_connection() {
    assert_eq!(react(Session::Client, &command_frame(put("a=b", "1"))), (Session::Closed, Reaction::Close));
    assert_eq!(react(Session::Unidentified, &command_frame(put("a", "line\nbreak"))), (Session::Closed, Reaction::Close));
}

//! The replication manager: the replicas connected to a shard owner, and the
//! fan-out of each accepted mutation to all of them.
use vstd::prelude::*;

use crate::message::{CommandView, ReplicationCommand};

verus! {

/// A replicated record as the contracts see it: the owner's sequence number
/// and the mutation.
pub type RecordView = (nat, CommandView);

/// The value of a replication frame.
pub open spec fn record_view(r: &ReplicationCommand) -> RecordView {
    (r.sequence as nat, r.command@)
}

/// The elements of `s` whose flag in `keep` is set, in their order.
pub open spec fn survivors<A>(s: Seq<A>, keep: Seq<bool>) -> Seq<A>
    decreases s.len(),
{
    if s.len() == 0 || keep.len() == 0 {
        Seq::empty()
    } else {
        let rest = survivors(s.drop_last(), keep.drop_last());
        if keep.last() {
            rest.push(s.last())
        } else {
            rest
        }
    }
}

/// Each element kept comes from `s`, at a position whose flag is set.
pub proof fn lemma_survivor_origin<A>(s: Seq<A>, keep: Seq<bool>, x: A)
    requires
        keep.len() == s.len(),
        survivors(s, keep).contains(x),
    ensures
        exists|i: int| 0 <= i < s.len() && keep[i] && s[i] == x,
    decreases s.len(),
{
    let rest = survivors(s.drop_last(), keep.drop_last());
    if keep.last() && x == s.last() {
        assert(keep[s.len() - 1] && s[s.len() - 1] == x);
    } else {
        if keep.last() {
            let j = choose|j: int| 0 <= j < survivors(s, keep).len() && survivors(s, keep)[j] == x;
            assert(j < rest.len());
            assert(rest[j] == x);
        }
        lemma_survivor_origin(s.drop_last(), keep.drop_last(), x);
        let i = choose|i: int| 0 <= i < s.len() - 1 && keep.drop_last()[i] && s.drop_last()[i] == x;
        assert(keep[i] && s[i] == x);
    }
}

/// An element at a position whose flag is set is kept.
pub proof fn lemma_survivor_kept<A>(s: Seq<A>, keep: Seq<bool>, i: int)
    requires
        keep.len() == s.len(),
        0 <= i < s.len(),
        keep[i],
    ensures
        survivors(s, keep).contains(s[i]),
    decreases s.len(),
{
    let rest = survivors(s.drop_last(), keep.drop_last());
    if i == s.len() - 1 {
        assert(survivors(s, keep)[rest.len() as int] == s[i]);
    } else {
        lemma_survivor_kept(s.drop_last(), keep.drop_last(), i);
        let j = choose|j: int| 0 <= j < rest.len() && rest[j] == s.drop_last()[i];
        if keep.last() {
            assert(survivors(s, keep)[j] == s[i]);
        }
    }
}

proof fn lemma_survivors_len<A, B>(s: Seq<A>, t: Seq<B>, keep: Seq<bool>)
    requires
        keep.len() == s.len(),
        t.len() == s.len(),
    ensures
        survivors(s, keep).len() == survivors(t, keep).len(),
    decreases s.len(),
{
    if s.len() > 0 {
        lemma_survivors_len(s.drop_last(), t.drop_last(), keep.drop_last());
    }
}

/// A connected replica: its announced address and the connection the owner
/// streams records to.
pub struct ReplicationPeer<T> {
    pub peer: String,
    pub key: u64,
    pub stream: T,
}

/// The replicas connected to one owner. Each entry has a key of its own,
/// handed out at registration.
pub struct ReplicationPeers<T> {
    peers: Vec<ReplicationPeer<T>>,
    next_key: u64,
    delivered: Ghost<Seq<Seq<RecordView>>>,
}

impl<T> ReplicationPeers<T> {
    /// The connected replicas, in registration order.
    pub closed spec fn entries(&self) -> Seq<ReplicationPeer<T>> {
        self.peers@
    }

    /// For each connected replica, the records written to it without error,
    /// in the order they were written.
    pub closed spec fn delivered(&self) -> Seq<Seq<RecordView>> {
        self.delivered@
    }

    /// How many keys have been handed out.
    pub closed spec fn registrations(&self) -> nat {
        self.next_key as nat
    }

    /// A well-formed peer set has distinct keys and one history per entry.
    pub proof fn lemma_keys_distinct(&self)
        requires
            self.wf(),
        ensures
            distinct_keys(self.entries()),
            self.delivered().len() == self.entries().len(),
    {
    }

    /// Keys are distinct and below the next key to hand out; one history per entry.
    pub closed spec fn wf(&self) -> bool {
        &&& forall|i: int, j: int|
            0 <= i < self.peers@.len() && 0 <= j < self.peers@.len() && i != j
                ==> self.peers@[i].key != self.peers@[j].key
        &&& forall|i: int| 0 <= i < self.peers@.len() ==> self.peers@[i].key < self.next_key
        &&& self.delivered@.len() == self.peers@.len()
    }

    /// No replica connected yet.
    pub fn new() -> (r: Self)
        ensures
            r.wf(),
            r.entries() == Seq::<ReplicationPeer<T>>::empty(),
            r.delivered() == Seq::<Seq<RecordView>>::empty(),
            r.registrations() == 0,
    {
        ReplicationPeers { peers: Vec::new(), next_key: 0, delivered: Ghost(Seq::empty()) }
    }

    /// The number of connected replicas.
    pub fn len(&self) -> (r: usize)
        ensures
            r == self.entries().len(),
    {
        self.peers.len()
    }

    /// Adds a replica that completed the handshake and returns its key, a
    /// key no replica has had before. `None`, with nothing added, once all
    /// `u64::MAX` keys have been handed out.
    pub fn register(&mut self, peer: String, stream: T) -> (r: Option<u64>)
        requires
            old(self).wf(),
        ensures
            final(self).wf(),
            r is Some <==> old(self).registrations() < u64::MAX,
            match r {
                Some(key) => {
                    &&& key == old(self).registrations()
                    &&& final(self).registrations() == old(self).registrations() + 1
                    &&& final(self).entries().len() == old(self).entries().len() + 1
                    &&& final(self).entries().drop_last() == old(self).entries()
                    &&& final(self).entries().last().key == key
                    &&& final(self).entries().last().peer@ == peer@
                    &&& final(self).entries().last().stream == stream
                    &&& forall|i: int|
                        0 <= i < old(self).entries().len() ==> old(self).entries()[i].key != key
                    &&& final(self).delivered() == old(self).delivered().push(Seq::empty())
                },
                None => *final(self) == *old(self),
            },
    {
        if self.next_key == u64::MAX {
            return None;
        }
        let key = self.next_key;
        self.peers.push(ReplicationPeer { peer, key, stream });
        self.next_key = key + 1;
        self.delivered = Ghost(self.delivered@.push(Seq::empty()));
        assert(self.peers@.drop_last() =~= old(self).peers@);
        Some(key)
    }

    /// Keeps the entries whose flag is set, in order.
    fn retain_marked(&mut self, keep: &Vec<bool>, history: Ghost<Seq<Seq<RecordView>>>)
        requires
            old(self).wf(),
            keep@.len() == old(self).peers@.len(),
            history@.len() == old(self).peers@.len(),
        ensures
            final(self).wf(),
            final(self).peers@ == survivors(old(self).peers@, keep@),
            final(self).delivered@ == survivors(history@, keep@),
            final(self).next_key == old(self).next_key,
    {
        let ghost before = self.peers@;
        let mut old_peers: Vec<ReplicationPeer<T>> = Vec::new();
        std::mem::swap(&mut old_peers, &mut self.peers);
        let total = old_peers.len();
        let mut idx: usize = 0;
        for p in it: old_peers.into_iter()
            invariant
                idx == it.index(),
                before.len() == total,
                it.seq() == before,
                idx <= before.len(),
                keep@.len() == before.len(),
                self.next_key == old(self).next_key,
                self.peers@ == survivors(before.take(idx as int), keep@.take(idx as int)),
        {
            assert(before.take(idx + 1).drop_last() =~= before.take(idx as int));
            assert(keep@.take(idx + 1).drop_last() =~= keep@.take(idx as int));
            assert(idx < before.len());
            if keep[idx] {
                self.peers.push(p);
            }
            idx = idx + 1;
        }
        assert(before.take(before.len() as int) =~= before);
        assert(keep@.take(keep@.len() as int) =~= keep@);
        self.delivered = Ghost(survivors(history@, keep@));
        proof {
            lemma_survivors_len(before, history@, keep@);
            assert forall|i: int, j: int|
                0 <= i < self.peers@.len() && 0 <= j < self.peers@.len() && i
                    != j implies self.peers@[i].key != self.peers@[j].key by {
                lemma_survivors_distinct_keys(before, keep@, i, j);
            }
            assert forall|i: int| 0 <= i < self.peers@.len() implies self.peers@[i].key
                < self.next_key by {
                assert(survivors(before, keep@).contains(self.peers@[i]));
                lemma_survivor_origin(before, keep@, self.peers@[i]);
                let j = choose|j: int| 0 <= j < before.len() && keep@[j] && before[j] == self.peers@[i];
                assert(old(self).peers@[j].key < old(self).next_key);
            }
        }
    }

    /// Removes the replica with key `key`, if it is connected.
    pub fn deregister(&mut self, key: u64)
        requires
            old(self).wf(),
        ensures
            final(self).wf(),
            final(self).registrations() == old(self).registrations(),
            final(self).entries() == survivors(
                old(self).entries(),
                Seq::new(old(self).entries().len(), |i: int| old(self).entries()[i].key != key),
            ),
    {
        let ghost mask = Seq::new(self.peers@.len(), |i: int| self.peers@[i].key != key);
        let mut keep: Vec<bool> = Vec::new();
        let mut i: usize = 0;
        while i < self.peers.len()
            invariant
                0 <= i <= self.peers@.len(),
                mask == Seq::new(self.peers@.len(), |j: int| self.peers@[j].key != key),
                keep@ == mask.take(i as int),
            decreases self.peers.len() - i,
        {
            keep.push(self.peers[i].key != key);
            assert(keep@ =~= mask.take(i + 1));
            i = i + 1;
        }
        assert(keep@ =~= mask);
        let history = Ghost(self.delivered@);
        self.retain_marked(&keep, history);
    }

    /// Writes `record` to every connected replica through `send`, which reports
    /// whether the write succeeded. A failed write does not stop the pass:
    /// every replica gets the record. The replicas whose write failed are
    /// removed after the pass. Returns the outcome for each replica, in order.
    pub fn replicate<F: Fn(&T, &ReplicationCommand) -> bool>(
        &mut self,
        record: &ReplicationCommand,
        send: F,
    ) -> (delivered: Vec<bool>)
        requires
            old(self).wf(),
            forall|i: int|
                0 <= i < old(self).entries().len() ==> call_requires(
                    send,
                    (&old(self).entries()[i].stream, record),
                ),
        ensures
            final(self).wf(),
            final(self).registrations() == old(self).registrations(),
            delivered@.len() == old(self).entries().len(),
            forall|i: int|
                0 <= i < old(self).entries().len() ==> call_ensures(
                    send,
                    (&old(self).entries()[i].stream, record),
                    #[trigger] delivered@[i],
                ),
            final(self).entries() == survivors(old(self).entries(), delivered@),
            final(self).delivered() == survivors(
                old(self).delivered().map_values(|h: Seq<RecordView>| h.push(record_view(record))),
                delivered@,
            ),
    {
        let mut outcome: Vec<bool> = Vec::new();
        let mut i: usize = 0;
        while i < self.peers.len()
            invariant
                self.wf(),
                0 <= i <= self.peers@.len(),
                self.peers@ == old(self).peers@,
                self.delivered@ == old(self).delivered@,
                outcome@.len() == i,
                forall|j: int|
                    0 <= j < self.peers@.len() ==> call_requires(
                        send,
                        (&self.peers@[j].stream, record),
                    ),
                forall|j: int|
                    0 <= j < i ==> call_ensures(
                        send,
                        (&self.peers@[j].stream, record),
                        #[trigger] outcome@[j],
                    ),
            decreases self.peers.len() - i,
        {
            let ok = send(&self.peers[i].stream, record);
            outcome.push(ok);
            i = i + 1;
        }
        let history = Ghost(
            self.delivered@.map_values(|h: Seq<RecordView>| h.push(record_view(record))),
        );
        self.retain_marked(&outcome, history);
        outcome
    }
}

proof fn lemma_survivors_distinct_keys<T>(s: Seq<ReplicationPeer<T>>, keep: Seq<bool>, i: int, j: int)
    requires
        keep.len() == s.len(),
        forall|a: int, b: int| 0 <= a < s.len() && 0 <= b < s.len() && a != b ==> s[a].key != s[b].key,
        0 <= i < survivors(s, keep).len(),
        0 <= j < survivors(s, keep).len(),
        i != j,
    ensures
        survivors(s, keep)[i].key != survivors(s, keep)[j].key,
    decreases s.len(),
{
    let rest = survivors(s.drop_last(), keep.drop_last());
    if keep.last() && (i == rest.len() || j == rest.len()) {
        let other = if i == rest.len() { j } else { i };
        assert(rest.contains(rest[other]));
        lemma_survivor_origin(s.drop_last(), keep.drop_last(), rest[other]);
        let a = choose|a: int|
            0 <= a < s.len() - 1 && keep.drop_last()[a] && s.drop_last()[a] == rest[other];
        assert(s[a] == rest[other]);
        assert(s[a].key != s[s.len() - 1].key);
    } else {
        lemma_survivors_distinct_keys(s.drop_last(), keep.drop_last(), i, j);
    }
}

/// A replica whose write failed during a fan-out pass is gone from the peer
/// set afterwards, while every replica whose write succeeded is still there.
pub proof fn lemma_dead_peer_isolated<T>(peers: Seq<ReplicationPeer<T>>, delivered: Seq<bool>, dead: int)
    requires
        delivered.len() == peers.len(),
        forall|a: int, b: int|
            0 <= a < peers.len() && 0 <= b < peers.len() && a != b ==> peers[a].key != peers[b].key,
        0 <= dead < peers.len(),
        !delivered[dead],
    ensures
        forall|i: int|
            0 <= i < survivors(peers, delivered).len() ==> survivors(peers, delivered)[i].key
                != peers[dead].key,
        forall|i: int|
            0 <= i < peers.len() && delivered[i] ==> survivors(peers, delivered).contains(
                #[trigger] peers[i],
            ),
{
    assert forall|i: int| 0 <= i < survivors(peers, delivered).len() implies survivors(
        peers,
        delivered,
    )[i].key != peers[dead].key by {
        let x = survivors(peers, delivered)[i];
        assert(survivors(peers, delivered).contains(x));
        lemma_survivor_origin(peers, delivered, x);
    }
    assert forall|i: int| 0 <= i < peers.len() && delivered[i] implies survivors(
        peers,
        delivered,
    ).contains(#[trigger] peers[i]) by {
        lemma_survivor_kept(peers, delivered, i);
    }
}

/// The records delivered to the replica with key `key`, if it is connected.
pub open spec fn history_of<T>(
    entries: Seq<ReplicationPeer<T>>,
    delivered: Seq<Seq<RecordView>>,
    key: u64,
) -> Option<Seq<RecordView>> {
    if exists|i: int| 0 <= i < entries.len() && (#[trigger] entries[i]).key == key {
        Some(delivered[choose|i: int| 0 <= i < entries.len() && (#[trigger] entries[i]).key == key])
    } else {
        None
    }
}

/// The keys of `entries` are distinct.
pub open spec fn distinct_keys<T>(entries: Seq<ReplicationPeer<T>>) -> bool {
    forall|a: int, b: int|
        0 <= a < entries.len() && 0 <= b < entries.len() && a != b ==> entries[a].key
            != entries[b].key
}

proof fn lemma_history_at<T>(
    entries: Seq<ReplicationPeer<T>>,
    delivered: Seq<Seq<RecordView>>,
    key: u64,
    j: int,
)
    requires
        distinct_keys(entries),
        0 <= j < entries.len(),
        entries[j].key == key,
    ensures
        history_of(entries, delivered, key) == Some(delivered[j]),
{
    assert(entries[j].key == key);
    let c = choose|i: int| 0 <= i < entries.len() && (#[trigger] entries[i]).key == key;
    assert(c == j);
}

/// One fan-out pass, seen from a replica whose write succeeded: the pass's
/// record is added at the end of what it had been sent.
pub proof fn lemma_pass_extends_history<T>(
    entries: Seq<ReplicationPeer<T>>,
    delivered: Seq<Seq<RecordView>>,
    record: RecordView,
    ok: Seq<bool>,
    key: u64,
    i: int,
)
    requires
        delivered.len() == entries.len(),
        ok.len() == entries.len(),
        distinct_keys(entries),
        0 <= i < entries.len(),
        entries[i].key == key,
        ok[i],
    ensures
        history_of(
            survivors(entries, ok),
            survivors(delivered.map_values(|h: Seq<RecordView>| h.push(record)), ok),
            key,
        ) == Some(delivered[i].push(record)),
    decreases entries.len(),
{
    let pushed = delivered.map_values(|h: Seq<RecordView>| h.push(record));
    let last = entries.len() - 1;
    let e0 = entries.drop_last();
    let d0 = delivered.drop_last();
    let o0 = ok.drop_last();
    let pushed_rest = d0.map_values(|h: Seq<RecordView>| h.push(record));
    assert(pushed.drop_last() =~= pushed_rest);
    let s0 = survivors(e0, o0);
    let kept_pushed = survivors(pushed_rest, o0);
    lemma_survivors_len(e0, pushed_rest, o0);
    assert(distinct_keys(e0));
    assert(distinct_keys(survivors(entries, ok))) by {
        assert forall|a: int, b: int|
            0 <= a < survivors(entries, ok).len() && 0 <= b < survivors(entries, ok).len() && a
                != b implies survivors(entries, ok)[a].key != survivors(entries, ok)[b].key by {
            lemma_survivors_distinct_keys(entries, ok, a, b);
        }
    }
    if i == last {
        assert(survivors(entries, ok) == s0.push(entries[last]));
        assert(survivors(pushed, ok) == kept_pushed.push(pushed[last]));
        lemma_history_at(survivors(entries, ok), survivors(pushed, ok), key, s0.len() as int);
    } else {
        lemma_pass_extends_history(e0, d0, record, o0, key, i);
        assert(exists|j: int| 0 <= j < s0.len() && (#[trigger] s0[j]).key == key);
        let j = choose|j: int| 0 <= j < s0.len() && (#[trigger] s0[j]).key == key;
        assert(distinct_keys(s0)) by {
            assert forall|a: int, b: int|
                0 <= a < s0.len() && 0 <= b < s0.len() && a != b implies s0[a].key
                    != s0[b].key by {
                lemma_survivors_distinct_keys(e0, o0, a, b);
            }
        }
        lemma_history_at(s0, kept_pushed, key, j);
        assert(survivors(entries, ok)[j] == s0[j]);
        assert(survivors(pushed, ok)[j] == kept_pushed[j]);
        lemma_history_at(survivors(entries, ok), survivors(pushed, ok), key, j);
    }
}

/// Replication keeps the owner's order: a replica that stays connected
/// through a run of fan-out passes, its write succeeding in each, receives
/// the passes' records after what it had, in the order of the passes.
/// `entries[p]` and `delivered[p]` are the peer set before pass `p`, and
/// each pass is related to the next as `ReplicationPeers::replicate` states.
pub proof fn lemma_connected_replica_receives_in_order<T>(
    entries: Seq<Seq<ReplicationPeer<T>>>,
    delivered: Seq<Seq<Seq<RecordView>>>,
    records: Seq<RecordView>,
    outcomes: Seq<Seq<bool>>,
    key: u64,
)
    requires
        entries.len() == records.len() + 1,
        delivered.len() == entries.len(),
        outcomes.len() == records.len(),
        distinct_keys(entries[0]),
        delivered[0].len() == entries[0].len(),
        history_of(entries[0], delivered[0], key) is Some,
        forall|p: int|
            0 <= p < records.len() ==> (#[trigger] outcomes[p]).len() == entries[p].len()
                && entries[p + 1] == survivors(entries[p], outcomes[p]) && delivered[p + 1]
                == survivors(
                delivered[p].map_values(|h: Seq<RecordView>| h.push(records[p])),
                outcomes[p],
            ),
        forall|p: int, i: int|
            0 <= p < records.len() && 0 <= i < entries[p].len() && (#[trigger] entries[p][i]).key
                == key ==> outcomes[p][i],
    ensures
        history_of(entries.last(), delivered.last(), key) == Some(
            history_of(entries[0], delivered[0], key).unwrap() + records,
        ),
    decreases records.len(),
{
    let n = records.len();
    if n == 0 {
        assert(records =~= Seq::<RecordView>::empty());
        assert(history_of(entries[0], delivered[0], key).unwrap() + records =~= history_of(
            entries[0],
            delivered[0],
            key,
        ).unwrap());
    } else {
        let k = n - 1;
        lemma_connected_replica_receives_in_order(
            entries.drop_last(),
            delivered.drop_last(),
            records.drop_last(),
            outcomes.drop_last(),
            key,
        );
        let before = history_of(entries[0], delivered[0], key).unwrap();
        assert(history_of(entries[k], delivered[k], key) == Some(before + records.drop_last()));
        lemma_pass_invariants(entries, delivered, records, outcomes, k);
        let i = choose|i: int| 0 <= i < entries[k].len() && (#[trigger] entries[k][i]).key == key;
        lemma_history_at(entries[k], delivered[k], key, i);
        assert(outcomes[k][i]);
        lemma_pass_extends_history(entries[k], delivered[k], records[k], outcomes[k], key, i);
        assert((before + records.drop_last()).push(records[k]) =~= before + records);
    }
}

/// Before every pass of such a run, the keys are distinct and each replica
/// has one history.
proof fn lemma_pass_invariants<T>(
    entries: Seq<Seq<ReplicationPeer<T>>>,
    delivered: Seq<Seq<Seq<RecordView>>>,
    records: Seq<RecordView>,
    outcomes: Seq<Seq<bool>>,
    p: int,
)
    requires
        entries.len() == records.len() + 1,
        delivered.len() == entries.len(),
        outcomes.len() == records.len(),
        distinct_keys(entries[0]),
        delivered[0].len() == entries[0].len(),
        forall|q: int|
            0 <= q < records.len() ==> (#[trigger] outcomes[q]).len() == entries[q].len()
                && entries[q + 1] == survivors(entries[q], outcomes[q]) && delivered[q + 1]
                == survivors(
                delivered[q].map_values(|h: Seq<RecordView>| h.push(records[q])),
                outcomes[q],
            ),
        0 <= p <= records.len(),
    ensures
        distinct_keys(entries[p]),
        delivered[p].len() == entries[p].len(),
    decreases p,
{
    if p > 0 {
        let q = p - 1;
        lemma_pass_invariants(entries, delivered, records, outcomes, q);
        assert(outcomes[q].len() == entries[q].len());
        let pushed = delivered[q].map_values(|h: Seq<RecordView>| h.push(records[q]));
        lemma_survivors_len(entries[q], pushed, outcomes[q]);
        assert forall|a: int, b: int|
            0 <= a < entries[p].len() && 0 <= b < entries[p].len() && a != b implies entries[p][a].key
                != entries[p][b].key by {
            lemma_survivors_distinct_keys(entries[q], outcomes[q], a, b);
        }
    }
}

} // verus!

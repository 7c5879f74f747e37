//! The storage engine: one node's in-memory map from keys to values.
use vstd::hash_map::StringHashMap;
use vstd::prelude::*;

use crate::message::{Command, CommandView};

verus! {

/// The map obtained by inserting the pairs of `pairs` in order, a later pair
/// overriding an earlier one with the same key.
pub open spec fn pairs_map(pairs: Seq<(String, String)>) -> Map<Seq<char>, Seq<char>>
    decreases pairs.len(),
{
    if pairs.len() == 0 {
        Map::empty()
    } else {
        pairs_map(pairs.drop_last()).insert(pairs.last().0@, pairs.last().1@)
    }
}

/// `pairs` lists each key of `m` exactly once, with its value, and nothing else.
pub open spec fn lists_exactly(pairs: Seq<(String, String)>, m: Map<Seq<char>, Seq<char>>) -> bool {
    &&& forall|i: int, j: int|
        0 <= i < pairs.len() && 0 <= j < pairs.len() && i != j ==> pairs[i].0@ != pairs[j].0@
    &&& forall|i: int|
        0 <= i < pairs.len() ==> #[trigger] m.contains_key(pairs[i].0@) && m[pairs[i].0@]
            == pairs[i].1@
    &&& forall|k: Seq<char>|
        #[trigger] m.contains_key(k) ==> exists|i: int| 0 <= i < pairs.len() && pairs[i].0@ == k
}

/// The store after one command: a put installs or overwrites the key, a
/// delete removes it if present, a get changes nothing.
pub open spec fn apply_command(m: Map<Seq<char>, Seq<char>>, c: CommandView) -> Map<
    Seq<char>,
    Seq<char>,
> {
    match c {
        CommandView::Put { key, value } => m.insert(key, value),
        CommandView::Delete { key } => m.remove(key),
        CommandView::Get { .. } => m,
    }
}

/// The store after the commands of `cs`, applied in order to `m`.
pub open spec fn apply_commands(m: Map<Seq<char>, Seq<char>>, cs: Seq<CommandView>) -> Map<
    Seq<char>,
    Seq<char>,
>
    decreases cs.len(),
{
    if cs.len() == 0 {
        m
    } else {
        apply_command(apply_commands(m, cs.drop_last()), cs.last())
    }
}

/// A listing of each key once determines the map it lists.
pub proof fn lemma_listing_determines_map(pairs: Seq<(String, String)>, m: Map<Seq<char>, Seq<char>>)
    requires
        lists_exactly(pairs, m),
    ensures
        pairs_map(pairs) == m,
    decreases pairs.len(),
{
    if pairs.len() == 0 {
        assert(m.dom() =~= Set::empty()) by {
            assert forall|k: Seq<char>| !m.contains_key(k) by {
                if m.contains_key(k) {
                    let i = choose|i: int| 0 <= i < pairs.len() && pairs[i].0@ == k;
                }
            }
        }
        assert(m =~= Map::empty());
    } else {
        let last = pairs.last();
        let rest = pairs.drop_last();
        let smaller = m.remove(last.0@);
        assert(lists_exactly(rest, smaller)) by {
            assert forall|i: int| 0 <= i < rest.len() implies #[trigger] smaller.contains_key(
                rest[i].0@,
            ) && smaller[rest[i].0@] == rest[i].1@ by {
                assert(pairs[i] == rest[i]);
                assert(pairs[i].0@ != pairs[pairs.len() - 1].0@);
            }
            assert forall|k: Seq<char>| #[trigger] smaller.contains_key(k) implies exists|i: int|
                0 <= i < rest.len() && rest[i].0@ == k by {
                let i = choose|i: int| 0 <= i < pairs.len() && pairs[i].0@ == k;
                assert(i != pairs.len() - 1);
                assert(rest[i] == pairs[i]);
            }
        }
        lemma_listing_determines_map(rest, smaller);
        assert(m.contains_key(last.0@) && m[last.0@] == last.1@) by {
            assert(pairs[pairs.len() - 1] == last);
            assert(m.contains_key(pairs[pairs.len() - 1].0@));
        }
        assert(smaller.insert(last.0@, last.1@) =~= m);
    }
}

/// The key-value map of one node. Values live in a hash map keyed by the
/// key, next to the key's position in a vector of all keys, which lists the
/// store for snapshots.
pub struct KV {
    values: StringHashMap<(String, usize)>,
    keys: Vec<String>,
}

impl View for KV {
    type V = Map<Seq<char>, Seq<char>>;

    closed spec fn view(&self) -> Map<Seq<char>, Seq<char>> {
        self.values@.map_values(|p: (String, usize)| p.0@)
    }
}

impl KV {
    /// Each key is listed once in the key vector, at the position its entry
    /// in the hash map records, and the hash map holds exactly those keys.
    pub closed spec fn wf(&self) -> bool {
        &&& forall|i: int, j: int|
            0 <= i < self.keys@.len() && 0 <= j < self.keys@.len() && i != j ==> self.keys@[i]@
                != self.keys@[j]@
        &&& forall|i: int|
            0 <= i < self.keys@.len() ==> #[trigger] self.values@.contains_key(self.keys@[i]@)
                && self.values@[self.keys@[i]@].1 == i
        &&& forall|k: Seq<char>|
            #[trigger] self.values@.contains_key(k) ==> self.values@[k].1 < self.keys@.len()
                && self.keys@[self.values@[k].1 as int]@ == k
    }

    /// A store holding the given pairs, a later pair overriding an earlier one
    /// with the same key.
    pub fn new(map: Vec<(String, String)>) -> (kv: KV)
        ensures
            kv.wf(),
            kv@ == pairs_map(map@),
    {
        let mut kv = KV { values: StringHashMap::new(), keys: Vec::new() };
        assert(kv@ =~= pairs_map(map@.take(0)));
        let mut i: usize = 0;
        while i < map.len()
            invariant
                0 <= i <= map.len(),
                kv.wf(),
                kv@ == pairs_map(map@.take(i as int)),
            decreases map.len() - i,
        {
            let key = map[i].0.clone();
            let value = map[i].1.clone();
            kv.set(key, value);
            assert(map@.take(i + 1).drop_last() =~= map@.take(i as int));
            i = i + 1;
        }
        assert(map@.take(map.len() as int) =~= map@);
        kv
    }

    /// Where `key` stands in the key vector, if it is stored.
    fn position(&self, key: &String) -> (r: Option<usize>)
        requires
            self.wf(),
        ensures
            match r {
                Some(i) => i < self.keys@.len() && self.keys@[i as int]@ == key@
                    && self@.contains_key(key@),
                None => !self@.contains_key(key@),
            },
    {
        match self.values.get(key.as_str()) {
            Some(entry) => Some(entry.1),
            None => None,
        }
    }

    /// Installs `value` under `key`, replacing any earlier value.
    pub fn set(&mut self, key: String, value: String)
        requires
            old(self).wf(),
        ensures
            final(self).wf(),
            final(self)@ == old(self)@.insert(key@, value@),
    {
        let ghost k = key@;
        match self.position(&key) {
            Some(i) => {
                self.values.insert(key, (value, i));
            },
            None => {
                let i = self.keys.len();
                self.keys.push(key.clone());
                self.values.insert(key, (value, i));
                proof {
                    assert forall|a: int| 0 <= a < i implies old(self).keys@[a]@ != k by {
                        assert(old(self).values@.contains_key(old(self).keys@[a]@));
                    }
                    assert(self.keys@[i as int]@ == k);
                }
            },
        }
        proof {
            assert forall|a: int| 0 <= a < self.keys@.len() implies #[trigger] self.values@.contains_key(
                self.keys@[a]@,
            ) && self.values@[self.keys@[a]@].1 == a by {
                if self.keys@[a]@ != k {
                    assert(self.keys@[a] == old(self).keys@[a]);
                    assert(old(self).values@.contains_key(old(self).keys@[a]@));
                }
            }
            assert(self@ =~= old(self)@.insert(key@, value@));
        }
    }

    /// The value stored under `key`, if any.
    pub fn get(&self, key: &String) -> (r: Option<&String>)
        requires
            self.wf(),
        ensures
            match r {
                Some(v) => self@.contains_key(key@) && v@ == self@[key@],
                None => !self@.contains_key(key@),
            },
    {
        match self.values.get(key.as_str()) {
            Some(entry) => Some(&entry.0),
            None => None,
        }
    }

    /// Removes `key` and its value; a key that is absent leaves the store as it is.
    pub fn del(&mut self, key: &String)
        requires
            old(self).wf(),
        ensures
            final(self).wf(),
            final(self)@ == old(self)@.remove(key@),
    {
        let ghost k = key@;
        let ghost before = self.keys@;
        match self.position(key) {
            Some(i) => {
                self.values.remove(key.as_str());
                let last = self.keys.len() - 1;
                self.keys.swap_remove(i);
                if i < last {
                    let ghost moved = before[last as int]@;
                    proof {
                        assert(self.keys@[i as int] == before[last as int]);
                        assert(old(self).values@.contains_key(before[last as int]@));
                        assert(moved != k);
                    }
                    // The moved key is still stored, so the lookup always finds it.
                    let value = match self.values.get(self.keys[i].as_str()) {
                        Some(entry) => entry.0.clone(),
                        None => String::new(),
                    };
                    let moved_key = self.keys[i].clone();
                    self.values.insert(moved_key, (value, i));
                }
                proof {
                    assert forall|a: int, b: int|
                        0 <= a < self.keys@.len() && 0 <= b < self.keys@.len() && a
                            != b implies self.keys@[a]@ != self.keys@[b]@ by {
                        let a0 = if a == i { last as int } else { a };
                        let b0 = if b == i { last as int } else { b };
                        assert(self.keys@[a] == before[a0]);
                        assert(self.keys@[b] == before[b0]);
                    }
                    assert forall|a: int| 0 <= a < self.keys@.len() implies #[trigger] self.values@.contains_key(
                        self.keys@[a]@,
                    ) && self.values@[self.keys@[a]@].1 == a by {
                        let a0 = if a == i { last as int } else { a };
                        assert(self.keys@[a] == before[a0]);
                        assert(old(self).values@.contains_key(before[a0]@));
                        assert(before[a0]@ != before[i as int]@);
                    }
                    assert forall|m: Seq<char>| #[trigger] self.values@.contains_key(m) implies self.values@[m].1
                        < self.keys@.len() && self.keys@[self.values@[m].1 as int]@ == m by {
                        assert(old(self).values@.contains_key(m));
                        let j = old(self).values@[m].1 as int;
                        assert(before[j]@ == m);
                        if j == last {
                            assert(self.keys@[i as int] == before[j]);
                        } else {
                            assert(j != i);
                            assert(self.keys@[j] == before[j]);
                        }
                    }
                    assert(self@ =~= old(self)@.remove(k));
                }
            },
            None => {
                proof {
                    assert(old(self)@ =~= old(self)@.remove(k));
                }
            },
        }
    }

    /// Applies one mutation to the store.
    pub fn apply(&mut self, command: &Command)
        requires
            old(self).wf(),
            command@.is_mutation(),
        ensures
            final(self).wf(),
            final(self)@ == apply_command(old(self)@, command@),
    {
        match command {
            Command::Put { key, value } => self.set(key.clone(), value.clone()),
            Command::Delete { key } => self.del(key),
            Command::Get { .. } => {},
        }
    }

    /// Every key and value of the store, each key once.
    pub fn snapshot(&self) -> (r: Vec<(String, String)>)
        requires
            self.wf(),
        ensures
            lists_exactly(r@, self@),
            pairs_map(r@) == self@,
    {
        let mut out: Vec<(String, String)> = Vec::new();
        let mut i: usize = 0;
        while i < self.keys.len()
            invariant
                self.wf(),
                0 <= i <= self.keys@.len(),
                out@.len() == i,
                forall|j: int|
                    0 <= j < i ==> #[trigger] out@[j].0@ == self.keys@[j]@ && self@.contains_key(out@[j].0@)
                        && out@[j].1@ == self@[out@[j].0@],
            decreases self.keys.len() - i,
        {
            proof {
                assert(self.values@.contains_key(self.keys@[i as int]@));
            }
            // Every listed key is stored, so the lookup always finds it.
            match self.values.get(self.keys[i].as_str()) {
                Some(entry) => {
                    out.push((self.keys[i].clone(), entry.0.clone()));
                },
                None => {},
            }
            i = i + 1;
        }
        proof {
            assert forall|k: Seq<char>| #[trigger] self@.contains_key(k) implies exists|j: int|
                0 <= j < out@.len() && out@[j].0@ == k by {
                let j = self.values@[k].1 as int;
                assert(out@[j].0@ == k);
            }
            assert forall|a: int, b: int|
                0 <= a < out@.len() && 0 <= b < out@.len() && a != b implies out@[a].0@ != out@[b].0@ by {
                assert(out@[a].0@ == self.keys@[a]@);
                assert(out@[b].0@ == self.keys@[b]@);
            }
            lemma_listing_determines_map(out@, self@);
        }
        out
    }

    /// Installs every pair of an owner's snapshot, keeping keys the snapshot
    /// does not mention.
    pub fn load_snapshot(&mut self, map: Vec<(String, String)>)
        requires
            old(self).wf(),
        ensures
            final(self).wf(),
            final(self)@ == old(self)@.union_prefer_right(pairs_map(map@)),
    {
        let ghost start = self@;
        let mut i: usize = 0;
        while i < map.len()
            invariant
                0 <= i <= map.len(),
                self.wf(),
                self@ == start.union_prefer_right(pairs_map(map@.take(i as int))),
            decreases map.len() - i,
        {
            let key = map[i].0.clone();
            let value = map[i].1.clone();
            self.set(key, value);
            assert(map@.take(i + 1).drop_last() =~= map@.take(i as int));
            assert(self@ =~= start.union_prefer_right(pairs_map(map@.take(i + 1))));
            i = i + 1;
        }
        assert(map@.take(map.len() as int) =~= map@);
    }
}

} // verus!

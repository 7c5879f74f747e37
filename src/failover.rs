//! The failure monitor's rules: a range whose owner disappears turns
//! read-only, passes to its replica with the lowest node id, and becomes
//! writable again once that replica confirms it is ready.
use vstd::prelude::*;
use vstd::string::StrSliceExecFns;

use crate::allocation::{range_holds, NamespaceAllocation};
use crate::message::Node;

verus! {

/// A range in the allocation store: its allocation (owner and bounds), the
/// nodes known to replicate it, and whether writes to it are refused.
pub struct RangeOwnership {
    pub allocation: NamespaceAllocation,
    pub replicas: Vec<Node>,
    pub read_only: bool,
}

/// Why a write cannot be routed.
#[derive(Debug, PartialEq, Eq)]
pub enum RouteError {
    /// No range holds the key's leading character (or the key is empty).
    NoOwner,
    /// The range is read-only while its ownership passes to a replica.
    ReadOnly,
}

/// Range `i` is the first whose bounds hold `c`.
pub open spec fn first_range(ranges: Seq<RangeOwnership>, c: char, i: int) -> bool {
    &&& 0 <= i < ranges.len()
    &&& range_holds(ranges[i].allocation.range, c)
    &&& forall|j: int| 0 <= j < i ==> !range_holds(#[trigger] ranges[j].allocation.range, c)
}

/// No range holds `c`.
pub open spec fn no_range(ranges: Seq<RangeOwnership>, c: char) -> bool {
    forall|j: int| 0 <= j < ranges.len() ==> !range_holds(#[trigger] ranges[j].allocation.range, c)
}

/// The owner of range `r`.
pub open spec fn owner_of(r: RangeOwnership) -> Seq<char> {
    r.allocation.node@
}

/// `after` is `before` with only the owner and the read-only flag of each
/// range possibly changed.
pub open spec fn same_ranges(before: Seq<RangeOwnership>, after: Seq<RangeOwnership>) -> bool {
    &&& after.len() == before.len()
    &&& forall|i: int|
        0 <= i < before.len() ==> (#[trigger] after[i]).allocation.range == before[i].allocation.range
            && after[i].replicas@ == before[i].replicas@
}

/// Replica `i` is the one with the lowest node id among those other than
/// `lost`, the first such in the list on a tie.
pub open spec fn is_successor(replicas: Seq<Node>, lost: Seq<char>, i: int) -> bool {
    &&& 0 <= i < replicas.len()
    &&& replicas[i].address@ != lost
    &&& forall|j: int|
        0 <= j < replicas.len() && (#[trigger] replicas[j]).address@ != lost ==> replicas[i].node_id
            <= replicas[j].node_id
    &&& forall|j: int|
        0 <= j < i && (#[trigger] replicas[j]).address@ != lost ==> replicas[i].node_id
            < replicas[j].node_id
}

/// The replica that takes over a range from `lost`: the one with the lowest
/// node id other than `lost` itself. `None` when there is no such replica.
pub fn choose_successor(replicas: &Vec<Node>, lost: &String) -> (r: Option<usize>)
    ensures
        match r {
            Some(i) => is_successor(replicas@, lost@, i as int),
            None => forall|j: int|
                0 <= j < replicas@.len() ==> (#[trigger] replicas@[j]).address@ == lost@,
        },
{
    let mut best: Option<usize> = None;
    let mut j: usize = 0;
    while j < replicas.len()
        invariant
            0 <= j <= replicas@.len(),
            match best {
                Some(b) => {
                    &&& b < j
                    &&& replicas@[b as int].address@ != lost@
                    &&& forall|k: int|
                        0 <= k < j && (#[trigger] replicas@[k]).address@ != lost@
                            ==> replicas@[b as int].node_id <= replicas@[k].node_id
                    &&& forall|k: int|
                        0 <= k < b && (#[trigger] replicas@[k]).address@ != lost@
                            ==> replicas@[b as int].node_id < replicas@[k].node_id
                },
                None => forall|k: int| 0 <= k < j ==> (#[trigger] replicas@[k]).address@ == lost@,
            },
        decreases replicas.len() - j,
    {
        if replicas[j].address != *lost {
            match best {
                Some(b) => {
                    if replicas[j].node_id < replicas[b].node_id {
                        best = Some(j);
                    }
                },
                None => {
                    best = Some(j);
                },
            }
        }
        j = j + 1;
    }
    best
}

/// The owner's liveness marker is gone: every range it owns turns
/// read-only; nothing else changes.
pub fn mark_owner_lost(ranges: Vec<RangeOwnership>, lost: &String) -> (r: Vec<RangeOwnership>)
    ensures
        same_ranges(ranges@, r@),
        forall|i: int|
            0 <= i < ranges@.len() ==> owner_of(#[trigger] r@[i]) == owner_of(ranges@[i]) && r@[i].read_only
                == (ranges@[i].read_only || owner_of(ranges@[i]) == lost@),
{
    let ghost before = ranges@;
    let total = ranges.len();
    let mut out: Vec<RangeOwnership> = Vec::new();
    for entry in it: ranges.into_iter()
        invariant
            it.seq() == before,
            before.len() == total,
            out@.len() == it.index(),
            it.index() <= total,
            forall|i: int|
                0 <= i < out@.len() ==> (#[trigger] out@[i]).allocation.range == before[i].allocation.range
                    && out@[i].replicas@ == before[i].replicas@ && owner_of(out@[i]) == owner_of(
                    before[i],
                ) && out@[i].read_only == (before[i].read_only || owner_of(before[i]) == lost@),
    {
        let RangeOwnership { allocation, replicas, read_only } = entry;
        let lost_here = allocation.node == *lost;
        out.push(RangeOwnership { allocation, replicas, read_only: read_only || lost_here });
    }
    out
}

/// Some replica other than `lost` is known.
pub open spec fn has_successor(replicas: Seq<Node>, lost: Seq<char>) -> bool {
    exists|k: int| 0 <= k < replicas.len() && (#[trigger] replicas[k]).address@ != lost
}

/// `after` is range `before` once the ranges of `lost` have been passed on:
/// a read-only range owned by `lost` that has a successor replica now
/// belongs to that replica; any other range keeps its owner. Bounds,
/// replicas and the read-only flag do not change.
pub open spec fn passed_on(before: RangeOwnership, after: RangeOwnership, lost: Seq<char>) -> bool {
    &&& after.allocation.range == before.allocation.range
    &&& after.replicas@ == before.replicas@
    &&& after.read_only == before.read_only
    &&& if before.read_only && owner_of(before) == lost && has_successor(before.replicas@, lost) {
        exists|k: int|
            is_successor(before.replicas@, lost, k) && owner_of(after) == before.replicas@[k].address@
    } else {
        owner_of(after) == owner_of(before)
    }
}

fn pass_on(entry: RangeOwnership, lost: &String) -> (r: RangeOwnership)
    ensures
        passed_on(entry, r, lost@),
{
    let RangeOwnership { allocation, replicas, read_only } = entry;
    let NamespaceAllocation { node, range } = allocation;
    let mut owner = node;
    if read_only && owner == *lost {
        match choose_successor(&replicas, lost) {
            Some(k) => {
                owner = replicas[k].address.clone();
            },
            None => {},
        }
    }
    RangeOwnership { allocation: NamespaceAllocation { node: owner, range }, replicas, read_only }
}

/// Passes each read-only range owned by `lost` to its successor replica
/// (see [`choose_successor`]); the range stays read-only until the new owner
/// confirms. Writable ranges, and ranges without a successor, keep their
/// owner.
pub fn reassign(ranges: Vec<RangeOwnership>, lost: &String) -> (r: Vec<RangeOwnership>)
    ensures
        same_ranges(ranges@, r@),
        r@.len() == ranges@.len(),
        forall|i: int| 0 <= i < ranges@.len() ==> passed_on(ranges@[i], #[trigger] r@[i], lost@),
{
    let ghost before = ranges@;
    let total = ranges.len();
    let mut out: Vec<RangeOwnership> = Vec::new();
    for entry in it: ranges.into_iter()
        invariant
            it.seq() == before,
            before.len() == total,
            out@.len() == it.index(),
            it.index() <= total,
            forall|i: int| 0 <= i < out@.len() ==> passed_on(before[i], #[trigger] out@[i], lost@),
    {
        out.push(pass_on(entry, lost));
    }
    out
}

/// The node `ready` is confirmed live and ready to serve: every range it
/// owns becomes writable again.
pub fn confirm_ready(ranges: Vec<RangeOwnership>, ready: &String) -> (r: Vec<RangeOwnership>)
    ensures
        same_ranges(ranges@, r@),
        forall|i: int|
            0 <= i < ranges@.len() ==> owner_of(#[trigger] r@[i]) == owner_of(ranges@[i]) && r@[i].read_only
                == (ranges@[i].read_only && owner_of(ranges@[i]) != ready@),
{
    let ghost before = ranges@;
    let total = ranges.len();
    let mut out: Vec<RangeOwnership> = Vec::new();
    for entry in it: ranges.into_iter()
        invariant
            it.seq() == before,
            before.len() == total,
            out@.len() == it.index(),
            it.index() <= total,
            forall|i: int|
                0 <= i < out@.len() ==> (#[trigger] out@[i]).allocation.range == before[i].allocation.range
                    && out@[i].replicas@ == before[i].replicas@ && owner_of(out@[i]) == owner_of(
                    before[i],
                ) && out@[i].read_only == (before[i].read_only && owner_of(before[i]) != ready@),
    {
        let RangeOwnership { allocation, replicas, read_only } = entry;
        let owned = allocation.node == *ready;
        out.push(RangeOwnership { allocation, replicas, read_only: read_only && !owned });
    }
    out
}

/// The position of the first range whose bounds hold `c`.
fn range_position(ranges: &Vec<RangeOwnership>, c: char) -> (r: Option<usize>)
    ensures
        match r {
            Some(i) => first_range(ranges@, c, i as int),
            None => no_range(ranges@, c),
        },
{
    let mut i: usize = 0;
    while i < ranges.len()
        invariant
            0 <= i <= ranges@.len(),
            forall|j: int| 0 <= j < i ==> !range_holds(#[trigger] ranges@[j].allocation.range, c),
        decreases ranges.len() - i,
    {
        let range = &ranges[i].allocation.range;
        if *range.start() <= c && c <= *range.end() {
            return Some(i);
        }
        i = i + 1;
    }
    None
}

/// The node a write of `key` goes to: the owner of the first range holding
/// the key's leading character, unless that range is read-only.
pub fn route_write(key: &str, ranges: &Vec<RangeOwnership>) -> (r: Result<String, RouteError>)
    ensures
        match r {
            Ok(owner) => key@.len() > 0 && exists|i: int|
                first_range(ranges@, key@[0], i) && !ranges@[i].read_only && owner@ == owner_of(
                    ranges@[i],
                ),
            Err(RouteError::NoOwner) => key@.len() == 0 || no_range(ranges@, key@[0]),
            Err(RouteError::ReadOnly) => key@.len() > 0 && exists|i: int|
                first_range(ranges@, key@[0], i) && ranges@[i].read_only,
        },
{
    if key.is_empty() {
        return Err(RouteError::NoOwner);
    }
    match range_position(ranges, key.get_char(0)) {
        Some(i) => if ranges[i].read_only {
            Err(RouteError::ReadOnly)
        } else {
            Ok(ranges[i].allocation.node.clone())
        },
        None => Err(RouteError::NoOwner),
    }
}

/// The node a read of `key` goes to: the owner of the first range holding
/// the key's leading character, read-only or not.
pub fn route_read(key: &str, ranges: &Vec<RangeOwnership>) -> (r: Result<String, RouteError>)
    ensures
        match r {
            Ok(owner) => key@.len() > 0 && exists|i: int|
                first_range(ranges@, key@[0], i) && owner@ == owner_of(ranges@[i]),
            Err(RouteError::NoOwner) => key@.len() == 0 || no_range(ranges@, key@[0]),
            Err(RouteError::ReadOnly) => false,
        },
{
    if key.is_empty() {
        return Err(RouteError::NoOwner);
    }
    match range_position(ranges, key.get_char(0)) {
        Some(i) => Ok(ranges[i].allocation.node.clone()),
        None => Err(RouteError::NoOwner),
    }
}

/// Between the loss of an owner and the confirmation of its successor,
/// writes to the lost owner's ranges are refused: after marking the owner
/// lost and passing its ranges on, every character such a range held is
/// still routed to that same range, and the range is read-only, so
/// [`route_write`] answers [`RouteError::ReadOnly`] for any key starting with
/// it.
pub proof fn lemma_lost_owner_ranges_refuse_writes(
    ranges: Seq<RangeOwnership>,
    marked: Seq<RangeOwnership>,
    passed: Seq<RangeOwnership>,
    lost: Seq<char>,
    i: int,
)
    requires
        same_ranges(ranges, marked),
        forall|k: int|
            0 <= k < ranges.len() ==> owner_of(#[trigger] marked[k]) == owner_of(ranges[k])
                && marked[k].read_only == (ranges[k].read_only || owner_of(ranges[k]) == lost),
        passed.len() == marked.len(),
        forall|k: int| 0 <= k < marked.len() ==> passed_on(marked[k], #[trigger] passed[k], lost),
        0 <= i < ranges.len(),
        owner_of(ranges[i]) == lost,
    ensures
        passed[i].read_only,
        forall|c: char| first_range(ranges, c, i) ==> #[trigger] first_range(passed, c, i),
{
    assert(marked[i].read_only);
    assert(passed_on(marked[i], passed[i], lost));
    assert forall|c: char| first_range(ranges, c, i) implies #[trigger] first_range(passed, c, i) by {
        assert(passed_on(marked[i], passed[i], lost));
        assert forall|j: int| 0 <= j < i implies !range_holds(#[trigger] passed[j].allocation.range, c) by {
            assert(passed_on(marked[j], passed[j], lost));
            assert(marked[j].allocation.range == ranges[j].allocation.range);
        }
    }
}

} // verus!

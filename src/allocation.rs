//! Namespace allocation: which node owns which range of leading key
//! characters, and the routing of a key to its owner.
use vstd::prelude::*;
use vstd::string::StrSliceExecFns;

use core::ops::RangeInclusive;

verus! {

/// Relies on `RangeInclusive::start`: it returns the lower bound the range was
/// built with.
pub assume_specification<Idx>[ RangeInclusive::<Idx>::start ](r: &RangeInclusive<Idx>) -> (res:
    &Idx)
    ensures
        *res == r@.start,
;

/// Relies on `RangeInclusive::end`: it returns the upper bound the range was
/// built with.
pub assume_specification<Idx>[ RangeInclusive::<Idx>::end ](r: &RangeInclusive<Idx>) -> (res:
    &Idx)
    ensures
        *res == r@.end,
;

/// A node and the inclusive range of leading key characters it owns.
#[derive(Debug)]
pub struct NamespaceAllocation {
    pub node: String,
    pub range: RangeInclusive<char>,
}

/// Character `c` lies within the bounds of `r`.
pub open spec fn range_holds(r: RangeInclusive<char>, c: char) -> bool {
    r@.start <= c && c <= r@.end
}

/// Allocation `i` is the first whose range holds `c`.
pub open spec fn first_match(allocs: Seq<NamespaceAllocation>, c: char, i: int) -> bool {
    &&& 0 <= i < allocs.len()
    &&& range_holds(allocs[i].range, c)
    &&& forall|j: int| 0 <= j < i ==> !range_holds(#[trigger] allocs[j].range, c)
}

/// No character lies in two of the ranges.
pub open spec fn ranges_disjoint(allocs: Seq<NamespaceAllocation>) -> bool {
    forall|i: int, j: int, c: char|
        #![trigger range_holds(allocs[i].range, c), range_holds(allocs[j].range, c)]
        0 <= i < allocs.len() && 0 <= j < allocs.len() && i != j ==> !(range_holds(
            allocs[i].range,
            c,
        ) && range_holds(allocs[j].range, c))
}

/// Code point `v` lies within the bounds of `r`.
pub open spec fn range_holds_code(r: RangeInclusive<char>, v: int) -> bool {
    r@.start as int <= v && v <= r@.end as int
}

/// Some range holds code point `v`.
pub open spec fn covered(allocs: Seq<NamespaceAllocation>, v: int) -> bool {
    exists|i: int| 0 <= i < allocs.len() && #[trigger] range_holds_code(allocs[i].range, v)
}

/// Every code point from `lo` to `hi` lies in some range.
pub open spec fn ranges_cover(allocs: Seq<NamespaceAllocation>, lo: char, hi: char) -> bool {
    forall|v: int| lo as int <= v <= hi as int ==> #[trigger] covered(allocs, v)
}

/// The ranges partition the code points from `lo` to `hi`: disjoint, and
/// together covering them.
pub open spec fn is_partition(allocs: Seq<NamespaceAllocation>, lo: char, hi: char) -> bool {
    ranges_disjoint(allocs) && ranges_cover(allocs, lo, hi)
}

/// The position of the first allocation whose range holds `c`.
pub fn owner_position(allocs: &Vec<NamespaceAllocation>, c: char) -> (r: Option<usize>)
    ensures
        match r {
            Some(i) => first_match(allocs@, c, i as int),
            None => forall|j: int| 0 <= j < allocs@.len() ==> !range_holds(#[trigger] allocs@[j].range, c),
        },
{
    let mut i: usize = 0;
    while i < allocs.len()
        invariant
            0 <= i <= allocs@.len(),
            forall|j: int| 0 <= j < i ==> !range_holds(#[trigger] allocs@[j].range, c),
        decreases allocs.len() - i,
    {
        let range = &allocs[i].range;
        if *range.start() <= c && c <= *range.end() {
            return Some(i);
        }
        i = i + 1;
    }
    None
}

/// The node owning `key`: the first allocation whose range holds the key's
/// leading character. `None` for an empty key or when no range holds it.
pub fn select_key_owner(key: &str, owners: &Vec<NamespaceAllocation>) -> (r: Option<String>)
    ensures
        match r {
            Some(owner) => key@.len() > 0 && exists|i: int|
                first_match(owners@, key@[0], i) && owner@ == owners@[i].node@,
            None => key@.len() == 0 || forall|j: int|
                0 <= j < owners@.len() ==> !range_holds(#[trigger] owners@[j].range, key@[0]),
        },
{
    if key.is_empty() {
        return None;
    }
    let first = key.get_char(0);
    match owner_position(owners, first) {
        Some(i) => Some(owners[i].node.clone()),
        None => None,
    }
}

/// Whether the ranges partition the code points from `lo` to `hi`.
pub fn check_partition(allocs: &Vec<NamespaceAllocation>, lo: char, hi: char) -> (r: bool)
    ensures
        r == is_partition(allocs@, lo, hi),
{
    disjoint(allocs) && covers(allocs, lo, hi)
}

fn disjoint(allocs: &Vec<NamespaceAllocation>) -> (r: bool)
    ensures
        r == ranges_disjoint(allocs@),
{
    let n = allocs.len();
    let mut i: usize = 0;
    while i < n
        invariant
            n == allocs@.len(),
            0 <= i <= n,
            forall|a: int, b: int, c: char|
                #![trigger range_holds(allocs@[a].range, c), range_holds(allocs@[b].range, c)]
                0 <= a < i && 0 <= b < n && a != b ==> !(range_holds(allocs@[a].range, c)
                    && range_holds(allocs@[b].range, c)),
        decreases n - i,
    {
        let mut j: usize = 0;
        while j < n
            invariant
                n == allocs@.len(),
                0 <= i < n,
                0 <= j <= n,
                forall|a: int, b: int, c: char|
                    #![trigger range_holds(allocs@[a].range, c), range_holds(allocs@[b].range, c)]
                    0 <= a < i && 0 <= b < n && a != b ==> !(range_holds(allocs@[a].range, c)
                        && range_holds(allocs@[b].range, c)),
                forall|b: int, c: char|
                    #![trigger range_holds(allocs@[b].range, c)]
                    0 <= b < j && b != i ==> !(range_holds(allocs@[i as int].range, c)
                        && range_holds(allocs@[b].range, c)),
            decreases n - j,
        {
            if j != i {
                let si = *allocs[i].range.start();
                let ei = *allocs[i].range.end();
                let sj = *allocs[j].range.start();
                let ej = *allocs[j].range.end();
                let top = if si < sj { sj } else { si };
                let bottom = if ei < ej { ei } else { ej };
                if top <= bottom {
                    proof {
                        assert(range_holds(allocs@[i as int].range, top));
                        assert(range_holds(allocs@[j as int].range, top));
                    }
                    return false;
                }
            }
            j = j + 1;
        }
        i = i + 1;
    }
    true
}

fn covers(allocs: &Vec<NamespaceAllocation>, lo: char, hi: char) -> (r: bool)
    ensures
        r == ranges_cover(allocs@, lo, hi),
{
    let top = code_point(hi);
    let mut cur: u32 = code_point(lo);
    while cur <= top
        invariant
            top == hi as int,
            lo as int <= cur,
            forall|v: int| lo as int <= v < cur ==> #[trigger] covered(allocs@, v),
        decreases top + 1 - cur,
    {
        match position_holding_code(allocs, cur) {
            Some(i) => {
                let end = code_point(*allocs[i].range.end());
                if end >= top {
                    proof {
                        assert forall|v: int| lo as int <= v <= hi as int implies #[trigger] covered(
                            allocs@,
                            v,
                        ) by {
                            if v >= cur {
                                assert(range_holds_code(allocs@[i as int].range, v));
                            }
                        }
                    }
                    return true;
                }
                proof {
                    assert forall|v: int| lo as int <= v < end + 1 implies #[trigger] covered(
                        allocs@,
                        v,
                    ) by {
                        if v >= cur {
                            assert(range_holds_code(allocs@[i as int].range, v));
                        }
                    }
                }
                cur = end + 1;
            },
            None => {
                proof {
                    if covered(allocs@, cur as int) {
                        let k = choose|k: int|
                            0 <= k < allocs@.len() && #[trigger] range_holds_code(allocs@[k].range, cur as int);
                    }
                }
                return false;
            },
        }
    }
    true
}

/// The code point of `c`.
fn code_point(c: char) -> (r: u32)
    ensures
        r as int == c as int,
{
    proof {
        assert(0 <= c as int <= 0x10FFFF);
    }
    c as u32
}

/// The position of the first allocation whose bounds hold code point `v`.
fn position_holding_code(allocs: &Vec<NamespaceAllocation>, v: u32) -> (r: Option<usize>)
    ensures
        match r {
            Some(i) => i < allocs@.len() && range_holds_code(allocs@[i as int].range, v as int),
            None => forall|j: int|
                0 <= j < allocs@.len() ==> !range_holds_code(#[trigger] allocs@[j].range, v as int),
        },
{
    let mut i: usize = 0;
    while i < allocs.len()
        invariant
            0 <= i <= allocs@.len(),
            forall|j: int|
                0 <= j < i ==> !range_holds_code(#[trigger] allocs@[j].range, v as int),
        decreases allocs.len() - i,
    {
        let range = &allocs[i].range;
        if code_point(*range.start()) <= v && v <= code_point(*range.end()) {
            return Some(i);
        }
        i = i + 1;
    }
    None
}

/// In a partition of the code points from `lo` to `hi`, each character there
/// lies in exactly one range, and it is the one a key starting with it is
/// routed to.
pub proof fn lemma_partition_routes_uniquely(
    allocs: Seq<NamespaceAllocation>,
    lo: char,
    hi: char,
    c: char,
)
    requires
        is_partition(allocs, lo, hi),
        lo <= c <= hi,
    ensures
        exists|i: int|
            first_match(allocs, c, i) && forall|j: int|
                0 <= j < allocs.len() && j != i ==> !range_holds(#[trigger] allocs[j].range, c),
{
    assert(covered(allocs, c as int));
    let i = choose|i: int| 0 <= i < allocs.len() && #[trigger] range_holds_code(allocs[i].range, c as int);
    assert forall|j: int| 0 <= j < allocs.len() && j != i implies !range_holds(
        #[trigger] allocs[j].range,
        c,
    ) by {
        assert(!(range_holds(allocs[i].range, c) && range_holds(allocs[j].range, c)));
    }
    assert(first_match(allocs, c, i));
}

} // verus!

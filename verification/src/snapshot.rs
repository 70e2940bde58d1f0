//! The state of a register at one time, as a debugger shows it.
use vstd::prelude::*;
use crate::flat::{RegLeaf, RegNode, Time};
use crate::register::{RegRTree, leaf_holds_time};
use crate::db::Db;

verus! {

/// The value of a register at a time, whether it was just written, and the times just
/// before and after its value there.
#[derive(Clone, Copy, Debug, PartialEq, Eq)]
pub struct OneRegisterSnapshot {
    pub value: Option<u64>,
    pub has_just_changed: bool,
    pub prev_time: Option<Time>,
    pub next_time: Option<Time>,
}

/// The snapshot given the leaf holding the time, if any, and the time range of the tree.
pub open spec fn snapshot_of(leaf: Option<RegLeaf>, time: Time, bbox: RegNode) -> OneRegisterSnapshot {
    match leaf {
        Some(leaf) => OneRegisterSnapshot {
            value: Some(leaf.value),
            has_just_changed: leaf.time_min == time,
            prev_time: if leaf.time_min > 0 { Some((leaf.time_min - 1) as u32) } else { None },
            next_time: if leaf.time_max < bbox.time_max { Some((leaf.time_max + 1) as u32) } else { None },
        },
        None => OneRegisterSnapshot {
            value: None,
            has_just_changed: false,
            prev_time: None,
            next_time: Some(bbox.time_min),
        },
    }
}

/// The snapshot of a register at `time`: the first leaf holding the time gives the value,
/// the time just before it starts and the time just after it ends, within the tree's time
/// range; before the first write, the next time is the start of that range.
pub fn compute_one_register_snapshot(rtree: &RegRTree, time: Time) -> (r: OneRegisterSnapshot)
    requires
        rtree.shape_wf(),
        rtree.items_wf(),
    ensures
        rtree.wf() ==> ((forall|j: int| !#[trigger] leaf_holds_time(*rtree, j, time as int))
            ==> r == snapshot_of(None, time, rtree.bbox)),
        rtree.wf() ==> forall|j: int|
            #[trigger] leaf_holds_time(*rtree, j, time as int) && (forall|i: int|
                0 <= i < j ==> !#[trigger] leaf_holds_time(*rtree, i, time as int)) ==> r == snapshot_of(
                Some(rtree.leaves@[j]),
                time,
                rtree.bbox,
            ),
        r.value matches Some(v) ==> exists|j: int| #[trigger] leaf_holds_time(*rtree, j, time as int) && v == rtree.leaves@[j].value,
        r.has_just_changed ==> exists|j: int| #[trigger] leaf_holds_time(*rtree, j, time as int) && rtree.leaves@[j].time_min == time,
        r.prev_time matches Some(p) ==> exists|j: int| #[trigger] leaf_holds_time(*rtree, j, time as int) && rtree.leaves@[j].time_min == p + 1,
        r.next_time matches Some(n) ==> n == rtree.bbox.time_min || exists|j: int|
            #[trigger] leaf_holds_time(*rtree, j, time as int) && rtree.leaves@[j].time_max + 1 == n && n <= rtree.bbox.time_max,
        rtree.wf() ==> (r.value is None <==> forall|j: int| !#[trigger] leaf_holds_time(*rtree, j, time as int)),
{
    let bbox_min = rtree.bbox.time_min;
    let bbox_max = rtree.bbox.time_max;
    match rtree.leaf_at(time) {
        Some(leaf) => {
            let prev_time = if leaf.time_min > 0 {
                Some(leaf.time_min - 1)
            } else {
                None
            };
            let next_time = if leaf.time_max < bbox_max {
                Some(leaf.time_max + 1)
            } else {
                None
            };
            let r = OneRegisterSnapshot {
                value: Some(leaf.value),
                has_just_changed: leaf.time_min == time,
                prev_time,
                next_time,
            };
            proof {
                if rtree.wf() {
                    let k = choose|k: int|
                        #[trigger] leaf_holds_time(*rtree, k, time as int) && *leaf == rtree.leaves@[k]
                            && forall|i: int| 0 <= i < k ==> !#[trigger] leaf_holds_time(*rtree, i, time as int);
                    assert forall|j: int|
                        #[trigger] leaf_holds_time(*rtree, j, time as int) && (forall|i: int|
                            0 <= i < j ==> !#[trigger] leaf_holds_time(*rtree, i, time as int)) implies r == snapshot_of(
                            Some(rtree.leaves@[j]),
                            time,
                            rtree.bbox,
                        ) by {
                        if j < k {
                            assert(!leaf_holds_time(*rtree, j, time as int));
                        } else if j > k {
                            assert(!leaf_holds_time(*rtree, k, time as int));
                        }
                    }
                }
            }
            r
        },
        None => OneRegisterSnapshot {
            value: None,
            has_just_changed: false,
            prev_time: None,
            next_time: Some(bbox_min),
        },
    }
}

/// Law: a snapshot's value is what `RTree::value_at` gives for the same register tree at
/// the same time. Where `v` is an answer `value_at` may give (its contract), the snapshot
/// `s` of the well-formed tree at that time holds `v` as its value: the value of the first
/// leaf holding the time, and none where no leaf holds it.
pub proof fn law_snapshot_value_is_value_at(rtree: RegRTree, time: Time, s: OneRegisterSnapshot, v: Option<u64>)
    requires
        rtree.wf(),
        is_snapshot(rtree, time, s),
        v is None <==> forall|j: int| !#[trigger] leaf_holds_time(rtree, j, time as int),
        v matches Some(value) ==> exists|j: int|
            #[trigger] leaf_holds_time(rtree, j, time as int) && value == rtree.leaves@[j].value
                && forall|i: int| 0 <= i < j ==> !#[trigger] leaf_holds_time(rtree, i, time as int),
    ensures
        s.value == v,
        s.value matches Some(value) ==> exists|j: int| #[trigger] leaf_holds_time(rtree, j, time as int) && value == rtree.leaves@[j].value,
{
    match v {
        None => {},
        Some(value) => {
            let j = choose|j: int|
                #[trigger] leaf_holds_time(rtree, j, time as int) && value == rtree.leaves@[j].value
                    && forall|i: int| 0 <= i < j ==> !#[trigger] leaf_holds_time(rtree, i, time as int);
            assert(s == snapshot_of(Some(rtree.leaves@[j]), time, rtree.bbox));
        },
    }
}

/// `s` is the snapshot of the well-formed tree `rtree` at `time`; a value it holds is always
/// that of a leaf holding the time.
pub open spec fn is_snapshot(rtree: RegRTree, time: Time, s: OneRegisterSnapshot) -> bool {
    &&& s.value matches Some(v) ==> exists|j: int| #[trigger] leaf_holds_time(rtree, j, time as int) && v == rtree.leaves@[j].value
    &&& s.has_just_changed ==> exists|j: int| #[trigger] leaf_holds_time(rtree, j, time as int) && rtree.leaves@[j].time_min == time
    &&& s.prev_time matches Some(p) ==> exists|j: int| #[trigger] leaf_holds_time(rtree, j, time as int) && rtree.leaves@[j].time_min == p + 1
    &&& s.next_time matches Some(n) ==> n == rtree.bbox.time_min || exists|j: int|
        #[trigger] leaf_holds_time(rtree, j, time as int) && rtree.leaves@[j].time_max + 1 == n && n <= rtree.bbox.time_max
    &&& rtree.wf() ==> ((forall|j: int| !#[trigger] leaf_holds_time(rtree, j, time as int)) ==> s == snapshot_of(
        None,
        time,
        rtree.bbox,
    ))
    &&& rtree.wf() ==> forall|j: int|
        #[trigger] leaf_holds_time(rtree, j, time as int) && (forall|i: int|
            0 <= i < j ==> !#[trigger] leaf_holds_time(rtree, i, time as int)) ==> s == snapshot_of(
            Some(rtree.leaves@[j]),
            time,
            rtree.bbox,
        )
}

/// The snapshot of every register at `time`, by register index.
pub fn compute_all_register_snapshots(db: &Db, time: Time) -> (r: Vec<OneRegisterSnapshot>)
    requires
        db.trees_ok(),
    ensures
        r@.len() == db.registers@.len(),
        forall|i: int| 0 <= i < r@.len() ==> is_snapshot(db.registers@[i], time, #[trigger] r@[i]),
{
    let mut r: Vec<OneRegisterSnapshot> = Vec::new();
    let mut i: usize = 0;
    while i < db.registers.len()
        invariant
            i <= db.registers@.len(),
            db.trees_ok(),
            r@.len() == i,
            forall|k: int| 0 <= k < i ==> is_snapshot(db.registers@[k], time, #[trigger] r@[k]),
        decreases db.registers@.len() - i,
    {
        assert(db.registers@[i as int].shape_wf() && db.registers@[i as int].items_wf());
        let s = compute_one_register_snapshot(&db.registers[i], time);
        r.push(s);
        i = i + 1;
    }
    r
}

} // verus!

//! What a device buffer's free list accounts for across any run of
//! allocations and frees.
use vstd::prelude::*;
use crate::buffer::{
    DeviceSlice, Range, after_free, after_take, disjoint_from_all, first_fit, lemma_first_fit_bounds,
    lemma_give_back, lemma_round_up, lemma_take_front_disjoint, lemma_total_remove,
    lemma_total_update, ranges_wf, round_up, slice_for, take_front, total_size,
};

verus! {

/// Sum of the sizes of the slices.
pub open spec fn live_total(live: Seq<DeviceSlice>) -> int
    decreases live.len(),
{
    if live.len() == 0 {
        0
    } else {
        live_total(live.drop_last()) + live.last().size
    }
}

/// The two slices share no byte.
pub open spec fn apart(a: DeviceSlice, b: DeviceSlice) -> bool {
    a.end() <= b.offset || b.end() <= a.offset
}

/// Free list `r` and the slices `live` that are handed out tile a buffer of
/// `capacity` bytes: no byte is in two of them, and together they cover it.
pub open spec fn tiles(r: Seq<Range>, capacity: int, live: Seq<DeviceSlice>) -> bool {
    &&& ranges_wf(r, capacity)
    &&& forall|i: int|
        0 <= i < live.len() ==> #[trigger] live[i].size > 0 && live[i].end() <= capacity
            && disjoint_from_all(r, live[i].offset as int, live[i].end())
    &&& forall|i: int, j: int|
        0 <= i < live.len() && 0 <= j < live.len() && i != j ==> apart(
            #[trigger] live[i],
            #[trigger] live[j],
        )
    &&& total_size(r) + live_total(live) == capacity
}

/// One call on an allocator: a request of some bytes, or the freeing of
/// the live slice at an index.
pub enum AllocOp {
    Allocate(u64),
    Free(u64),
}

/// Free list and live slices after `op`. A slice of size zero is not kept
/// as live, and an index past the live slices frees nothing.
pub open spec fn step(
    st: (Seq<Range>, Seq<DeviceSlice>),
    op: AllocOp,
    capacity: int,
    align: int,
) -> (Seq<Range>, Seq<DeviceSlice>) {
    match op {
        AllocOp::Allocate(size) => match slice_for(st.0, align, size as int) {
            Some(slice) => (
                after_take(st.0, align, size as int),
                if size > 0 {
                    st.1.push(slice)
                } else {
                    st.1
                },
            ),
            None => st,
        },
        AllocOp::Free(j) => if j < st.1.len() {
            (after_free(st.0, capacity, st.1[j as int]), st.1.remove(j as int))
        } else {
            st
        },
    }
}

/// Free list and live slices after `ops`, in order, from `st`.
pub open spec fn run(
    st: (Seq<Range>, Seq<DeviceSlice>),
    ops: Seq<AllocOp>,
    capacity: int,
    align: int,
) -> (Seq<Range>, Seq<DeviceSlice>)
    decreases ops.len(),
{
    if ops.len() == 0 {
        st
    } else {
        step(run(st, ops.drop_last(), capacity, align), ops.last(), capacity, align)
    }
}

/// The free list of a fresh buffer of `capacity` bytes, with nothing live.
pub open spec fn fresh(capacity: u64) -> (Seq<Range>, Seq<DeviceSlice>) {
    (
        if capacity > 0 {
            seq![Range { start: 0, end: capacity }]
        } else {
            Seq::empty()
        },
        Seq::empty(),
    )
}

proof fn lemma_live_total_remove(live: Seq<DeviceSlice>, j: int)
    requires
        0 <= j < live.len(),
    ensures
        live_total(live.remove(j)) == live_total(live) - live[j].size,
    decreases live.len(),
{
    let u = live.remove(j);
    if j == live.len() - 1 {
        assert(u =~= live.drop_last());
    } else {
        assert(u.drop_last() =~= live.drop_last().remove(j));
        lemma_live_total_remove(live.drop_last(), j);
    }
}

proof fn lemma_step_allocate_tiles(
    r: Seq<Range>,
    live: Seq<DeviceSlice>,
    capacity: int,
    align: int,
    size: u64,
)
    requires
        tiles(r, capacity, live),
        align > 0,
    ensures
        tiles(step((r, live), AllocOp::Allocate(size), capacity, align).0, capacity, step((r, live), AllocOp::Allocate(size), capacity, align).1),
{
    let sz = round_up(size as int, align);
    lemma_round_up(size as int, align);
    let i = first_fit(r, sz, 0);
    lemma_first_fit_bounds(r, sz, 0);
    if i < r.len() {
        let t = take_front(r, i, sz);
        let s = r[i].start as int;
        if sz == 0 {
            assert(t =~= r);
        } else {
            lemma_take_front_disjoint(r, capacity, i, sz);
            if r[i].len() == sz {
                lemma_total_remove(r, i);
            } else {
                lemma_total_update(r, i, Range { start: (r[i].start + sz) as u64, end: r[i].end });
            }
            assert forall|k: int| 0 <= k < live.len() implies disjoint_from_all(
                t,
                live[k].offset as int,
                live[k].end(),
            ) by {
                assert(live[k].size > 0);
                assert forall|m: int| 0 <= m < t.len() implies t[m].end <= live[k].offset
                    || live[k].end() <= t[m].start by {
                    if t.len() == r.len() {
                        assert(r[m].end <= live[k].offset || live[k].end() <= r[m].start);
                    } else if m < i {
                        assert(t[m] == r[m]);
                        assert(r[m].end <= live[k].offset || live[k].end() <= r[m].start);
                    } else {
                        assert(t[m] == r[m + 1]);
                        assert(r[m + 1].end <= live[k].offset || live[k].end() <= r[m + 1].start);
                    }
                }
            }
            if size > 0 {
                let slice = DeviceSlice { size: sz as u64, offset: r[i].start, alignment: align as u64 };
                let l2 = live.push(slice);
                assert(l2.drop_last() =~= live);
                assert forall|a: int, b: int|
                    0 <= a < l2.len() && 0 <= b < l2.len() && a != b implies apart(
                        #[trigger] l2[a],
                        #[trigger] l2[b],
                    ) by {
                    if a == live.len() {
                        assert(l2[b] == live[b]);
                        assert(r[i].end <= live[b].offset || live[b].end() <= r[i].start);
                    } else if b == live.len() {
                        assert(l2[a] == live[a]);
                        assert(r[i].end <= live[a].offset || live[a].end() <= r[i].start);
                    } else {
                        assert(l2[a] == live[a] && l2[b] == live[b]);
                    }
                }
                assert forall|a: int| 0 <= a < l2.len() implies #[trigger] l2[a].size > 0
                    && l2[a].end() <= capacity && disjoint_from_all(t, l2[a].offset as int, l2[a].end()) by {
                    if a < live.len() {
                        assert(l2[a] == live[a]);
                    }
                }
            } else {
                assert(false);
            }
        }
    }
}

proof fn lemma_step_free_tiles(r: Seq<Range>, live: Seq<DeviceSlice>, capacity: int, align: int, j: u64)
    requires
        tiles(r, capacity, live),
        capacity <= u64::MAX,
    ensures
        tiles(step((r, live), AllocOp::Free(j), capacity, align).0, capacity, step((r, live), AllocOp::Free(j), capacity, align).1),
{
    if j < live.len() {
        let slice = live[j as int];
        assert(slice.size > 0);
        let g = after_free(r, capacity, slice);
        lemma_give_back(r, capacity, slice.offset as int, slice.end());
        lemma_live_total_remove(live, j as int);
        let l2 = live.remove(j as int);
        assert forall|a: int| 0 <= a < l2.len() implies #[trigger] l2[a].size > 0 && l2[a].end()
            <= capacity && disjoint_from_all(g, l2[a].offset as int, l2[a].end()) by {
            let b = if a < j { a } else { a + 1 };
            assert(l2[a] == live[b]);
            assert(live[b].size > 0);
            assert(apart(live[b], live[j as int]));
            assert(disjoint_from_all(g, live[b].offset as int, live[b].end()));
        }
        assert forall|a: int, b: int|
            0 <= a < l2.len() && 0 <= b < l2.len() && a != b implies apart(
                #[trigger] l2[a],
                #[trigger] l2[b],
            ) by {
            let a2 = if a < j { a } else { a + 1 };
            let b2 = if b < j { b } else { b + 1 };
            assert(l2[a] == live[a2] && l2[b] == live[b2]);
        }
    }
}

proof fn lemma_run_tiles(capacity: u64, align: u64, ops: Seq<AllocOp>)
    requires
        align > 0,
    ensures
        tiles(
            run(fresh(capacity), ops, capacity as int, align as int).0,
            capacity as int,
            run(fresh(capacity), ops, capacity as int, align as int).1,
        ),
    decreases ops.len(),
{
    if ops.len() == 0 {
        let r = fresh(capacity).0;
        if capacity > 0 {
            assert(r.drop_last() =~= Seq::<Range>::empty());
            assert(total_size(r.drop_last()) == 0);
        }
    } else {
        lemma_run_tiles(capacity, align, ops.drop_last());
        let st = run(fresh(capacity), ops.drop_last(), capacity as int, align as int);
        match ops.last() {
            AllocOp::Allocate(size) => {
                lemma_step_allocate_tiles(st.0, st.1, capacity as int, align as int, size);
            },
            AllocOp::Free(j) => {
                lemma_step_free_tiles(st.0, st.1, capacity as int, align as int, j);
            },
        }
    }
}

/// After any sequence of allocations and frees of live slices on a fresh
/// buffer of `capacity` bytes, the bytes available are the capacity less the
/// sizes of the live slices, and no two free ranges are adjacent.
pub proof fn lemma_available_accounts_for_live(capacity: u64, align: u64, ops: Seq<AllocOp>)
    requires
        align > 0,
    ensures
        ({
            let (r, live) = run(fresh(capacity), ops, capacity as int, align as int);
            &&& total_size(r) == capacity - live_total(live)
            &&& forall|i: int| 0 <= i < r.len() - 1 ==> r[i].end < r[i + 1].start
        }),
{
    lemma_run_tiles(capacity, align, ops);
    let (r, live) = run(fresh(capacity), ops, capacity as int, align as int);
    assert forall|i: int| 0 <= i < r.len() - 1 implies r[i].end < r[i + 1].start by {
        assert(ranges_wf(r, capacity as int));
    }
}

} // verus!

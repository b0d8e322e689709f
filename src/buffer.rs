//! A first-fit free-list allocator over one device buffer of fixed size.
use vstd::prelude::*;
use vstd::arithmetic::div_mod::{lemma_fundamental_div_mod, lemma_mod_multiples_basic};

verus! {

#[verifier::external_type_specification]
#[verifier::external_body]
pub struct ExVkBuffer(ash::vk::Buffer);

#[verifier::external_type_specification]
#[verifier::external_body]
pub struct ExVkDeviceMemory(ash::vk::DeviceMemory);

/// A half-open interval `[start, end)` of byte offsets within a device buffer.
#[derive(Clone, Copy, Debug, PartialEq, Eq, Structural)]
pub struct Range {
    pub start: u64,
    pub end: u64,
}

impl Range {
    pub open spec fn len(self) -> int {
        self.end - self.start
    }

    pub fn size(&self) -> (r: u64)
        requires
            self.start <= self.end,
        ensures
            r == self.len(),
    {
        self.end - self.start
    }
}

/// The smallest multiple of `mul` that is not below `base`.
pub open spec fn round_up(base: int, mul: int) -> int {
    if base % mul == 0 {
        base
    } else {
        base - base % mul + mul
    }
}

pub proof fn lemma_round_up(base: int, mul: int)
    requires
        0 <= base,
        0 < mul,
    ensures
        0 <= base % mul < mul,
        base % mul <= base,
        round_up(base, mul) % mul == 0,
        base <= round_up(base, mul) < base + mul,
{
    lemma_fundamental_div_mod(base, mul);
    let q = base / mul;
    let m = base % mul;
    assert(0 <= m < mul) by (nonlinear_arith)
        requires
            mul > 0,
            m == base % mul,
    ;
    assert(q >= 0) by (nonlinear_arith)
        requires
            mul > 0,
            base >= 0,
            q == base / mul,
    ;
    assert(mul * q >= 0) by (nonlinear_arith)
        requires
            mul > 0,
            q >= 0,
    ;
    if m != 0 {
        lemma_mod_multiples_basic(q + 1, mul);
        assert((q + 1) * mul == mul * q + mul) by (nonlinear_arith);
    }
}

/// A well-formed free list: non-empty ranges inside the buffer, in ascending
/// order, with at least one byte in use between any two of them (adjacent
/// free ranges are always merged).
pub open spec fn ranges_wf(r: Seq<Range>, capacity: int) -> bool {
    &&& forall|i: int| 0 <= i < r.len() ==> r[i].start < r[i].end && r[i].end <= capacity
    &&& forall|i: int, j: int| 0 <= i < j < r.len() ==> r[i].end < r[j].start
}

/// Total number of bytes covered by the ranges.
pub open spec fn total_size(r: Seq<Range>) -> int
    decreases r.len(),
{
    if r.len() == 0 {
        0
    } else {
        total_size(r.drop_last()) + r.last().len()
    }
}

/// Index of the first range at or after `i` that holds at least `size` bytes,
/// or the length of `r` when there is none.
pub open spec fn first_fit(r: Seq<Range>, size: int, i: int) -> int
    decreases r.len() - i,
{
    if i >= r.len() {
        r.len() as int
    } else if i >= 0 && r[i].len() >= size {
        i
    } else {
        first_fit(r, size, i + 1)
    }
}

/// The free list after the first `size` bytes of range `i` are taken: the
/// range goes when it is used up, else it shrinks from the front.
pub open spec fn take_front(r: Seq<Range>, i: int, size: int) -> Seq<Range> {
    if r[i].len() == size {
        r.remove(i)
    } else {
        r.update(i, Range { start: (r[i].start + size) as u64, end: r[i].end })
    }
}

/// Index of the first range at or after `i` that starts after `x`, or the
/// length of `r` when there is none.
pub open spec fn first_after(r: Seq<Range>, x: int, i: int) -> int
    decreases r.len() - i,
{
    if i >= r.len() {
        r.len() as int
    } else if i >= 0 && r[i].start > x {
        i
    } else {
        first_after(r, x, i + 1)
    }
}

/// No free range shares a byte with `[start, end)`.
pub open spec fn disjoint_from_all(r: Seq<Range>, start: int, end: int) -> bool {
    forall|i: int| 0 <= i < r.len() ==> r[i].end <= start || end <= r[i].start
}

/// The free list after `[start, end)` is returned to it, merged with the
/// free range that ends at `start` and with the one that begins at `end`.
pub open spec fn give_back(r: Seq<Range>, start: int, end: int) -> Seq<Range> {
    let k = first_after(r, start, 0);
    let joins_prev = k > 0 && r[k - 1].end == start;
    let joins_next = k < r.len() && r[k].start == end;
    if joins_prev && joins_next {
        r.update(k - 1, Range { start: r[k - 1].start, end: r[k].end }).remove(k)
    } else if joins_prev {
        r.update(k - 1, Range { start: r[k - 1].start, end: end as u64 })
    } else if joins_next {
        r.update(k, Range { start: start as u64, end: r[k].end })
    } else {
        r.insert(k, Range { start: start as u64, end: end as u64 })
    }
}

pub proof fn lemma_total_update(r: Seq<Range>, i: int, x: Range)
    requires
        0 <= i < r.len(),
    ensures
        total_size(r.update(i, x)) == total_size(r) - r[i].len() + x.len(),
    decreases r.len(),
{
    let u = r.update(i, x);
    if i == r.len() - 1 {
        assert(u.drop_last() =~= r.drop_last());
    } else {
        assert(u.drop_last() =~= r.drop_last().update(i, x));
        lemma_total_update(r.drop_last(), i, x);
    }
}

pub proof fn lemma_total_remove(r: Seq<Range>, i: int)
    requires
        0 <= i < r.len(),
    ensures
        total_size(r.remove(i)) == total_size(r) - r[i].len(),
    decreases r.len(),
{
    let u = r.remove(i);
    if i == r.len() - 1 {
        assert(u =~= r.drop_last());
    } else {
        assert(u.drop_last() =~= r.drop_last().remove(i));
        lemma_total_remove(r.drop_last(), i);
    }
}

pub proof fn lemma_total_insert(r: Seq<Range>, i: int, x: Range)
    requires
        0 <= i <= r.len(),
    ensures
        total_size(r.insert(i, x)) == total_size(r) + x.len(),
    decreases r.len(),
{
    let u = r.insert(i, x);
    if i == r.len() {
        assert(u.drop_last() =~= r);
    } else {
        assert(u.drop_last() =~= r.drop_last().insert(i, x));
        lemma_total_insert(r.drop_last(), i, x);
    }
}

/// The ranges of a well-formed free list cover at most the bytes up to the
/// end of the last one.
pub proof fn lemma_total_bounded(r: Seq<Range>, capacity: int)
    requires
        ranges_wf(r, capacity),
        0 <= capacity,
    ensures
        0 <= total_size(r),
        r.len() > 0 ==> total_size(r) <= r.last().end,
        total_size(r) <= capacity,
        forall|i: int| 0 <= i < r.len() ==> r[i].len() <= total_size(r),
    decreases r.len(),
{
    if r.len() > 0 {
        let d = r.drop_last();
        assert(ranges_wf(d, capacity));
        lemma_total_bounded(d, capacity);
        if d.len() > 0 {
            assert(d.last() == r[r.len() - 2]);
            assert(r[r.len() - 2].end < r[r.len() - 1].start);
        } else {
            assert(total_size(d) == 0);
        }
        assert(r.last() == r[r.len() - 1]);
        assert(total_size(r) == total_size(d) + r.last().len());
        assert forall|i: int| 0 <= i < r.len() implies r[i].len() <= total_size(r) by {
            if i < r.len() - 1 {
                assert(r[i] == d[i]);
            }
        }
    }
}

pub proof fn lemma_first_fit_none(r: Seq<Range>, size: int, i: int)
    requires
        0 <= i <= r.len(),
        forall|j: int| i <= j < r.len() ==> r[j].len() < size,
    ensures
        first_fit(r, size, i) == r.len(),
    decreases r.len() - i,
{
    if i < r.len() {
        lemma_first_fit_none(r, size, i + 1);
    }
}

pub proof fn lemma_first_fit_bounds(r: Seq<Range>, size: int, i: int)
    requires
        0 <= i <= r.len(),
    ensures
        i <= first_fit(r, size, i) <= r.len(),
        first_fit(r, size, i) < r.len() ==> r[first_fit(r, size, i)].len() >= size,
        forall|j: int| i <= j < first_fit(r, size, i) ==> r[j].len() < size,
    decreases r.len() - i,
{
    if i < r.len() && r[i].len() < size {
        lemma_first_fit_bounds(r, size, i + 1);
    }
}

pub proof fn lemma_first_after_bounds(r: Seq<Range>, x: int, i: int)
    requires
        0 <= i <= r.len(),
    ensures
        i <= first_after(r, x, i) <= r.len(),
        first_after(r, x, i) < r.len() ==> r[first_after(r, x, i)].start > x,
        forall|j: int| i <= j < first_after(r, x, i) ==> r[j].start <= x,
    decreases r.len() - i,
{
    if i < r.len() && r[i].start <= x {
        lemma_first_after_bounds(r, x, i + 1);
    }
}

/// The slice that a request of `size` bytes gets from free list `r` of a
/// buffer with alignment `align`: the rounded size, at the front of the first
/// free range that holds it.
pub open spec fn slice_for(r: Seq<Range>, align: int, size: int) -> Option<DeviceSlice> {
    let sz = round_up(size, align);
    let i = first_fit(r, sz, 0);
    if i < r.len() {
        Some(DeviceSlice { size: sz as u64, offset: r[i].start, alignment: align as u64 })
    } else {
        None
    }
}

/// Free list `r` after a request of `size` bytes.
pub open spec fn after_take(r: Seq<Range>, align: int, size: int) -> Seq<Range> {
    let sz = round_up(size, align);
    let i = first_fit(r, sz, 0);
    if i < r.len() {
        take_front(r, i, sz)
    } else {
        r
    }
}

/// `slice` can go back to free list `r` of a buffer of `capacity` bytes: it
/// is not empty, lies inside the buffer, and none of its bytes is free.
pub open spec fn can_free_in(r: Seq<Range>, capacity: int, slice: DeviceSlice) -> bool {
    &&& slice.size > 0
    &&& slice.offset + slice.size <= capacity
    &&& disjoint_from_all(r, slice.offset as int, slice.offset + slice.size)
}

/// Free list `r` after `slice` is freed; a slice that cannot be freed
/// leaves it as it is.
pub open spec fn after_free(r: Seq<Range>, capacity: int, slice: DeviceSlice) -> Seq<Range> {
    if can_free_in(r, capacity, slice) {
        give_back(r, slice.offset as int, slice.offset + slice.size)
    } else {
        r
    }
}

pub proof fn lemma_first_after_is(r: Seq<Range>, x: int, k: int)
    requires
        0 <= k <= r.len(),
        forall|j: int| 0 <= j < k ==> r[j].start <= x,
        k < r.len() ==> r[k].start > x,
    ensures
        first_after(r, x, 0) == k,
{
    lemma_first_after_bounds(r, x, 0);
}

/// Taking the front of range `i` leaves every free range apart from the
/// bytes taken.
pub proof fn lemma_take_front_disjoint(r: Seq<Range>, capacity: int, i: int, size: int)
    requires
        ranges_wf(r, capacity),
        0 <= i < r.len(),
        0 < size <= r[i].len(),
    ensures
        ranges_wf(take_front(r, i, size), capacity),
        disjoint_from_all(take_front(r, i, size), r[i].start as int, r[i].start + size),
{
    let t = take_front(r, i, size);
    assert forall|j: int| 0 <= j < t.len() implies t[j].end <= r[i].start || r[i].start + size
        <= t[j].start by {
        if t.len() == r.len() {
            if j != i {
                assert(t[j] == r[j]);
            }
        } else if j < i {
            assert(t[j] == r[j]);
        } else {
            assert(t[j] == r[j + 1]);
        }
    }
}

/// Freeing a slice right after it was allocated gives back the free list
/// that was there before the allocation.
pub proof fn lemma_alloc_free_round_trip(r: Seq<Range>, capacity: int, align: int, size: int)
    requires
        ranges_wf(r, capacity),
        align > 0,
        size >= 0,
    ensures
        match slice_for(r, align, size) {
            Some(slice) => size > 0 ==> can_free_in(after_take(r, align, size), capacity, slice)
                && after_free(after_take(r, align, size), capacity, slice) == r,
            None => after_take(r, align, size) == r,
        },
{
    let sz = round_up(size, align);
    lemma_round_up(size, align);
    let i = first_fit(r, sz, 0);
    lemma_first_fit_bounds(r, sz, 0);
    if i < r.len() && size > 0 {
        let t = take_front(r, i, sz);
        let s = r[i].start as int;
        lemma_take_front_disjoint(r, capacity, i, sz);
        if r[i].len() == sz {
            assert forall|j: int| 0 <= j < i implies t[j].start <= s by {
                assert(t[j] == r[j]);
            }
            if i < t.len() {
                assert(t[i] == r[i + 1]);
            }
            lemma_first_after_is(t, s, i);
            if i > 0 {
                assert(t[i - 1] == r[i - 1]);
            }
            assert(give_back(t, s, s + sz) =~= r);
        } else {
            assert forall|j: int| 0 <= j < i implies t[j].start <= s by {
                assert(t[j] == r[j]);
            }
            lemma_first_after_is(t, s, i);
            if i > 0 {
                assert(t[i - 1] == r[i - 1]);
            }
            assert(give_back(t, s, s + sz) =~= r);
        }
    }
}

/// Giving back a slice that shares no byte with the free list keeps the list
/// well formed, adds the slice's bytes to it, and keeps it apart from every
/// interval that was apart from both the list and the slice.
pub proof fn lemma_give_back(r: Seq<Range>, capacity: int, start: int, end: int)
    requires
        ranges_wf(r, capacity),
        0 <= start < end <= capacity,
        end <= u64::MAX,
        disjoint_from_all(r, start, end),
    ensures
        ranges_wf(give_back(r, start, end), capacity),
        total_size(give_back(r, start, end)) == total_size(r) + (end - start),
        forall|x: int, y: int|
            #![trigger disjoint_from_all(give_back(r, start, end), x, y)]
            disjoint_from_all(r, x, y) && x < y && (y <= start || end <= x) ==> disjoint_from_all(
                give_back(r, start, end),
                x,
                y,
            ),
{
    let k = first_after(r, start, 0);
    lemma_first_after_bounds(r, start, 0);
    let g = give_back(r, start, end);
    if k > 0 {
        assert(r[k - 1].start <= start);
        assert(r[k - 1].end <= start);
    }
    if k < r.len() {
        assert(end <= r[k].start);
    }
    let joins_prev = k > 0 && r[k - 1].end == start;
    let joins_next = k < r.len() && r[k].start == end;
    if joins_prev && joins_next {
        let merged = Range { start: r[k - 1].start, end: r[k].end };
        lemma_total_update(r, k - 1, merged);
        lemma_total_remove(r.update(k - 1, merged), k);
        assert forall|i: int, j: int| 0 <= i < j < g.len() implies g[i].end < g[j].start by {
            if j < k - 1 {
            } else if i < k - 1 {
                assert(r[i].end < r[k - 1].start);
            } else {
                assert(g[j] == r[j + 1]);
                assert(r[k].end < r[j + 1].start);
            }
        }
    } else if joins_prev {
        let merged = Range { start: r[k - 1].start, end: end as u64 };
        lemma_total_update(r, k - 1, merged);
    } else if joins_next {
        let merged = Range { start: start as u64, end: r[k].end };
        lemma_total_update(r, k, merged);
    } else {
        let fresh = Range { start: start as u64, end: end as u64 };
        lemma_total_insert(r, k, fresh);
        assert forall|i: int, j: int| 0 <= i < j < g.len() implies g[i].end < g[j].start by {
            if i < k && j > k {
                assert(g[j] == r[j - 1]);
            } else if i > k {
                assert(g[i] == r[i - 1]);
                assert(g[j] == r[j - 1]);
            }
        }
    }
    assert forall|x: int, y: int|
        #![trigger disjoint_from_all(g, x, y)]
        disjoint_from_all(r, x, y) && x < y && (y <= start || end <= x) implies disjoint_from_all(g, x, y) by {
        assert forall|i: int| 0 <= i < g.len() implies g[i].end <= x || y <= g[i].start by {
            if joins_prev && joins_next {
                if i == k - 1 {
                    assert(r[k].end <= x || y <= r[k].start);
                } else if i >= k {
                    assert(g[i] == r[i + 1]);
                }
            } else if !joins_prev && !joins_next {
                if i > k {
                    assert(g[i] == r[i - 1]);
                }
            }
        }
    }
}

/// A leased interval of a device buffer. A slice of size zero stands for
/// "no memory", for a mesh attribute that is not used.
#[derive(Clone, Copy, Debug, PartialEq, Eq, Structural)]
pub struct DeviceSlice {
    pub size: u64,
    pub offset: u64,
    pub alignment: u64,
}

impl DeviceSlice {
    pub fn empty() -> (r: DeviceSlice)
        ensures
            r.size == 0 && r.offset == 0 && r.alignment == 0,
    {
        DeviceSlice { size: 0, offset: 0, alignment: 0 }
    }

    pub open spec fn end(self) -> int {
        self.offset + self.size
    }
}

/// What a device buffer is used for.
#[derive(Clone, Copy, Debug, PartialEq, Eq, Structural)]
pub enum BufferKind {
    GENERAL,
    DESCRIPTOR,
}

/// One host-visible, device-local allocation of fixed size.
#[derive(Clone, Copy, Debug)]
pub struct DeviceBuffer {
    pub size: u64,
    pub alignment: u64,
    pub device_addr: u64,
    pub buffer: ash::vk::Buffer,
    pub memory: ash::vk::DeviceMemory,
    pub type_index: u32,
    pub kind: BufferKind,
}

impl DeviceBuffer {
    /// Widest alignment that a buffer of any kind asks for.
    pub const MAX_ALIGNMENT: u64 = 256;

    /// Rounds `base` up to a multiple of `mul`.
    pub fn next_size(base: u64, mul: u64) -> (r: u64)
        requires
            mul > 0,
            round_up(base as int, mul as int) <= u64::MAX,
        ensures
            r == round_up(base as int, mul as int),
            r % mul == 0,
            base <= r < base + mul,
    {
        let rem = base % mul;
        proof {
            lemma_round_up(base as int, mul as int);
        }
        if rem == 0 {
            base
        } else {
            base - rem + mul
        }
    }

    /// The alignment that slices of a buffer of `kind` must keep: that of the
    /// memory, and for descriptor buffers the wider of it and the device's
    /// descriptor offset alignment.
    pub fn alignment_for(kind: BufferKind, memory_alignment: u64, descriptor_alignment: u64) -> (r:
        u64)
        ensures
            kind == BufferKind::GENERAL ==> r == memory_alignment,
            kind == BufferKind::DESCRIPTOR ==> r == if memory_alignment >= descriptor_alignment {
                memory_alignment
            } else {
                descriptor_alignment
            },
    {
        match kind {
            BufferKind::DESCRIPTOR => if memory_alignment >= descriptor_alignment {
                memory_alignment
            } else {
                descriptor_alignment
            },
            BufferKind::GENERAL => memory_alignment,
        }
    }

    /// Index of the first memory type that the buffer may use (its bit is set
    /// in `type_bits`) and whose property flags hold all of `wanted`.
    pub fn find_memorytype_index(type_bits: u32, type_flags: &Vec<u32>, wanted: u32) -> (r: Option<
        u32,
    >)
        requires
            type_flags@.len() <= 32,
        ensures
            match r {
                Some(i) => i < type_flags@.len() && memory_type_fits(type_bits, type_flags@, wanted, i as int)
                    && forall|j: int| 0 <= j < i ==> !memory_type_fits(type_bits, type_flags@, wanted, j),
                None => forall|j: int|
                    0 <= j < type_flags@.len() ==> !memory_type_fits(type_bits, type_flags@, wanted, j),
            },
    {
        let mut i: usize = 0;
        while i < type_flags.len()
            invariant
                i <= type_flags@.len() <= 32,
                forall|j: int| 0 <= j < i ==> !memory_type_fits(type_bits, type_flags@, wanted, j),
            decreases type_flags@.len() - i,
        {
            let flags = type_flags[i];
            let allowed = (type_bits >> (i as u32)) & 1 == 1;
            if allowed && flags & wanted == wanted {
                return Some(i as u32);
            }
            i += 1;
        }
        None
    }
}

/// Memory type `i` is allowed by `type_bits` and has every flag of `wanted`.
pub open spec fn memory_type_fits(type_bits: u32, type_flags: Seq<u32>, wanted: u32, i: int) -> bool {
    &&& 0 <= i < 32
    &&& (type_bits >> (i as u32)) & 1 == 1
    &&& type_flags[i] & wanted == wanted
}

/// A device buffer together with the list of its free ranges.
pub struct DeviceAllocator {
    ranges: Vec<Range>,
    buffer: DeviceBuffer,
}

impl DeviceAllocator {
    pub closed spec fn free_ranges(&self) -> Seq<Range> {
        self.ranges@
    }

    pub closed spec fn buffer_spec(&self) -> DeviceBuffer {
        self.buffer
    }

    /// The free ranges, in ascending order.
    pub fn ranges(&self) -> (r: &Vec<Range>)
        ensures
            r@ == self.free_ranges(),
    {
        &self.ranges
    }

    pub fn buffer(&self) -> (r: &DeviceBuffer)
        ensures
            *r == self.buffer_spec(),
    {
        &self.buffer
    }

    pub open spec fn wf(&self) -> bool {
        &&& self.buffer_spec().alignment > 0
        &&& ranges_wf(self.free_ranges(), self.buffer_spec().size as int)
    }

    /// Free bytes left, whether or not they form one range.
    pub open spec fn available_spec(&self) -> int {
        total_size(self.free_ranges())
    }

    /// The slice that a request of `size` bytes gets, if any.
    pub open spec fn alloc_result(&self, size: int) -> Option<DeviceSlice> {
        slice_for(self.free_ranges(), self.buffer_spec().alignment as int, size)
    }

    /// The free list after a request of `size` bytes.
    pub open spec fn ranges_after_alloc(&self, size: int) -> Seq<Range> {
        after_take(self.free_ranges(), self.buffer_spec().alignment as int, size)
    }

    /// `slice` lies inside the buffer, is not empty, and none of its bytes is free.
    pub open spec fn can_free(&self, slice: DeviceSlice) -> bool {
        can_free_in(self.free_ranges(), self.buffer_spec().size as int, slice)
    }

    /// Takes `buffer` with all of it free.
    pub fn wrap(buffer: DeviceBuffer) -> (r: DeviceAllocator)
        requires
            buffer.alignment > 0,
        ensures
            r.wf(),
            r.buffer_spec() == buffer,
            buffer.size > 0 ==> r.free_ranges() == seq![Range { start: 0, end: buffer.size }],
            buffer.size == 0 ==> r.free_ranges() == Seq::<Range>::empty(),
            r.available_spec() == buffer.size,
    {
        let mut ranges: Vec<Range> = Vec::new();
        if buffer.size > 0 {
            ranges.push(Range { start: 0, end: buffer.size });
        }
        let r = DeviceAllocator { ranges, buffer };
        proof {
            if buffer.size > 0 {
                assert(r.ranges@.drop_last() =~= Seq::<Range>::empty());
                assert(total_size(r.ranges@.drop_last()) == 0);
            }
        }
        r
    }

    /// Takes `size` bytes, rounded up to the buffer's alignment, from the front
    /// of the first free range that holds them.
    pub fn allocate(&mut self, size: u64) -> (r: Option<DeviceSlice>)
        requires
            old(self).wf(),
        ensures
            final(self).wf(),
            final(self).buffer_spec() == old(self).buffer_spec(),
            r == old(self).alloc_result(size as int),
            final(self).free_ranges() == old(self).ranges_after_alloc(size as int),
            r is Some ==> final(self).available_spec() == old(self).available_spec() - r->0.size,
            r is Some ==> r->0.size >= size && r->0.end() <= final(self).buffer_spec().size,
            r is Some && r->0.size > 0 ==> disjoint_from_all(final(self).free_ranges(), r->0.offset as int, r->0.end()),
            size > old(self).available_spec() ==> r is None,
    {
        let ghost r0 = self.ranges@;
        let align = self.buffer.alignment;
        let rem = size % align;
        proof {
            lemma_round_up(size as int, align as int);
            lemma_total_bounded(r0, self.buffer.size as int);
        }
        if rem != 0 && size - rem > u64::MAX - align {
            proof {
                lemma_first_fit_none(r0, round_up(size as int, align as int), 0);
            }
            return None;
        }
        let sz: u64 = if rem == 0 {
            size
        } else {
            size - rem + align
        };
        assert(sz == round_up(size as int, align as int));
        let mut i: usize = 0;
        while i < self.ranges.len()
            invariant
                self.wf(),
                self.ranges@ == r0,
                r0 == old(self).ranges@,
                self.buffer == old(self).buffer,
                align == self.buffer.alignment,
                sz == round_up(size as int, align as int),
                sz >= size,
                i <= r0.len(),
                first_fit(r0, sz as int, 0) == first_fit(r0, sz as int, i as int),
                ranges_wf(r0, self.buffer.size as int),
                forall|j: int| 0 <= j < r0.len() ==> r0[j].len() <= total_size(r0),
            decreases r0.len() - i,
        {
            let range = self.ranges[i];
            if range.end - range.start >= sz {
                assert(first_fit(r0, sz as int, i as int) == i);
                if range.end - range.start == sz {
                    self.ranges.remove(i);
                    proof {
                        lemma_total_remove(r0, i as int);
                    }
                } else {
                    self.ranges.set(i, Range { start: range.start + sz, end: range.end });
                    proof {
                        lemma_total_update(r0, i as int, Range { start: (range.start + sz) as u64, end: range.end });
                    }
                }
                assert(self.ranges@ == take_front(r0, i as int, sz as int));
                let slice = DeviceSlice { size: sz, offset: range.start, alignment: align };
                proof {
                    if sz > 0 {
                        lemma_take_front_disjoint(r0, self.buffer.size as int, i as int, sz as int);
                    }
                }
                return Some(slice);
            }
            i += 1;
        }
        None
    }

    /// Returns `slice` to the free list, merged with the free ranges on
    /// either side of it. A slice that is empty, reaches past the buffer or
    /// overlaps free bytes (one freed twice) is refused and nothing changes.
    pub fn free(&mut self, slice: DeviceSlice) -> (ok: bool)
        requires
            old(self).wf(),
        ensures
            final(self).wf(),
            final(self).buffer_spec() == old(self).buffer_spec(),
            ok == old(self).can_free(slice),
            final(self).free_ranges() == after_free(
                old(self).free_ranges(),
                old(self).buffer_spec().size as int,
                slice,
            ),
            ok ==> final(self).available_spec() == old(self).available_spec() + slice.size,
    {
        let ghost r0 = self.ranges@;
        if slice.size == 0 || slice.offset > self.buffer.size || slice.size > self.buffer.size
            - slice.offset {
            return false;
        }
        let s = slice.offset;
        let e = s + slice.size;
        let n = self.ranges.len();
        let mut k: usize = 0;
        while k < n && self.ranges[k].start <= s
            invariant
                self.ranges@ == r0,
                n == r0.len(),
                k <= n,
                first_after(r0, s as int, 0) == first_after(r0, s as int, k as int),
            decreases n - k,
        {
            k += 1;
        }
        proof {
            lemma_first_after_bounds(r0, s as int, 0);
        }
        assert(k == first_after(r0, s as int, 0));
        if k > 0 && self.ranges[k - 1].end > s {
            assert(!disjoint_from_all(r0, s as int, e as int)) by {
                assert(r0[k - 1].start <= s);
            }
            return false;
        }
        if k < n && self.ranges[k].start < e {
            assert(!disjoint_from_all(r0, s as int, e as int)) by {
                assert(r0[k as int].start > s);
            }
            return false;
        }
        assert(disjoint_from_all(r0, s as int, e as int)) by {
            assert forall|j: int| 0 <= j < r0.len() implies r0[j].end <= s || e <= r0[j].start by {
                if j < k - 1 {
                    assert(r0[j].end < r0[k - 1].start);
                } else if j > k {
                    assert(r0[k as int].end < r0[j].start);
                }
            }
        }
        proof {
            lemma_give_back(r0, self.buffer.size as int, s as int, e as int);
        }
        let joins_prev = k > 0 && self.ranges[k - 1].end == s;
        let joins_next = k < n && self.ranges[k].start == e;
        if joins_prev && joins_next {
            let p = self.ranges[k - 1];
            let q = self.ranges[k];
            let merged = Range { start: p.start, end: q.end };
            self.ranges.set(k - 1, merged);
            self.ranges.remove(k);
        } else if joins_prev {
            let p = self.ranges[k - 1];
            let merged = Range { start: p.start, end: e };
            self.ranges.set(k - 1, merged);
        } else if joins_next {
            let q = self.ranges[k];
            let merged = Range { start: s, end: q.end };
            self.ranges.set(k, merged);
        } else {
            let fresh = Range { start: s, end: e };
            self.ranges.insert(k, fresh);
        }
        assert(self.ranges@ == give_back(r0, s as int, e as int));
        assert(can_free_in(r0, self.buffer.size as int, slice));
        true
    }

    /// Free bytes left, whether or not they form one range.
    pub fn available(&self) -> (r: u64)
        requires
            self.wf(),
        ensures
            r == self.available_spec(),
    {
        let ghost rs = self.ranges@;
        let mut total: u64 = 0;
        let mut i: usize = 0;
        while i < self.ranges.len()
            invariant
                self.wf(),
                rs == self.ranges@,
                i <= rs.len(),
                total == total_size(rs.subrange(0, i as int)),
            decreases rs.len() - i,
        {
            let range = self.ranges[i];
            proof {
                let p = rs.subrange(0, i as int + 1);
                assert(p.drop_last() =~= rs.subrange(0, i as int));
                assert(ranges_wf(p, self.buffer.size as int));
                lemma_total_bounded(p, self.buffer.size as int);
            }
            total = total + (range.end - range.start);
            i += 1;
        }
        assert(rs.subrange(0, i as int) =~= rs);
        total
    }
}

} // verus!

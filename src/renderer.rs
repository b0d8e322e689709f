//! The renderer's bookkeeping: mesh and texture tables backed by slices of
//! one device buffer, per-kind task batches, and the texture uploads that
//! wait for the timeline counter before their staging memory is reclaimed.
use vstd::prelude::*;
use std::collections::HashMap;
use bitvec::order::Lsb0;
use bitvec::vec::BitVec;
use crate::frame::{signal_value, signal_value_for};
use crate::buffer::{
    DeviceAllocator, DeviceSlice, Range, after_free, after_take, lemma_alloc_free_round_trip,
    ranges_wf, slice_for,
};

verus! {

broadcast use vstd::std_specs::hash::group_hash_axioms;

/// A fixed-length set of bits, held in a `bitvec` bit-vector whose
/// contents the proofs see only through `bits_of`.
#[verifier::external_body]
pub struct IdBits {
    bits: BitVec<usize, Lsb0>,
}

/// The bits that a bit-vector holds, in order.
pub uninterp spec fn bits_of(b: IdBits) -> Seq<bool>;

/// Relies on `BitVec::repeat`: `len` bits, all of them `bit`. It panics
/// only on a length that its encoding cannot hold.
#[verifier::external_body]
fn bits_repeat(bit: bool, len: usize) -> (r: IdBits)
    requires
        len <= usize::MAX / 8,
    ensures
        bits_of(r) == Seq::new(len as nat, |_i: int| bit),
{
    IdBits { bits: BitVec::repeat(bit, len) }
}

/// Relies on `BitSlice::first_zero`: the index of the first bit that is
/// clear, or `None` when every bit is set.
#[verifier::external_body]
fn bits_first_zero(b: &IdBits) -> (r: Option<usize>)
    ensures
        match r {
            Some(i) => i < bits_of(*b).len() && !bits_of(*b)[i as int] && forall|j: int|
                0 <= j < i ==> bits_of(*b)[j],
            None => forall|j: int| 0 <= j < bits_of(*b).len() ==> bits_of(*b)[j],
        },
{
    b.bits.first_zero()
}

/// Relies on `BitSlice::set`: bit `index` becomes `value`, the others stay.
/// It panics on an index past the end.
#[verifier::external_body]
fn bits_set(b: &mut IdBits, index: usize, value: bool)
    requires
        index < bits_of(*old(b)).len(),
    ensures
        bits_of(*final(b)) == bits_of(*old(b)).update(index as int, value),
{
    b.bits.set(index, value)
}

/// How many meshes can be alive at once.
pub const MAX_MESHES: usize = 1024;

/// Why a resource could not be created.
#[derive(Clone, Copy, Debug, PartialEq, Eq, Structural)]
pub enum RenderError {
    /// No free range of the general buffer holds the requested size.
    OutOfDeviceMemory,
    /// Every mesh ID is in use.
    OutOfMeshIds,
    /// Every slot of the image descriptor table is in use.
    OutOfTextureSlots,
}

/// The four attribute slices of a mesh and its vertex count. An attribute
/// that is not used has an empty slice.
#[derive(Clone, Copy, Debug, PartialEq, Eq, Structural)]
pub struct MeshBuffer {
    pub vertices: DeviceSlice,
    pub normals: DeviceSlice,
    pub tex_coords: DeviceSlice,
    pub indices: DeviceSlice,
    pub count: u32,
}

/// The slice that a mesh attribute of `size` bytes leases from free list `r`,
/// and the free list after it; an empty slice for size zero.
pub open spec fn lease(r: Seq<Range>, align: int, size: u32) -> Option<(Seq<Range>, DeviceSlice)> {
    if size == 0 {
        Some((r, DeviceSlice { size: 0, offset: 0, alignment: 0 }))
    } else {
        match slice_for(r, align, size as int) {
            Some(slice) => Some((after_take(r, align, size as int), slice)),
            None => None,
        }
    }
}

/// The free list and the mesh after its four attributes are leased in
/// order, or `None` when one of them does not fit.
pub open spec fn mesh_leases(
    r: Seq<Range>,
    align: int,
    vertices_size: u32,
    normals_size: u32,
    tex_coords_size: u32,
    indices_size: u32,
    count: u32,
) -> Option<(Seq<Range>, MeshBuffer)> {
    match lease(r, align, vertices_size) {
        None => None,
        Some((r1, vertices)) => match lease(r1, align, normals_size) {
            None => None,
            Some((r2, normals)) => match lease(r2, align, tex_coords_size) {
                None => None,
                Some((r3, tex_coords)) => match lease(r3, align, indices_size) {
                    None => None,
                    Some((r4, indices)) => Some(
                        (r4, MeshBuffer { vertices, normals, tex_coords, indices, count }),
                    ),
                },
            },
        },
    }
}

/// Free list `r` after the four slices of `mesh` are given back in order.
pub open spec fn mesh_released(r: Seq<Range>, capacity: int, mesh: MeshBuffer) -> Seq<Range> {
    after_free(
        after_free(
            after_free(after_free(r, capacity, mesh.vertices), capacity, mesh.normals),
            capacity,
            mesh.tex_coords,
        ),
        capacity,
        mesh.indices,
    )
}

/// `id` is the lowest index whose bit is clear.
pub open spec fn lowest_clear(bits: Seq<bool>, id: int) -> bool {
    &&& 0 <= id < bits.len()
    &&& !bits[id]
    &&& forall|j: int| 0 <= j < id ==> bits[j]
}

/// Reissuing a mesh ID: when `id` is the lowest clear bit, setting it and
/// clearing it again leaves `id` the lowest clear bit, so the next mesh gets
/// the same ID.
pub proof fn lemma_mesh_id_reuse(bits: Seq<bool>, id: int)
    requires
        lowest_clear(bits, id),
    ensures
        bits.update(id, true).update(id, false) == bits,
        lowest_clear(bits.update(id, true).update(id, false), id),
{
    assert(bits.update(id, true).update(id, false) =~= bits);
}

/// Mesh ID that the test triangle takes when the renderer is set up.
pub const ID_TEST_TRIANGLE: u32 = 0;

/// How many samplers the sampler descriptor table holds.
pub const MAX_SAMPLERS: u32 = 32;

/// A texture's bookkeeping. `staging` holds the slice with its pixel data
/// while an upload is pending or in flight, and is `None` once the image is
/// resident on the device.
#[derive(Clone, Debug)]
pub struct Texture {
    pub id: u32,
    pub name: String,
    pub staging: Option<DeviceSlice>,
}

/// Free list and texture table after the pending upload `entry` is looked
/// at with the timeline counter at `counter`: once the counter has reached
/// the entry's value, the texture's staging slice is given back and cleared.
/// A texture without a staging slice is left alone, so no slice is freed twice.
pub open spec fn reclaim_step(
    st: (Seq<Range>, Map<u32, Texture>),
    entry: (u32, u64),
    capacity: int,
    counter: u64,
) -> (Seq<Range>, Map<u32, Texture>) {
    let id = entry.0;
    if entry.1 <= counter && st.1.contains_key(id) && st.1[id].staging is Some {
        let t = st.1[id];
        (
            after_free(st.0, capacity, t.staging->0),
            st.1.insert(id, Texture { id: t.id, name: t.name, staging: None }),
        )
    } else {
        st
    }
}

/// Free list and texture table after the pending uploads `entries` are
/// looked at in order.
pub open spec fn reclaim_all(
    st: (Seq<Range>, Map<u32, Texture>),
    entries: Seq<(u32, u64)>,
    capacity: int,
    counter: u64,
) -> (Seq<Range>, Map<u32, Texture>)
    decreases entries.len(),
{
    if entries.len() == 0 {
        st
    } else {
        reclaim_step(reclaim_all(st, entries.drop_last(), capacity, counter), entries.last(), capacity, counter)
    }
}

/// The pending uploads whose value the counter has not reached, in order.
pub open spec fn still_pending(entries: Seq<(u32, u64)>, counter: u64) -> Seq<(u32, u64)>
    decreases entries.len(),
{
    if entries.len() == 0 {
        entries
    } else if entries.last().1 > counter {
        still_pending(entries.drop_last(), counter).push(entries.last())
    } else {
        still_pending(entries.drop_last(), counter)
    }
}

/// Upload lifecycle: once the counter has reached the value recorded for a
/// texture's upload, reclaiming leaves the texture in the table with no
/// staging slice, that is, uploaded; and no texture leaves the table.
pub proof fn lemma_upload_completes(
    st: (Seq<Range>, Map<u32, Texture>),
    entries: Seq<(u32, u64)>,
    capacity: int,
    counter: u64,
    j: int,
)
    requires
        0 <= j < entries.len(),
        entries[j].1 <= counter,
        st.1.contains_key(entries[j].0),
    ensures
        reclaim_all(st, entries, capacity, counter).1.contains_key(entries[j].0),
        reclaim_all(st, entries, capacity, counter).1[entries[j].0].staging is None,
    decreases entries.len(),
{
    lemma_reclaim_keeps_textures(st, entries, capacity, counter);
    let id = entries[j].0;
    if j < entries.len() - 1 {
        assert(entries.drop_last()[j] == entries[j]);
        lemma_upload_completes(st, entries.drop_last(), capacity, counter, j);
        let mid = reclaim_all(st, entries.drop_last(), capacity, counter);
        let e = entries.last();
        if e.0 != id {
            assert(reclaim_step(mid, e, capacity, counter).1[id] == mid.1[id]);
        }
    } else {
        lemma_reclaim_keeps_textures(st, entries.drop_last(), capacity, counter);
    }
}

/// Reclaiming keeps every texture in the table, and an uploaded texture stays
/// uploaded.
pub proof fn lemma_reclaim_keeps_textures(
    st: (Seq<Range>, Map<u32, Texture>),
    entries: Seq<(u32, u64)>,
    capacity: int,
    counter: u64,
)
    ensures
        reclaim_all(st, entries, capacity, counter).1.dom() == st.1.dom(),
        forall|id: u32| #[trigger] st.1.contains_key(id) && st.1[id].staging is None
            ==> reclaim_all(st, entries, capacity, counter).1[id] == st.1[id],
    decreases entries.len(),
{
    if entries.len() > 0 {
        lemma_reclaim_keeps_textures(st, entries.drop_last(), capacity, counter);
        let mid = reclaim_all(st, entries.drop_last(), capacity, counter);
        let e = entries.last();
        if e.1 <= counter && mid.1.contains_key(e.0) && mid.1[e.0].staging is Some {
            assert(reclaim_step(mid, e, capacity, counter).1.dom() =~= mid.1.dom());
        }
    }
}

/// Leases `size` bytes of `allocator`, or an empty slice for none.
fn lease_from(allocator: &mut DeviceAllocator, size: u32) -> (r: Option<DeviceSlice>)
    requires
        old(allocator).wf(),
    ensures
        final(allocator).wf(),
        final(allocator).buffer_spec() == old(allocator).buffer_spec(),
        match lease(
            old(allocator).free_ranges(),
            old(allocator).buffer_spec().alignment as int,
            size,
        ) {
            Some((rs, slice)) => r == Some(slice) && final(allocator).free_ranges() == rs
                && after_free(rs, old(allocator).buffer_spec().size as int, slice)
                == old(allocator).free_ranges(),
            None => r is None && final(allocator).free_ranges() == old(allocator).free_ranges(),
        },
{
    if size == 0 {
        return Some(DeviceSlice::empty());
    }
    proof {
        lemma_alloc_free_round_trip(
            allocator.free_ranges(),
            allocator.buffer_spec().size as int,
            allocator.buffer_spec().alignment as int,
            size as int,
        );
    }
    allocator.allocate(size as u64)
}

/// Gives `slice` back to `allocator`; an empty slice is skipped.
fn release_to(allocator: &mut DeviceAllocator, slice: DeviceSlice)
    requires
        old(allocator).wf(),
    ensures
        final(allocator).wf(),
        final(allocator).buffer_spec() == old(allocator).buffer_spec(),
        final(allocator).free_ranges() == after_free(
            old(allocator).free_ranges(),
            old(allocator).buffer_spec().size as int,
            slice,
        ),
{
    if slice.size > 0 {
        allocator.free(slice);
    }
}

pub struct Renderer<Task> {
    general_allocator: DeviceAllocator,
    mesh_buffers_by_id: HashMap<u32, MeshBuffer>,
    mesh_buffer_ids: IdBits,
    textures_by_id: HashMap<u32, Texture>,
    image_slots_used: u32,
    image_slot_capacity: u32,
    batches_by_task_type: Vec<Vec<Task>>,
    optimal_transition_queue: Vec<u32>,
    ongoing_optimal_transitions: Vec<(u32, u64)>,
    current_frame: u64,
    total_stages: u64,
}

impl<Task> Renderer<Task> {
    pub closed spec fn allocator(&self) -> DeviceAllocator {
        self.general_allocator
    }

    pub closed spec fn meshes(&self) -> Map<u32, MeshBuffer> {
        self.mesh_buffers_by_id@
    }

    pub closed spec fn mesh_ids(&self) -> Seq<bool> {
        bits_of(self.mesh_buffer_ids)
    }

    pub closed spec fn textures(&self) -> Map<u32, Texture> {
        self.textures_by_id@
    }

    /// Texture slots of the image descriptor table in use, and their number.
    pub closed spec fn texture_slots(&self) -> (u32, u32) {
        (self.image_slots_used, self.image_slot_capacity)
    }

    /// Textures queued for upload this frame.
    pub closed spec fn upload_queue(&self) -> Seq<u32> {
        self.optimal_transition_queue@
    }

    /// Uploads recorded, each with the counter value that completes it.
    pub closed spec fn uploads_in_flight(&self) -> Seq<(u32, u64)> {
        self.ongoing_optimal_transitions@
    }

    pub closed spec fn batches(&self) -> Seq<Seq<Task>> {
        Seq::new(self.batches_by_task_type@.len(), |i: int| self.batches_by_task_type@[i]@)
    }

    pub closed spec fn frame(&self) -> u64 {
        self.current_frame
    }

    pub closed spec fn stages(&self) -> u64 {
        self.total_stages
    }

    pub closed spec fn free_ranges(&self) -> Seq<Range> {
        self.general_allocator.free_ranges()
    }

    pub closed spec fn alignment(&self) -> int {
        self.general_allocator.buffer_spec().alignment as int
    }

    pub closed spec fn capacity(&self) -> int {
        self.general_allocator.buffer_spec().size as int
    }

    /// Everything but the mesh table and the free list is as in `o`.
    pub open spec fn same_but_meshes(&self, o: &Self) -> bool {
        &&& self.textures() == o.textures()
        &&& self.texture_slots() == o.texture_slots()
        &&& self.upload_queue() == o.upload_queue()
        &&& self.uploads_in_flight() == o.uploads_in_flight()
        &&& self.batches() == o.batches()
        &&& self.frame() == o.frame()
        &&& self.stages() == o.stages()
        &&& self.alignment() == o.alignment()
        &&& self.capacity() == o.capacity()
    }

    /// Everything but the free list, the texture table and the upload
    /// records is as in `o`.
    pub open spec fn same_but_uploads(&self, o: &Self) -> bool {
        &&& self.meshes() == o.meshes()
        &&& self.mesh_ids() == o.mesh_ids()
        &&& self.texture_slots() == o.texture_slots()
        &&& self.batches() == o.batches()
        &&& self.frame() == o.frame()
        &&& self.stages() == o.stages()
        &&& self.alignment() == o.alignment()
        &&& self.capacity() == o.capacity()
    }

    pub closed spec fn wf(&self) -> bool {
        &&& self.general_allocator.wf()
        &&& bits_of(self.mesh_buffer_ids).len() == MAX_MESHES
        &&& forall|i: int|
            0 <= i < MAX_MESHES ==> (#[trigger] bits_of(self.mesh_buffer_ids)[i]
                <==> self.mesh_buffers_by_id@.contains_key(i as u32))
        &&& forall|k: u32| #[trigger] self.mesh_buffers_by_id@.contains_key(k) ==> k < MAX_MESHES
        &&& self.image_slots_used <= self.image_slot_capacity
        &&& forall|k: u32| #[trigger] self.textures_by_id@.contains_key(k) ==> k < self.image_slots_used
    }

    /// Creates a mesh: leases its four attribute slices in order (none for
    /// a size of zero) and takes the lowest free mesh ID. On failure nothing
    /// changes.
    pub fn gen_mesh(
        &mut self,
        vertices_size: u32,
        normals_size: u32,
        tex_coords_size: u32,
        indices_size: u32,
        count: u32,
    ) -> (r: Result<u32, RenderError>)
        requires
            old(self).wf(),
        ensures
            final(self).wf(),
            final(self).same_but_meshes(old(self)),
            ({
                let plan = mesh_leases(
                    old(self).free_ranges(),
                    old(self).alignment(),
                    vertices_size,
                    normals_size,
                    tex_coords_size,
                    indices_size,
                    count,
                );
                let has_id = exists|i: int| 0 <= i < MAX_MESHES && !old(self).mesh_ids()[i];
                match r {
                    Ok(id) => has_id && lowest_clear(old(self).mesh_ids(), id as int) && match plan {
                        Some((rs, mesh)) => final(self).meshes() == old(self).meshes().insert(id, mesh)
                            && final(self).mesh_ids() == old(self).mesh_ids().update(id as int, true)
                            && final(self).free_ranges() == rs,
                        None => false,
                    },
                    Err(e) => (if !has_id {
                        e == RenderError::OutOfMeshIds
                    } else {
                        plan is None && e == RenderError::OutOfDeviceMemory
                    }) && final(self).meshes() == old(self).meshes()
                        && final(self).mesh_ids() == old(self).mesh_ids()
                        && final(self).free_ranges() == old(self).free_ranges(),
                }
            }),
    {
        let id = match bits_first_zero(&self.mesh_buffer_ids) {
            Some(i) => i,
            None => {
                return Err(RenderError::OutOfMeshIds);
            },
        };
        assert(!self.mesh_ids()[id as int]);
        let vertices = match lease_from(&mut self.general_allocator, vertices_size) {
            Some(s) => s,
            None => {
                return Err(RenderError::OutOfDeviceMemory);
            },
        };
        let normals = match lease_from(&mut self.general_allocator, normals_size) {
            Some(s) => s,
            None => {
                release_to(&mut self.general_allocator, vertices);
                return Err(RenderError::OutOfDeviceMemory);
            },
        };
        let tex_coords = match lease_from(&mut self.general_allocator, tex_coords_size) {
            Some(s) => s,
            None => {
                release_to(&mut self.general_allocator, normals);
                release_to(&mut self.general_allocator, vertices);
                return Err(RenderError::OutOfDeviceMemory);
            },
        };
        let indices = match lease_from(&mut self.general_allocator, indices_size) {
            Some(s) => s,
            None => {
                release_to(&mut self.general_allocator, tex_coords);
                release_to(&mut self.general_allocator, normals);
                release_to(&mut self.general_allocator, vertices);
                return Err(RenderError::OutOfDeviceMemory);
            },
        };
        let mesh_id = id as u32;
        bits_set(&mut self.mesh_buffer_ids, id, true);
        self.mesh_buffers_by_id.insert(mesh_id, MeshBuffer { vertices, normals, tex_coords, indices, count });
        proof {
            assert forall|i: int|
                0 <= i < MAX_MESHES implies (#[trigger] bits_of(self.mesh_buffer_ids)[i]
                <==> self.mesh_buffers_by_id@.contains_key(i as u32)) by {
                if i != id {
                    assert(i as u32 != mesh_id);
                }
            }
        }
        Ok(mesh_id)
    }

    /// Destroys mesh `id`: gives its slices back and frees its ID.
    pub fn free_mesh(&mut self, id: u32)
        requires
            old(self).wf(),
            old(self).meshes().contains_key(id),
        ensures
            final(self).wf(),
            final(self).meshes() == old(self).meshes().remove(id),
            final(self).mesh_ids() == old(self).mesh_ids().update(id as int, false),
            final(self).free_ranges() == mesh_released(
                old(self).free_ranges(),
                old(self).capacity(),
                old(self).meshes()[id],
            ),
            final(self).same_but_meshes(old(self)),
    {
        let mesh = match self.mesh_buffers_by_id.remove(&id) {
            Some(m) => m,
            None => {
                return;
            },
        };
        release_to(&mut self.general_allocator, mesh.vertices);
        release_to(&mut self.general_allocator, mesh.normals);
        release_to(&mut self.general_allocator, mesh.tex_coords);
        release_to(&mut self.general_allocator, mesh.indices);
        bits_set(&mut self.mesh_buffer_ids, id as usize, false);
        proof {
            assert forall|i: int|
                0 <= i < MAX_MESHES implies (#[trigger] bits_of(self.mesh_buffer_ids)[i]
                <==> self.mesh_buffers_by_id@.contains_key(i as u32)) by {
                if i != id {
                    assert(i as u32 != id);
                }
            }
        }
    }

    /// The mesh with `id`, if there is one.
    pub fn fetch_mesh(&self, id: u32) -> (r: Option<&MeshBuffer>)
        ensures
            match r {
                Some(m) => self.meshes().contains_key(id) && *m == self.meshes()[id],
                None => !self.meshes().contains_key(id),
            },
    {
        self.mesh_buffers_by_id.get(&id)
    }

    /// The mesh with `id`, which must exist.
    pub fn fetch_mesh_or_fail(&self, id: u32) -> (r: &MeshBuffer)
        requires
            self.meshes().contains_key(id),
        ensures
            *r == self.meshes()[id],
    {
        match self.mesh_buffers_by_id.get(&id) {
            Some(m) => m,
            None => {
                proof {
                    assert(false);
                }
                self.mesh_buffers_by_id.get(&id).unwrap()
            },
        }
    }

    /// A renderer with empty tables over `general_allocator`, with
    /// `task_kinds` empty batches, `total_stages` stages per frame and
    /// `image_slot_capacity` texture slots, at frame zero.
    pub fn new(
        general_allocator: DeviceAllocator,
        task_kinds: usize,
        total_stages: u64,
        image_slot_capacity: u32,
    ) -> (r: Self)
        requires
            general_allocator.wf(),
        ensures
            r.wf(),
            r.allocator() == general_allocator,
            r.meshes() == Map::<u32, MeshBuffer>::empty(),
            r.mesh_ids() == Seq::new(MAX_MESHES as nat, |_i: int| false),
            r.textures() == Map::<u32, Texture>::empty(),
            r.texture_slots() == (0u32, image_slot_capacity),
            r.upload_queue() == Seq::<u32>::empty(),
            r.uploads_in_flight() == Seq::<(u32, u64)>::empty(),
            r.batches() == Seq::new(task_kinds as nat, |_i: int| Seq::<Task>::empty()),
            r.frame() == 0,
            r.stages() == total_stages,
    {
        let mut batches_by_task_type: Vec<Vec<Task>> = Vec::new();
        let mut i: usize = 0;
        while i < task_kinds
            invariant
                i <= task_kinds,
                batches_by_task_type@.len() == i,
                forall|j: int| 0 <= j < i ==> batches_by_task_type@[j]@ == Seq::<Task>::empty(),
            decreases task_kinds - i,
        {
            batches_by_task_type.push(Vec::new());
            i += 1;
        }
        let r = Renderer {
            general_allocator,
            mesh_buffers_by_id: HashMap::new(),
            mesh_buffer_ids: bits_repeat(false, MAX_MESHES),
            textures_by_id: HashMap::new(),
            image_slots_used: 0,
            image_slot_capacity,
            batches_by_task_type,
            optimal_transition_queue: Vec::new(),
            ongoing_optimal_transitions: Vec::new(),
            current_frame: 0,
            total_stages,
        };
        assert(r.batches() =~= Seq::new(task_kinds as nat, |_i: int| Seq::<Task>::empty()));
        r
    }

    /// Creates a texture in the next free slot of the image descriptor
    /// table, with a staging slice of `staging_size` bytes for its pixel data
    /// (none for zero). On failure nothing changes.
    pub fn gen_texture(&mut self, name: String, staging_size: u32) -> (r: Result<u32, RenderError>)
        requires
            old(self).wf(),
        ensures
            final(self).wf(),
            final(self).meshes() == old(self).meshes(),
            final(self).mesh_ids() == old(self).mesh_ids(),
            final(self).upload_queue() == old(self).upload_queue(),
            final(self).uploads_in_flight() == old(self).uploads_in_flight(),
            final(self).batches() == old(self).batches(),
            final(self).frame() == old(self).frame(),
            final(self).stages() == old(self).stages(),
            final(self).alignment() == old(self).alignment(),
            final(self).capacity() == old(self).capacity(),
            ({
                let (used, capacity) = old(self).texture_slots();
                let plan = lease(old(self).free_ranges(), old(self).alignment(), staging_size);
                match r {
                    Ok(id) => used < capacity && id == used && match plan {
                        Some((rs, slice)) => final(self).free_ranges() == rs
                            && final(self).textures() == old(self).textures().insert(
                            id,
                            Texture {
                                id,
                                name: name,
                                staging: if staging_size > 0 {
                                    Some(slice)
                                } else {
                                    None
                                },
                            },
                        ) && final(self).texture_slots() == ((used + 1) as u32, capacity),
                        None => false,
                    },
                    Err(e) => (if used >= capacity {
                        e == RenderError::OutOfTextureSlots
                    } else {
                        plan is None && e == RenderError::OutOfDeviceMemory
                    }) && final(self).textures() == old(self).textures()
                        && final(self).texture_slots() == old(self).texture_slots()
                        && final(self).free_ranges() == old(self).free_ranges(),
                }
            }),
    {
        if self.image_slots_used >= self.image_slot_capacity {
            return Err(RenderError::OutOfTextureSlots);
        }
        let texture_id = self.image_slots_used;
        let slice = match lease_from(&mut self.general_allocator, staging_size) {
            Some(s) => s,
            None => {
                return Err(RenderError::OutOfDeviceMemory);
            },
        };
        let staging = if staging_size > 0 {
            Some(slice)
        } else {
            None
        };
        self.textures_by_id.insert(texture_id, Texture { id: texture_id, name, staging });
        self.image_slots_used = texture_id + 1;
        Ok(texture_id)
    }

    /// The texture with `id`, if there is one.
    pub fn fetch_texture(&self, id: u32) -> (r: Option<&Texture>)
        ensures
            match r {
                Some(t) => self.textures().contains_key(id) && *t == self.textures()[id],
                None => !self.textures().contains_key(id),
            },
    {
        self.textures_by_id.get(&id)
    }

    /// Queues texture `id` to have its layout made optimal for sampling in
    /// the next frame.
    pub fn queue_texture_for_uploading(&mut self, id: u32)
        requires
            old(self).wf(),
            old(self).textures().contains_key(id),
        ensures
            final(self).wf(),
            final(self).upload_queue() == old(self).upload_queue().push(id),
            final(self).uploads_in_flight() == old(self).uploads_in_flight(),
            final(self).textures() == old(self).textures(),
            final(self).same_but_uploads(old(self)),
    {
        self.optimal_transition_queue.push(id);
    }

    /// Whether texture `id` is resident, that is, holds no staging slice.
    pub fn is_texture_uploaded(&self, id: u32) -> (r: bool)
        requires
            self.textures().contains_key(id),
        ensures
            r == (self.textures()[id].staging is None),
    {
        match self.textures_by_id.get(&id) {
            Some(t) => t.staging.is_none(),
            None => false,
        }
    }

    /// Takes the textures queued this frame, for their layout transitions to
    /// be recorded, and marks each as in flight until the counter reaches the
    /// value of the first stage of the next frame.
    pub fn begin_texture_transitions(&mut self) -> (ids: Vec<u32>)
        requires
            old(self).wf(),
            old(self).frame() < u64::MAX,
            signal_value(old(self).frame() + 1, 0, old(self).stages() as int) <= u64::MAX,
        ensures
            final(self).wf(),
            ids@ == old(self).upload_queue(),
            final(self).upload_queue() == Seq::<u32>::empty(),
            final(self).uploads_in_flight() == old(self).uploads_in_flight() + old(self).upload_queue().map_values(
                |id: u32|
                    (id, signal_value(old(self).frame() + 1, 0, old(self).stages() as int) as u64),
            ),
            final(self).textures() == old(self).textures(),
            final(self).same_but_uploads(old(self)),
    {
        let value = signal_value_for(self.current_frame + 1, 0, self.total_stages);
        let ghost added = self.optimal_transition_queue@.map_values(|id: u32| (id, value));
        let mut ids: Vec<u32> = Vec::new();
        let mut i: usize = 0;
        while i < self.optimal_transition_queue.len()
            invariant
                self.wf(),
                self.optimal_transition_queue@ == old(self).optimal_transition_queue@,
                self.textures_by_id@ == old(self).textures_by_id@,
                self.same_but_uploads(old(self)),
                added == old(self).optimal_transition_queue@.map_values(|id: u32| (id, value)),
                i <= self.optimal_transition_queue@.len(),
                ids@ == self.optimal_transition_queue@.subrange(0, i as int),
                self.ongoing_optimal_transitions@ == old(self).ongoing_optimal_transitions@
                    + added.subrange(0, i as int),
            decreases self.optimal_transition_queue@.len() - i,
        {
            let id = self.optimal_transition_queue[i];
            ids.push(id);
            self.ongoing_optimal_transitions.push((id, value));
            proof {
                assert(ids@ =~= self.optimal_transition_queue@.subrange(0, i as int + 1));
                assert(self.ongoing_optimal_transitions@ =~= old(self).ongoing_optimal_transitions@
                    + added.subrange(0, i as int + 1));
            }
            i += 1;
        }
        self.optimal_transition_queue.clear();
        proof {
            assert(ids@ =~= old(self).optimal_transition_queue@);
            assert(added.subrange(0, i as int) =~= added);
        }
        ids
    }

    /// Reclaims the uploads that the counter, at `counter`, shows complete:
    /// frees their staging slices and marks their textures uploaded. Returns
    /// whether any was reclaimed, so that the image descriptors go to the
    /// device again.
    pub fn reclaim_completed_uploads(&mut self, counter: u64) -> (reclaimed: bool)
        requires
            old(self).wf(),
        ensures
            final(self).wf(),
            (final(self).free_ranges(), final(self).textures()) == reclaim_all(
                (old(self).free_ranges(), old(self).textures()),
                old(self).uploads_in_flight(),
                old(self).capacity(),
                counter,
            ),
            final(self).uploads_in_flight() == still_pending(old(self).uploads_in_flight(), counter),
            reclaimed == (final(self).uploads_in_flight().len() < old(self).uploads_in_flight().len()),
            final(self).upload_queue() == old(self).upload_queue(),
            final(self).same_but_uploads(old(self)),
    {
        let ghost entries = self.ongoing_optimal_transitions@;
        let ghost cap = self.capacity();
        let n = self.ongoing_optimal_transitions.len();
        let mut kept: Vec<(u32, u64)> = Vec::new();
        let mut i: usize = 0;
        while i < n
            invariant
                self.wf(),
                n == entries.len(),
                entries == old(self).ongoing_optimal_transitions@,
                self.ongoing_optimal_transitions@ == entries,
                cap == old(self).capacity(),
                self.capacity() == cap,
                self.alignment() == old(self).alignment(),
                self.textures_by_id@.dom() == old(self).textures_by_id@.dom(),
                self.same_but_uploads(old(self)),
                self.upload_queue() == old(self).upload_queue(),
                i <= n,
                (self.free_ranges(), self.textures()) == reclaim_all(
                    (old(self).free_ranges(), old(self).textures()),
                    entries.subrange(0, i as int),
                    cap,
                    counter,
                ),
                kept@ == still_pending(entries.subrange(0, i as int), counter),
                kept@.len() <= i,
            decreases n - i,
        {
            let entry = self.ongoing_optimal_transitions[i];
            let id = entry.0;
            proof {
                assert(entries.subrange(0, i as int + 1).drop_last() =~= entries.subrange(0, i as int));
                assert(entries.subrange(0, i as int + 1).last() == entry);
            }
            if entry.1 > counter {
                kept.push(entry);
            } else {
                match self.textures_by_id.remove(&id) {
                    Some(t) => {
                        match t.staging {
                            Some(slice) => {
                                release_to(&mut self.general_allocator, slice);
                                self.textures_by_id.insert(
                                    id,
                                    Texture { id: t.id, name: t.name, staging: None },
                                );
                            },
                            None => {
                                self.textures_by_id.insert(id, t);
                            },
                        }
                    },
                    None => {},
                }
            }
            proof {
                assert(self.textures_by_id@.dom() =~= old(self).textures_by_id@.dom());
                let before = reclaim_all(
                    (old(self).free_ranges(), old(self).textures()),
                    entries.subrange(0, i as int),
                    cap,
                    counter,
                );
                let after = reclaim_step(before, entry, cap, counter);
                assert(self.textures() =~= after.1);
            }
            i += 1;
        }
        assert(entries.subrange(0, n as int) =~= entries);
        let reclaimed = kept.len() < n;
        self.ongoing_optimal_transitions = kept;
        reclaimed
    }

    /// Adds `task` to the batch of its kind, `kind`; a kind past the last
    /// batch is ignored.
    pub fn add_task_to_queue(&mut self, kind: usize, task: Task)
        requires
            old(self).wf(),
        ensures
            final(self).wf(),
            kind < old(self).batches().len() ==> final(self).batches() == old(self).batches().update(
                kind as int,
                old(self).batches()[kind as int].push(task),
            ),
            kind >= old(self).batches().len() ==> final(self).batches() == old(self).batches(),
            final(self).meshes() == old(self).meshes(),
            final(self).mesh_ids() == old(self).mesh_ids(),
            final(self).textures() == old(self).textures(),
            final(self).texture_slots() == old(self).texture_slots(),
            final(self).upload_queue() == old(self).upload_queue(),
            final(self).uploads_in_flight() == old(self).uploads_in_flight(),
            final(self).free_ranges() == old(self).free_ranges(),
            final(self).frame() == old(self).frame(),
            final(self).stages() == old(self).stages(),
    {
        if kind < self.batches_by_task_type.len() {
            self.batches_by_task_type[kind].push(task);
            assert(self.batches() =~= old(self).batches().update(
                kind as int,
                old(self).batches()[kind as int].push(task),
            ));
        }
    }

    /// Closes the frame after it was presented: the frame number advances by
    /// one and every batch is emptied, so a task is drawn in one frame only.
    pub fn end_frame(&mut self)
        requires
            old(self).wf(),
            old(self).frame() < u64::MAX,
        ensures
            final(self).wf(),
            final(self).frame() == old(self).frame() + 1,
            final(self).batches() == Seq::new(
                old(self).batches().len(),
                |_i: int| Seq::<Task>::empty(),
            ),
            final(self).meshes() == old(self).meshes(),
            final(self).mesh_ids() == old(self).mesh_ids(),
            final(self).textures() == old(self).textures(),
            final(self).texture_slots() == old(self).texture_slots(),
            final(self).upload_queue() == old(self).upload_queue(),
            final(self).uploads_in_flight() == old(self).uploads_in_flight(),
            final(self).free_ranges() == old(self).free_ranges(),
            final(self).stages() == old(self).stages(),
    {
        self.current_frame = self.current_frame + 1;
        let n = self.batches_by_task_type.len();
        let mut i: usize = 0;
        while i < n
            invariant
                self.wf(),
                n == self.batches_by_task_type@.len(),
                i <= n,
                self.current_frame == old(self).current_frame + 1,
                forall|j: int| 0 <= j < i ==> self.batches_by_task_type@[j]@ == Seq::<Task>::empty(),
                self.mesh_buffers_by_id@ == old(self).mesh_buffers_by_id@,
                self.mesh_buffer_ids == old(self).mesh_buffer_ids,
                self.textures_by_id@ == old(self).textures_by_id@,
                self.image_slots_used == old(self).image_slots_used,
                self.image_slot_capacity == old(self).image_slot_capacity,
                self.optimal_transition_queue@ == old(self).optimal_transition_queue@,
                self.ongoing_optimal_transitions@ == old(self).ongoing_optimal_transitions@,
                self.general_allocator == old(self).general_allocator,
                self.total_stages == old(self).total_stages,
            decreases n - i,
        {
            self.batches_by_task_type[i].clear();
            i += 1;
        }
        assert(self.batches() =~= Seq::new(n as nat, |_i: int| Seq::<Task>::empty()));
    }

    /// Number of the frame being recorded.
    pub fn get_current_frame(&self) -> (r: u64)
        ensures
            r == self.frame(),
    {
        self.current_frame
    }

    /// Number of stages that each frame runs.
    pub fn total_stages(&self) -> (r: u64)
        ensures
            r == self.stages(),
    {
        self.total_stages
    }

    /// The allocator of the general buffer that holds meshes and staging data.
    pub fn general_allocator(&self) -> (r: &DeviceAllocator)
        ensures
            *r == self.allocator(),
    {
        &self.general_allocator
    }

    /// The task batches, indexed by task kind.
    pub fn batches_by_task_type(&self) -> (r: &Vec<Vec<Task>>)
        ensures
            r@.len() == self.batches().len(),
            forall|i: int| 0 <= i < r@.len() ==> r@[i]@ == self.batches()[i],
    {
        &self.batches_by_task_type
    }
}

} // verus!

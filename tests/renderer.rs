use ash::vk;
use rend_vk::buffer::{BufferKind, DeviceAllocator, DeviceBuffer};
use rend_vk::renderer::{RenderError, Renderer, ID_TEST_TRIANGLE, MAX_MESHES};

fn renderer(capacity: u64, alignment: u64, total_stages: u64, texture_slots: u32) -> Renderer<u32> {
    let allocator = DeviceAllocator::wrap(DeviceBuffer {
        size: capacity,
        alignment,
        device_addr: 0,
        buffer: vk::Buffer::null(),
        memory: vk::DeviceMemory::null(),
        type_index: 0,
        kind: BufferKind::GENERAL,
    });
    Renderer::new(allocator, 3, total_stages, texture_slots)
}

fn available(r: &Renderer<u32>) -> u64 {
    r.general_allocator().available()
}

#[test]
fn gen_mesh_takes_lowest_ids_and_leases_slices() {
    let mut r = renderer(4096, 64, 2, 8);
    let a = r.gen_mesh(100, 100, 0, 10, 3).unwrap();
    assert_eq!(a, ID_TEST_TRIANGLE);
    let m = r.fetch_mesh_or_fail(a).clone();
    assert_eq!(m.vertices.size, 128);
    assert_eq!(m.vertices.offset, 0);
    assert_eq!(m.normals.offset, 128);
    assert_eq!(m.tex_coords.size, 0);
    assert_eq!(m.indices.size, 64);
    assert_eq!(m.indices.offset, 256);
    assert_eq!(m.count, 3);
    assert_eq!(available(&r), 4096 - 320);
    let b = r.gen_mesh(1, 0, 0, 0, 1).unwrap();
    assert_eq!(b, 1);
    assert!(r.fetch_mesh(b).is_some());
    assert!(r.fetch_mesh(2).is_none());
}

#[test]
fn mesh_id_is_reissued_after_free() {
    let mut r = renderer(4096, 64, 2, 8);
    let first = r.gen_mesh(64, 0, 0, 0, 1).unwrap();
    let second = r.gen_mesh(64, 0, 0, 0, 1).unwrap();
    assert_eq!((first, second), (0, 1));
    let before = available(&r);
    r.free_mesh(first);
    assert!(r.fetch_mesh(first).is_none());
    assert_eq!(available(&r), before + 64);
    let again = r.gen_mesh(64, 0, 0, 0, 1).unwrap();
    assert_eq!(again, first);
    let third = r.gen_mesh(64, 0, 0, 0, 1).unwrap();
    assert_eq!(third, 2);
}

#[test]
fn free_mesh_returns_all_slices() {
    let mut r = renderer(1024, 64, 1, 4);
    let id = r.gen_mesh(64, 128, 64, 256, 9).unwrap();
    assert_eq!(available(&r), 1024 - 512);
    r.free_mesh(id);
    assert_eq!(available(&r), 1024);
    assert_eq!(r.general_allocator().ranges().len(), 1);
}

#[test]
fn gen_mesh_out_of_memory_changes_nothing() {
    let mut r = renderer(1024, 256, 1, 4);
    let keep = r.gen_mesh(256, 0, 0, 0, 1).unwrap();
    let before = available(&r);
    // the vertex and normal slices fit, the index slice does not
    assert_eq!(r.gen_mesh(256, 256, 0, 512, 1), Err(RenderError::OutOfDeviceMemory));
    assert_eq!(available(&r), before);
    assert_eq!(r.general_allocator().ranges().len(), 1);
    assert!(r.fetch_mesh(1).is_none());
    assert_eq!(r.gen_mesh(256, 256, 256, 0, 1), Ok(1));
    assert!(r.fetch_mesh(keep).is_some());
}

#[test]
fn gen_mesh_out_of_ids() {
    let mut r = renderer(1024, 64, 1, 4);
    for i in 0..MAX_MESHES {
        assert_eq!(r.gen_mesh(0, 0, 0, 0, 0), Ok(i as u32));
    }
    assert_eq!(r.gen_mesh(0, 0, 0, 0, 0), Err(RenderError::OutOfMeshIds));
    assert_eq!(available(&r), 1024);
    r.free_mesh(500);
    assert_eq!(r.gen_mesh(0, 0, 0, 0, 0), Ok(500));
}

#[test]
fn texture_upload_lifecycle() {
    let total_stages = 3;
    let mut r = renderer(4096, 256, total_stages, 8);
    let default = r.gen_texture("default_texture".to_string(), 0).unwrap();
    assert_eq!(default, 0);
    assert!(r.is_texture_uploaded(default));
    let id = r.gen_texture("albedo".to_string(), 1000).unwrap();
    assert_eq!(id, 1);
    assert!(!r.is_texture_uploaded(id));
    assert_eq!(available(&r), 4096 - 1024);
    let t = r.fetch_texture(id).unwrap();
    assert_eq!(t.name, "albedo");
    assert_eq!(t.staging.unwrap().size, 1024);

    r.queue_texture_for_uploading(id);
    let recorded = r.begin_texture_transitions();
    assert_eq!(recorded, vec![id]);
    // completes with the first stage of the next frame: (0 + 1) * 3 + 0
    assert!(!r.reclaim_completed_uploads(2));
    assert!(!r.is_texture_uploaded(id));
    assert!(r.reclaim_completed_uploads(3));
    assert!(r.is_texture_uploaded(id));
    assert!(r.fetch_texture(id).unwrap().staging.is_none());
    assert_eq!(available(&r), 4096);
    // nothing left to reclaim
    assert!(!r.reclaim_completed_uploads(100));
    assert_eq!(available(&r), 4096);
}

#[test]
fn texture_queued_twice_is_freed_once() {
    let mut r = renderer(4096, 256, 2, 8);
    let a = r.gen_texture("a".to_string(), 256).unwrap();
    let b = r.gen_texture("b".to_string(), 256).unwrap();
    r.queue_texture_for_uploading(a);
    r.queue_texture_for_uploading(a);
    assert_eq!(r.begin_texture_transitions(), vec![a, a]);
    r.end_frame();
    r.queue_texture_for_uploading(b);
    assert_eq!(r.begin_texture_transitions(), vec![b]);
    // frame 0 uploads complete at 2, frame 1 uploads at 4
    assert!(r.reclaim_completed_uploads(2));
    assert!(r.is_texture_uploaded(a));
    assert!(!r.is_texture_uploaded(b));
    assert_eq!(available(&r), 4096 - 256);
    assert!(r.reclaim_completed_uploads(4));
    assert!(r.is_texture_uploaded(b));
    assert_eq!(available(&r), 4096);
}

#[test]
fn texture_errors() {
    let mut r = renderer(512, 256, 1, 2);
    assert_eq!(r.gen_texture("big".to_string(), 1024), Err(RenderError::OutOfDeviceMemory));
    assert!(r.fetch_texture(0).is_none());
    assert_eq!(r.gen_texture("a".to_string(), 0), Ok(0));
    assert_eq!(r.gen_texture("b".to_string(), 512), Ok(1));
    assert_eq!(r.gen_texture("c".to_string(), 0), Err(RenderError::OutOfTextureSlots));
}

#[test]
fn tasks_are_batched_by_kind_for_one_frame() {
    let mut r = renderer(1024, 64, 2, 4);
    r.add_task_to_queue(0, 10);
    r.add_task_to_queue(2, 20);
    r.add_task_to_queue(2, 21);
    r.add_task_to_queue(7, 99);
    {
        let batches = r.batches_by_task_type();
        assert_eq!(batches.len(), 3);
        assert_eq!(batches[0], vec![10]);
        assert!(batches[1].is_empty());
        assert_eq!(batches[2], vec![20, 21]);
    }
    assert_eq!(r.get_current_frame(), 0);
    r.end_frame();
    assert_eq!(r.get_current_frame(), 1);
    assert_eq!(r.total_stages(), 2);
    assert!(r.batches_by_task_type().iter().all(|b| b.is_empty()));
}

use ash::vk;
use rend_vk::buffer::{BufferKind, DeviceAllocator, DeviceBuffer, DeviceSlice, Range};

fn region(size: u64, alignment: u64) -> DeviceAllocator {
    DeviceAllocator::wrap(DeviceBuffer {
        size,
        alignment,
        device_addr: 0,
        buffer: vk::Buffer::null(),
        memory: vk::DeviceMemory::null(),
        type_index: 0,
        kind: BufferKind::GENERAL,
    })
}

fn ranges(a: &DeviceAllocator) -> Vec<(u64, u64)> {
    a.ranges().iter().map(|r| (r.start, r.end)).collect()
}

#[test]
fn range_size_is_end_minus_start() {
    assert_eq!(Range { start: 16, end: 80 }.size(), 64);
    assert_eq!(Range { start: 7, end: 7 }.size(), 0);
}

#[test]
fn next_size_rounds_up_to_multiple() {
    assert_eq!(DeviceBuffer::next_size(0, 256), 0);
    assert_eq!(DeviceBuffer::next_size(1, 256), 256);
    assert_eq!(DeviceBuffer::next_size(256, 256), 256);
    assert_eq!(DeviceBuffer::next_size(257, 256), 512);
    assert_eq!(DeviceBuffer::next_size(100, 64), 128);
    assert_eq!(DeviceBuffer::next_size(u64::MAX - 255, 256), u64::MAX - 255);
}

#[test]
fn descriptor_alignment_takes_the_wider() {
    assert_eq!(DeviceBuffer::alignment_for(BufferKind::DESCRIPTOR, 64, 256), 256);
    assert_eq!(DeviceBuffer::alignment_for(BufferKind::DESCRIPTOR, 512, 256), 512);
    assert_eq!(DeviceBuffer::alignment_for(BufferKind::GENERAL, 64, 256), 64);
}

#[test]
fn memory_type_is_first_allowed_with_all_flags() {
    let flags = vec![0b001, 0b111, 0b110, 0b111];
    // type 1 is not allowed by the bits, type 2 lacks a flag
    assert_eq!(DeviceBuffer::find_memorytype_index(0b1101, &flags, 0b111), Some(3));
    assert_eq!(DeviceBuffer::find_memorytype_index(0b1111, &flags, 0b111), Some(1));
    assert_eq!(DeviceBuffer::find_memorytype_index(0b0001, &flags, 0b111), None);
    assert_eq!(DeviceBuffer::find_memorytype_index(0b0001, &flags, 0), Some(0));
}

#[test]
fn wrap_frees_whole_buffer() {
    let a = region(1024, 256);
    assert_eq!(a.available(), 1024);
    assert_eq!(ranges(&a), vec![(0, 1024)]);
    let empty = region(0, 256);
    assert_eq!(empty.available(), 0);
    assert!(ranges(&empty).is_empty());
}

#[test]
fn scenario_capacity_1024_alignment_256() {
    let mut a = region(1024, 256);
    let first = a.allocate(100).expect("first allocation");
    assert_eq!(first.size, 256);
    assert_eq!(first.offset, 0);
    assert_eq!(first.alignment, 256);
    assert_eq!(a.available(), 768);
    assert!(a.allocate(1000).is_none());
    assert_eq!(a.available(), 768);
    assert!(a.free(first));
    assert_eq!(a.available(), 1024);
    assert_eq!(ranges(&a), vec![(0, 1024)]);
    let big = a.allocate(1000).expect("whole buffer");
    assert_eq!(big.size, 1024);
    assert_eq!(big.offset, 0);
    assert_eq!(a.available(), 0);
    assert!(ranges(&a).is_empty());
}

#[test]
fn round_trip_restores_single_range() {
    for size in [1u64, 64, 100, 255, 256, 700, 1024] {
        let mut a = region(1024, 256);
        let before = a.available();
        let s = a.allocate(size).expect("fits");
        assert!(s.size >= size);
        assert!(a.free(s));
        assert_eq!(a.available(), before);
        assert_eq!(ranges(&a), vec![(0, 1024)]);
    }
}

#[test]
fn allocating_more_than_available_fails() {
    let mut a = region(1024, 64);
    let _x = a.allocate(512).unwrap();
    assert_eq!(a.available(), 512);
    assert!(a.allocate(513).is_none());
    assert!(a.allocate(u64::MAX).is_none());
    assert!(a.allocate(u64::MAX - 10).is_none());
    assert_eq!(a.available(), 512);
    let y = a.allocate(512).unwrap();
    assert_eq!(y.size, 512);
    assert_eq!(y.offset, 512);
}

#[test]
fn first_fit_takes_lowest_range_that_holds_request() {
    let mut a = region(1024, 64);
    let s0 = a.allocate(64).unwrap();
    let s1 = a.allocate(128).unwrap();
    let s2 = a.allocate(64).unwrap();
    assert_eq!((s0.offset, s1.offset, s2.offset), (0, 64, 192));
    assert!(a.free(s0));
    assert!(a.free(s1));
    // free ranges: [0,192) and [256,1024)
    assert_eq!(ranges(&a), vec![(0, 192), (256, 1024)]);
    let s3 = a.allocate(200).unwrap();
    assert_eq!(s3.offset, 256);
    assert_eq!(s3.size, 256);
    let s4 = a.allocate(100).unwrap();
    assert_eq!(s4.offset, 0);
    assert_eq!(ranges(&a), vec![(128, 192), (512, 1024)]);
}

#[test]
fn free_coalesces_in_every_order() {
    let orders: [[usize; 3]; 6] = [[0, 1, 2], [0, 2, 1], [1, 0, 2], [1, 2, 0], [2, 0, 1], [2, 1, 0]];
    for order in orders {
        let mut a = region(1024, 64);
        let slices = [a.allocate(64).unwrap(), a.allocate(64).unwrap(), a.allocate(64).unwrap()];
        let _guard = a.allocate(64).unwrap();
        for &i in &order {
            assert!(a.free(slices[i]));
            let r = ranges(&a);
            for w in r.windows(2) {
                assert!(w[0].1 < w[1].0, "adjacent or unsorted free ranges {:?}", r);
            }
        }
        assert_eq!(ranges(&a), vec![(0, 192), (256, 1024)]);
        assert_eq!(a.available(), 960);
    }
}

#[test]
fn free_after_the_last_range_merges_with_it() {
    let mut a = region(1024, 256);
    let s0 = a.allocate(256).unwrap();
    let s1 = a.allocate(256).unwrap();
    assert_eq!(ranges(&a), vec![(512, 1024)]);
    assert!(a.free(s0));
    assert_eq!(ranges(&a), vec![(0, 256), (512, 1024)]);
    assert!(a.free(s1));
    assert_eq!(ranges(&a), vec![(0, 1024)]);
}

#[test]
fn freeing_ranges_at_the_end_inserts_in_order() {
    let mut a = region(1024, 256);
    let all = a.allocate(1024).unwrap();
    assert_eq!(all.size, 1024);
    let hi = DeviceSlice { size: 256, offset: 768, alignment: 256 };
    let lo = DeviceSlice { size: 256, offset: 0, alignment: 256 };
    assert!(a.free(hi));
    assert!(a.free(lo));
    assert_eq!(ranges(&a), vec![(0, 256), (768, 1024)]);
    let mid = DeviceSlice { size: 256, offset: 512, alignment: 256 };
    assert!(a.free(mid));
    assert_eq!(ranges(&a), vec![(0, 256), (512, 1024)]);
}

#[test]
fn invalid_frees_are_refused() {
    let mut a = region(1024, 256);
    let s = a.allocate(256).unwrap();
    assert!(a.free(s));
    // double free
    assert!(!a.free(s));
    assert_eq!(ranges(&a), vec![(0, 1024)]);
    let s = a.allocate(256).unwrap();
    // empty slice and slices past the end
    assert!(!a.free(DeviceSlice::empty()));
    assert!(!a.free(DeviceSlice { size: 256, offset: 1024, alignment: 256 }));
    assert!(!a.free(DeviceSlice { size: u64::MAX, offset: 1, alignment: 256 }));
    // overlaps free bytes
    assert!(!a.free(DeviceSlice { size: 512, offset: 0, alignment: 256 }));
    assert_eq!(ranges(&a), vec![(256, 1024)]);
    assert!(a.free(s));
    assert_eq!(a.available(), 1024);
}

#[test]
fn available_tracks_live_allocations() {
    let mut a = region(4096, 64);
    let mut live: Vec<DeviceSlice> = Vec::new();
    let sizes = [10u64, 64, 65, 300, 1, 128, 500, 63];
    for (i, &sz) in sizes.iter().enumerate() {
        live.push(a.allocate(sz).unwrap());
        if i % 3 == 2 {
            let s = live.remove(1);
            assert!(a.free(s));
        }
        let used: u64 = live.iter().map(|s| s.size).sum();
        assert_eq!(a.available(), 4096 - used);
    }
    while let Some(s) = live.pop() {
        assert!(a.free(s));
        let used: u64 = live.iter().map(|s| s.size).sum();
        assert_eq!(a.available(), 4096 - used);
    }
    assert_eq!(ranges(&a), vec![(0, 4096)]);
}

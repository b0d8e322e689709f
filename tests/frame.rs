use rend_vk::frame::{signal_value_for, wait_value_for};

#[test]
fn signal_value_is_frame_times_stages_plus_stage() {
    assert_eq!(signal_value_for(0, 0, 3), 0);
    assert_eq!(signal_value_for(0, 2, 3), 2);
    assert_eq!(signal_value_for(4, 1, 3), 13);
    assert_eq!(signal_value_for(1, 0, 5), 5);
}

#[test]
fn first_frame_waits_for_nothing() {
    for s in 0..4 {
        assert_eq!(wait_value_for(0, s, 4), None);
    }
}

#[test]
fn stage_waits_for_same_stage_of_previous_frame() {
    let t = 3u64;
    for f in 1..6u64 {
        for s in 0..t {
            assert_eq!(wait_value_for(f, s, t), Some((f - 1) * t + s));
            assert_eq!(wait_value_for(f, s, t), Some(signal_value_for(f - 1, s, t)));
            assert!(wait_value_for(f, s, t).unwrap() < signal_value_for(f, s, t));
        }
    }
}

#[test]
fn signal_values_strictly_increase_in_recording_order() {
    let t = 4u64;
    let mut last: Option<u64> = None;
    for f in 0..5u64 {
        for s in 0..t {
            let v = signal_value_for(f, s, t);
            if let Some(p) = last {
                assert!(v > p);
            }
            last = Some(v);
        }
    }
}

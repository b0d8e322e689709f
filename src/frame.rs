//! Timeline values that order the stages of successive frames.
//!
//! Every stage of every frame owns one value of a shared, monotonically
//! increasing counter. Stage `s` of frame `f` signals its own value when it
//! completes, and before it starts it waits for the value that stage `s` of
//! frame `f - 1` signals.
use vstd::prelude::*;

verus! {

/// The counter value owned by stage `stage` of frame `frame`.
pub open spec fn signal_value(frame: int, stage: int, total_stages: int) -> int {
    frame * total_stages + stage
}

/// The value that stage `stage` of frame `frame` waits for; nothing for the
/// first frame.
pub open spec fn wait_value(frame: int, stage: int, total_stages: int) -> Option<int> {
    if frame == 0 {
        None
    } else {
        Some((frame - 1) * total_stages + stage)
    }
}

/// The counter value that stage `stage` of frame `frame` signals.
pub fn signal_value_for(frame: u64, stage: u64, total_stages: u64) -> (r: u64)
    requires
        signal_value(frame as int, stage as int, total_stages as int) <= u64::MAX,
    ensures
        r == signal_value(frame as int, stage as int, total_stages as int),
{
    proof {
        lemma_product_bounded(frame as int, total_stages as int, stage as int);
    }
    frame * total_stages + stage
}

/// The counter value that stage `stage` of frame `frame` waits for before it
/// records; `None` on the first frame.
pub fn wait_value_for(frame: u64, stage: u64, total_stages: u64) -> (r: Option<u64>)
    requires
        signal_value(frame as int, stage as int, total_stages as int) <= u64::MAX,
    ensures
        match wait_value(frame as int, stage as int, total_stages as int) {
            Some(v) => r == Some(v as u64),
            None => r is None,
        },
{
    if frame == 0 {
        None
    } else {
        proof {
            lemma_product_bounded(frame as int, total_stages as int, stage as int);
            lemma_product_bounded(frame - 1, total_stages as int, stage as int);
            assert((frame - 1) * total_stages <= frame * total_stages) by (nonlinear_arith)
                requires
                    frame >= 1,
                    total_stages >= 0,
            ;
        }
        Some((frame - 1) * total_stages + stage)
    }
}

proof fn lemma_product_bounded(a: int, b: int, c: int)
    requires
        a >= 0,
        b >= 0,
        c >= 0,
    ensures
        a * b >= 0,
        a * b <= a * b + c,
{
    assert(a * b >= 0) by (nonlinear_arith)
        requires
            a >= 0,
            b >= 0,
    ;
}

/// Stage `s` of frame `f` waits for exactly the value that stage `s` of
/// frame `f - 1` signals, and for nothing on the first frame; that value
/// lies below its own, so no stage waits on itself.
pub proof fn lemma_wait_is_previous_frame_signal(frame: int, stage: int, total_stages: int)
    requires
        frame >= 0,
        0 <= stage < total_stages,
    ensures
        frame == 0 ==> wait_value(frame, stage, total_stages) is None,
        frame > 0 ==> wait_value(frame, stage, total_stages) == Some(
            signal_value(frame - 1, stage, total_stages),
        ),
        frame > 0 ==> wait_value(frame, stage, total_stages)->0 < signal_value(
            frame,
            stage,
            total_stages,
        ),
{
    if frame > 0 {
        assert((frame - 1) * total_stages + stage < frame * total_stages + stage) by (nonlinear_arith)
            requires
                frame >= 1,
                total_stages > 0,
        ;
    }
}

/// Signal values strictly increase with the frame, and with the stage within
/// a frame: stages recorded in a fixed order each frame never signal a value
/// twice, nor one below what an earlier stage signalled.
pub proof fn lemma_signal_values_increase(f1: int, s1: int, f2: int, s2: int, total_stages: int)
    requires
        0 <= f1,
        0 <= f2,
        0 <= s1 < total_stages,
        0 <= s2 < total_stages,
        f1 < f2 || (f1 == f2 && s1 < s2),
    ensures
        signal_value(f1, s1, total_stages) < signal_value(f2, s2, total_stages),
{
    if f1 < f2 {
        assert(f1 * total_stages + s1 < f2 * total_stages + s2) by (nonlinear_arith)
            requires
                f1 + 1 <= f2,
                0 <= s1 < total_stages,
                0 <= s2,
        ;
    }
}

} // verus!

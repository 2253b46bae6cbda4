//! A snapshot measurement: three captures, one after the other.

use vstd::prelude::*;

verus! {

/// What a capture measures.
#[derive(Clone, Copy, PartialEq, Eq, Structural)]
pub enum SnapMode {
    /// The output.
    Stereo,
    /// The output summed to one channel.
    Mono,
    /// The output without the input.
    Delta,
}

/// What a finished capture leads to.
#[derive(Clone, Copy, PartialEq, Eq, Structural)]
pub struct SnapStep {
    /// What it has measured.
    pub mode: SnapMode,
    /// The phase that follows; zero is none.
    pub next_phase: u8,
    /// Whether it was the last one.
    pub finished: bool,
}

/// Which sample a capture takes.
#[derive(Clone, Copy, PartialEq, Eq, Structural)]
pub enum SnapSample {
    /// The mean of the output channels.
    Output,
    /// The mean of the output channels without the mean of the input channels.
    Difference,
    /// Silence.
    Zero,
}

/// How many frames a capture takes: sixty in the first phase, thirty in the
/// two that follow.
pub fn snap_threshold(phase: u8) -> (r: u32)
    ensures
        r == if phase == 2 || phase == 3 {
            30u32
        } else {
            60u32
        },
{
    if phase == 2 || phase == 3 {
        30
    } else {
        60
    }
}

/// What a capture that is finished in a phase leads to.
pub open spec fn step_after(phase: u8) -> SnapStep {
    SnapStep {
        mode: if phase == 1 {
            SnapMode::Stereo
        } else if phase == 2 {
            SnapMode::Mono
        } else {
            SnapMode::Delta
        },
        next_phase: if phase < 3 {
            (phase + 1) as u8
        } else {
            0
        },
        finished: phase >= 3,
    }
}

/// What a capture that is finished in a phase leads to.
pub fn snap_step(phase: u8) -> (r: SnapStep)
    ensures
        r == step_after(phase),
        phase == 1 ==> r.mode == SnapMode::Stereo,
        phase == 2 ==> r.mode == SnapMode::Mono,
        phase != 1 && phase != 2 ==> r.mode == SnapMode::Delta,
        r.next_phase == if phase < 3 {
            phase + 1
        } else {
            0
        },
        r.finished == (r.next_phase == 0),
{
    let mode = match phase {
        1 => SnapMode::Stereo,
        2 => SnapMode::Mono,
        _ => SnapMode::Delta,
    };
    let next_phase: u8 = if phase < 3 {
        phase + 1
    } else {
        0
    };
    SnapStep { mode, next_phase, finished: next_phase == 0 }
}

/// Which sample is captured in a phase.
pub fn snap_sample(phase: u8) -> (r: SnapSample)
    ensures
        r == if phase == 1 || phase == 2 {
            SnapSample::Output
        } else if phase == 3 {
            SnapSample::Difference
        } else {
            SnapSample::Zero
        },
{
    match phase {
        1 => SnapSample::Output,
        2 => SnapSample::Output,
        3 => SnapSample::Difference,
        _ => SnapSample::Zero,
    }
}

/// Whether the output is summed to one channel: while mono is captured, else as
/// it is set.
pub fn mono_in_phase(phase: u8, set: bool) -> (r: bool)
    ensures
        r == (phase == 2 || set),
{
    phase == 2 || set
}

/// Whether the output is summed to one channel by the channel strip, which
/// keeps it stereo while the difference is captured.
pub fn strip_mono_in_phase(phase: u8, set: bool) -> (r: bool)
    ensures
        r == (phase == 2 || (phase != 3 && set)),
{
    match phase {
        2 => true,
        3 => false,
        _ => set,
    }
}

/// Whether the input is taken off the output: while the difference is captured,
/// else as it is set.
pub fn delta_in_phase(phase: u8, set: bool) -> (r: bool)
    ensures
        r == (phase == 3 || set),
{
    phase == 3 || set
}

/// A measurement that starts captures stereo, mono and the difference, in that
/// order, and then stops.
pub proof fn law_three_captures()
    ensures
        step_after(1).mode == SnapMode::Stereo && !step_after(1).finished,
        step_after(step_after(1).next_phase).mode == SnapMode::Mono,
        !step_after(step_after(1).next_phase).finished,
        step_after(step_after(step_after(1).next_phase).next_phase).mode == SnapMode::Delta,
        step_after(step_after(step_after(1).next_phase).next_phase).finished,
        step_after(step_after(step_after(1).next_phase).next_phase).next_phase == 0,
{
}

/// A measurement stops exactly when no phase follows.
pub proof fn law_measurement_ends_in_phase_zero(phase: u8)
    ensures
        step_after(phase).finished <==> step_after(phase).next_phase == 0,
        step_after(phase).next_phase <= 3,
{
}

} // verus!

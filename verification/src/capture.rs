//! When the recorder captures a rendered frame.  Copying the frame off the
//! graphics card and encoding it are the renderer's; what is decided here,
//! on whole nanoseconds and frame counts, is whether a frame is due, which
//! frame it is and which staging buffer takes it, and when the encoding
//! worker writes out the frames it has gathered.

use vstd::prelude::*;

verus! {

/// The recorder's schedule: when the next frame is due (0 before the first
/// frame of a recording), how many frames were captured, and the staging
/// buffer the next capture goes into.
#[derive(Debug, Clone, Copy, PartialEq, Eq, Structural)]
pub struct CaptureClock {
    pub next_scheduled: u64,
    pub frame_number: u32,
    pub buffer_index: usize,
}

/// The frame-paced recorder's state: when it last captured, how many frames
/// were captured, and the staging buffer the next capture goes into.
#[derive(Debug, Clone, Copy, PartialEq, Eq, Structural)]
pub struct PacedClock {
    pub last_capture: u64,
    pub frame_number: u32,
    pub buffer_index: usize,
}

/// What the recorder does with a rendered frame.
#[derive(Debug, Clone, Copy, PartialEq, Eq, Structural)]
pub enum CaptureStep {
    /// Nothing: the recorder is off, or has no worker to hand frames to.
    Idle,
    /// Nothing yet: the next frame is not due.
    Wait,
    /// Nothing: the recorder fell this many whole frames behind and skips
    /// ahead to the next frame time.
    Skip { frames_behind: u64 },
    /// Nothing: the previous capture is still in progress.
    Busy,
    /// The frame limit is reached: recording stops.  A capture is marked as
    /// in progress.
    StopAtLimit,
    /// Capture frame number `frame` into staging buffer `buffer`.  A capture
    /// is marked as in progress.
    Capture { frame: u32, buffer: usize },
}

impl CaptureClock {
    /// The schedule at the start of a recording: no frame captured, the
    /// first frame due at once, the staging buffers used in turn as before.
    pub fn restart(&self) -> (r: CaptureClock)
        ensures
            r == (CaptureClock { next_scheduled: 0, frame_number: 0, buffer_index: self.buffer_index }),
    {
        CaptureClock { next_scheduled: 0, frame_number: 0, buffer_index: self.buffer_index }
    }
}

/// The step of the scheduled recorder at time `now`: frames are due every
/// `frame_time` nanoseconds from the first one; a recorder more than one
/// frame behind skips ahead past the frames it missed; a due frame is
/// dropped while the previous capture is in progress, ends the recording at
/// the frame limit, and is otherwise captured into the next of `n_buffers`
/// staging buffers in turn.  The schedule moves on by one frame time for
/// every due frame, captured or not.
pub open spec fn capture_step_spec(
    clock: CaptureClock,
    recording: bool,
    has_worker: bool,
    now: u64,
    frame_time: u64,
    frame_limit: u32,
    in_progress: bool,
    n_buffers: usize,
) -> (CaptureClock, CaptureStep) {
    if !recording || !has_worker {
        (clock, CaptureStep::Idle)
    } else {
        let next = if clock.next_scheduled == 0 {
            now
        } else {
            clock.next_scheduled
        };
        if now < next {
            (CaptureClock { next_scheduled: next, ..clock }, CaptureStep::Wait)
        } else if now - next > frame_time {
            let behind = ((now - next) / (frame_time as int)) as u64;
            (
                CaptureClock { next_scheduled: (next + (behind + 1) * frame_time) as u64, ..clock },
                CaptureStep::Skip { frames_behind: behind },
            )
        } else {
            let moved = CaptureClock { next_scheduled: (next + frame_time) as u64, ..clock };
            if in_progress {
                (moved, CaptureStep::Busy)
            } else if clock.frame_number >= frame_limit {
                (moved, CaptureStep::StopAtLimit)
            } else {
                (
                    CaptureClock {
                        next_scheduled: (next + frame_time) as u64,
                        frame_number: (clock.frame_number + 1) as u32,
                        buffer_index: ((clock.buffer_index + 1) % (n_buffers as int)) as usize,
                    },
                    CaptureStep::Capture { frame: (clock.frame_number + 1) as u32, buffer: clock.buffer_index },
                )
            }
        }
    }
}

/// One step of the scheduled recorder for a frame rendered at `now`
/// nanoseconds; see `capture_step_spec`.  The buffer index stays below
/// `n_buffers`, and the times stay clear of the end of the clock.
pub fn capture_step(
    clock: CaptureClock,
    recording: bool,
    has_worker: bool,
    now: u64,
    frame_time: u64,
    frame_limit: u32,
    in_progress: bool,
    n_buffers: usize,
) -> (r: (CaptureClock, CaptureStep))
    requires
        frame_time > 0,
        n_buffers > 0,
        clock.buffer_index < n_buffers,
        now + frame_time <= u64::MAX,
    ensures
        r == capture_step_spec(clock, recording, has_worker, now, frame_time, frame_limit, in_progress, n_buffers),
        r.0.buffer_index < n_buffers,
{
    if !recording || !has_worker {
        return (clock, CaptureStep::Idle);
    }
    let next = if clock.next_scheduled == 0 {
        now
    } else {
        clock.next_scheduled
    };
    if now < next {
        return (CaptureClock { next_scheduled: next, ..clock }, CaptureStep::Wait);
    }
    if now - next > frame_time {
        let behind = (now - next) / frame_time;
        proof {
            let d = (now - next) as int;
            let t = frame_time as int;
            let b = behind as int;
            assert(b * t <= d) by (nonlinear_arith)
                requires
                    b == d / t,
                    t > 0,
                    d >= 0,
            ;
            assert((b + 1) * t == b * t + t) by (nonlinear_arith);
        }
        let skipped = next + (behind + 1) * frame_time;
        return (CaptureClock { next_scheduled: skipped, ..clock }, CaptureStep::Skip { frames_behind: behind });
    }
    let moved = next + frame_time;
    if in_progress {
        return (CaptureClock { next_scheduled: moved, ..clock }, CaptureStep::Busy);
    }
    if clock.frame_number >= frame_limit {
        return (CaptureClock { next_scheduled: moved, ..clock }, CaptureStep::StopAtLimit);
    }
    let frame = clock.frame_number + 1;
    let buffer = clock.buffer_index;
    (
        CaptureClock { next_scheduled: moved, frame_number: frame, buffer_index: (buffer + 1) % n_buffers },
        CaptureStep::Capture { frame, buffer },
    )
}

/// The step of the frame-paced recorder at time `now`: a frame is taken
/// once `frame_time` nanoseconds have passed since the last capture; after
/// a longer gap it waits for a capture still in progress.  A frame that is
/// taken counts as the last capture, ends the recording at the frame limit,
/// and is otherwise captured into the next of `n_buffers` staging buffers
/// in turn.
pub open spec fn paced_capture_step_spec(
    clock: PacedClock,
    recording: bool,
    now: u64,
    frame_time: u64,
    frame_limit: u32,
    in_progress: bool,
    n_buffers: usize,
) -> (PacedClock, CaptureStep) {
    let since = now - clock.last_capture;
    if !recording {
        (clock, CaptureStep::Idle)
    } else if since > frame_time && in_progress {
        (clock, CaptureStep::Busy)
    } else if since < frame_time {
        (clock, CaptureStep::Wait)
    } else if clock.frame_number >= frame_limit {
        (PacedClock { last_capture: now, ..clock }, CaptureStep::StopAtLimit)
    } else {
        (
            PacedClock {
                last_capture: now,
                frame_number: (clock.frame_number + 1) as u32,
                buffer_index: ((clock.buffer_index + 1) % (n_buffers as int)) as usize,
            },
            CaptureStep::Capture { frame: (clock.frame_number + 1) as u32, buffer: clock.buffer_index },
        )
    }
}

/// One step of the frame-paced recorder for a frame rendered at `now`
/// nanoseconds, no earlier than the last capture; see
/// `paced_capture_step_spec`.
pub fn paced_capture_step(
    clock: PacedClock,
    recording: bool,
    now: u64,
    frame_time: u64,
    frame_limit: u32,
    in_progress: bool,
    n_buffers: usize,
) -> (r: (PacedClock, CaptureStep))
    requires
        n_buffers > 0,
        clock.buffer_index < n_buffers,
        clock.last_capture <= now,
    ensures
        r == paced_capture_step_spec(clock, recording, now, frame_time, frame_limit, in_progress, n_buffers),
        r.0.buffer_index < n_buffers,
{
    if !recording {
        return (clock, CaptureStep::Idle);
    }
    let since = now - clock.last_capture;
    if since > frame_time && in_progress {
        return (clock, CaptureStep::Busy);
    }
    if since < frame_time {
        return (clock, CaptureStep::Wait);
    }
    if clock.frame_number >= frame_limit {
        return (PacedClock { last_capture: now, ..clock }, CaptureStep::StopAtLimit);
    }
    let frame = clock.frame_number + 1;
    let buffer = clock.buffer_index;
    (
        PacedClock { last_capture: now, frame_number: frame, buffer_index: (buffer + 1) % n_buffers },
        CaptureStep::Capture { frame, buffer },
    )
}

/// How many frames the encoding worker gathers before writing them out.
pub const BATCH_SIZE: usize = 10;

/// What reaches the encoding worker while it waits for frames.
#[derive(Debug, Clone, Copy, PartialEq, Eq, Structural)]
pub enum WorkerEvent {
    /// A captured frame arrived.
    Frame,
    /// No frame arrived within the waiting time.
    Timeout,
    /// The recorder hung up: no more frames will come.
    Disconnected,
}

/// What the encoding worker does on an event: whether it writes out all
/// the frames it holds, whether it then stops, and how many frames it holds
/// afterwards.
#[derive(Debug, Clone, Copy, PartialEq, Eq, Structural)]
pub struct WorkerStep {
    pub process: bool,
    pub stop: bool,
    pub buffered: usize,
}

/// The worker's rule, holding `buffered` frames: an arriving frame is added,
/// and the frames are written out once `BATCH_SIZE` of them are held; on a
/// timeout, or when the recorder hangs up, whatever is held is written out;
/// after the recorder hangs up the worker stops.
pub open spec fn worker_step_spec(buffered: usize, event: WorkerEvent) -> WorkerStep {
    match event {
        WorkerEvent::Frame => if buffered + 1 >= BATCH_SIZE {
            WorkerStep { process: true, stop: false, buffered: 0 }
        } else {
            WorkerStep { process: false, stop: false, buffered: (buffered + 1) as usize }
        },
        WorkerEvent::Timeout => WorkerStep { process: buffered > 0, stop: false, buffered: 0 },
        WorkerEvent::Disconnected => WorkerStep { process: buffered > 0, stop: true, buffered: 0 },
    }
}

/// One step of the encoding worker holding `buffered` frames; see
/// `worker_step_spec`.
pub fn worker_step(buffered: usize, event: WorkerEvent) -> (r: WorkerStep)
    requires
        event == WorkerEvent::Frame ==> buffered < usize::MAX,
    ensures
        r == worker_step_spec(buffered, event),
{
    match event {
        WorkerEvent::Frame => {
            let held = buffered + 1;
            if held >= BATCH_SIZE {
                WorkerStep { process: true, stop: false, buffered: 0 }
            } else {
                WorkerStep { process: false, stop: false, buffered: held }
            }
        },
        WorkerEvent::Timeout => WorkerStep { process: buffered > 0, stop: false, buffered: 0 },
        WorkerEvent::Disconnected => WorkerStep { process: buffered > 0, stop: true, buffered: 0 },
    }
}

} // verus!

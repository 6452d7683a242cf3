use glyphvis::capture::{
    capture_step, paced_capture_step, worker_step, CaptureClock, CaptureStep, PacedClock, WorkerEvent, WorkerStep,
    BATCH_SIZE,
};

const FRAME: u64 = 1_000;

fn clock(next: u64, frame: u32, buffer: usize) -> CaptureClock {
    CaptureClock { next_scheduled: next, frame_number: frame, buffer_index: buffer }
}

#[test]
fn an_idle_recorder_keeps_its_schedule() {
    let c = clock(5_000, 3, 1);
    assert_eq!(capture_step(c, false, true, 9_000, FRAME, 10, false, 2), (c, CaptureStep::Idle));
    assert_eq!(capture_step(c, true, false, 9_000, FRAME, 10, false, 2), (c, CaptureStep::Idle));
}

#[test]
fn the_first_frame_is_due_at_once_and_buffers_rotate() {
    let (c, step) = capture_step(clock(0, 0, 0), true, true, 50_000, FRAME, 10, false, 2);
    assert_eq!(step, CaptureStep::Capture { frame: 1, buffer: 0 });
    assert_eq!(c, clock(51_000, 1, 1));
    let (c, step) = capture_step(c, true, true, 50_500, FRAME, 10, false, 2);
    assert_eq!(step, CaptureStep::Wait);
    assert_eq!(c, clock(51_000, 1, 1));
    let (c, step) = capture_step(c, true, true, 51_200, FRAME, 10, false, 2);
    assert_eq!(step, CaptureStep::Capture { frame: 2, buffer: 1 });
    assert_eq!(c, clock(52_000, 2, 0));
}

#[test]
fn a_late_recorder_skips_the_frames_it_missed() {
    let (c, step) = capture_step(clock(10_000, 4, 0), true, true, 13_500, FRAME, 10, false, 3);
    assert_eq!(step, CaptureStep::Skip { frames_behind: 3 });
    assert_eq!(c, clock(14_000, 4, 0));
}

#[test]
fn a_busy_recorder_drops_the_frame_and_the_limit_stops_it() {
    let (c, step) = capture_step(clock(10_000, 4, 2), true, true, 10_000, FRAME, 10, true, 3);
    assert_eq!(step, CaptureStep::Busy);
    assert_eq!(c, clock(11_000, 4, 2));
    let (c, step) = capture_step(clock(10_000, 10, 2), true, true, 10_400, FRAME, 10, false, 3);
    assert_eq!(step, CaptureStep::StopAtLimit);
    assert_eq!(c, clock(11_000, 10, 2));
}

#[test]
fn a_restart_clears_the_schedule_and_count() {
    assert_eq!(clock(7, 8, 2).restart(), clock(0, 0, 2));
}

#[test]
fn the_paced_recorder_waits_for_a_full_frame() {
    let c = PacedClock { last_capture: 1_000, frame_number: 0, buffer_index: 1 };
    assert_eq!(paced_capture_step(c, false, 5_000, FRAME, 5, false, 2), (c, CaptureStep::Idle));
    assert_eq!(paced_capture_step(c, true, 1_500, FRAME, 5, false, 2), (c, CaptureStep::Wait));
    assert_eq!(paced_capture_step(c, true, 2_500, FRAME, 5, true, 2), (c, CaptureStep::Busy));
    let (c2, step) = paced_capture_step(c, true, 2_000, FRAME, 5, true, 2);
    assert_eq!(step, CaptureStep::Capture { frame: 1, buffer: 1 });
    assert_eq!(c2, PacedClock { last_capture: 2_000, frame_number: 1, buffer_index: 0 });
    let full = PacedClock { last_capture: 1_000, frame_number: 5, buffer_index: 0 };
    let (c3, step) = paced_capture_step(full, true, 3_000, FRAME, 5, false, 2);
    assert_eq!(step, CaptureStep::StopAtLimit);
    assert_eq!(c3, PacedClock { last_capture: 3_000, frame_number: 5, buffer_index: 0 });
}

#[test]
fn the_worker_writes_frames_in_batches() {
    assert_eq!(worker_step(0, WorkerEvent::Frame), WorkerStep { process: false, stop: false, buffered: 1 });
    assert_eq!(worker_step(BATCH_SIZE - 2, WorkerEvent::Frame), WorkerStep { process: false, stop: false, buffered: 9 });
    assert_eq!(worker_step(BATCH_SIZE - 1, WorkerEvent::Frame), WorkerStep { process: true, stop: false, buffered: 0 });
    assert_eq!(worker_step(3, WorkerEvent::Timeout), WorkerStep { process: true, stop: false, buffered: 0 });
    assert_eq!(worker_step(0, WorkerEvent::Timeout), WorkerStep { process: false, stop: false, buffered: 0 });
    assert_eq!(worker_step(4, WorkerEvent::Disconnected), WorkerStep { process: true, stop: true, buffered: 0 });
    assert_eq!(worker_step(0, WorkerEvent::Disconnected), WorkerStep { process: false, stop: true, buffered: 0 });
}

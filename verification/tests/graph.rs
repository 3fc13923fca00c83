use cudarc::driver::sys::CUresult;
use cudarc::driver::DriverError;
use tensor_tape::graph::{conclude, is_capturing, CaptureError, CaptureFlag};

fn broken() -> DriverError {
    DriverError(CUresult::CUDA_ERROR_STREAM_CAPTURE_INVALIDATED)
}

#[test]
fn nothing_is_captured_at_first() {
    assert!(!is_capturing(&CaptureFlag::new()));
    assert!(is_capturing(&CaptureFlag { capturing: true }));
}

#[test]
fn failed_work_comes_before_a_failed_end() {
    assert!(matches!(conclude(Err("work"), Ok(None)), Err(CaptureError::Work("work"))));
    assert!(matches!(conclude(Err("work"), Err(broken())), Err(CaptureError::Work("work"))));
    match conclude::<&str>(Ok(()), Err(broken())) {
        Err(CaptureError::NotEnded(e)) => assert!(e == broken()),
        _ => panic!("the end of the capture failed"),
    }
    assert!(matches!(conclude::<&str>(Ok(()), Ok(None)), Err(CaptureError::NoGraph)));
}

#[test]
fn work_that_breaks_off_takes_the_flag_down() {
    let mut f = CaptureFlag { capturing: true };
    f.abandoned();
    assert!(!is_capturing(&f));
}

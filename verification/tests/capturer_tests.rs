use hyprhue::capturer::{check_globals, find_output, CaptureSetupError, FrameEvent, FrameNotice, FrameState, FORMAT_ARGB8888};

#[test]
fn frame_events_fill_the_state() {
    let mut s = FrameState::new();
    assert_eq!(s.format, FORMAT_ARGB8888);
    s.begin_frame();
    assert_eq!(s.on_event(FrameEvent::Buffer { format: Some(1), width: 1920, height: 1080, stride: 7680 }), FrameNotice::Nothing);
    assert!(s.buffer_done && !s.buffer_ready);
    assert_eq!((s.width, s.height, s.stride, s.format), (1920, 1080, 7680, 1));
    assert_eq!(s.buffer_len(), 7680 * 1080);
    assert_eq!(s.on_event(FrameEvent::Ready), FrameNotice::Nothing);
    assert!(s.buffer_ready);
    s.begin_frame();
    assert!(!s.buffer_done && !s.buffer_ready);
    assert_eq!(s.width, 1920);
}

#[test]
fn unknown_format_keeps_the_last_one() {
    let mut s = FrameState::new();
    s.on_event(FrameEvent::Buffer { format: None, width: 2, height: 2, stride: 8 });
    assert_eq!(s.format, FORMAT_ARGB8888);
}

#[test]
fn failure_is_reported() {
    let mut s = FrameState::new();
    assert_eq!(s.on_event(FrameEvent::Failed), FrameNotice::CaptureFailed);
    assert_eq!(s.on_event(FrameEvent::Other), FrameNotice::Nothing);
    assert!(!s.buffer_done && !s.buffer_ready);
}

#[test]
fn output_and_globals() {
    let ifaces = vec!["wl_shm".to_string(), "wl_output".to_string(), "wl_output".to_string()];
    assert_eq!(find_output(&ifaces), Some(1));
    assert_eq!(find_output(&vec!["wl_seat".to_string()]), None);
    assert_eq!(check_globals(None, false, false), Err(CaptureSetupError::NoOutput));
    assert_eq!(check_globals(Some(1), true, false), Err(CaptureSetupError::MissingGlobals));
    assert_eq!(check_globals(Some(1), true, true), Ok(1));
}

use pawcontrol::camera::{
    best_mode, looks_virtual, pick_index, sort_modes, CameraCommand, CameraConfig, CameraFormat,
    CameraState, CaptureCount, Device, FrameBus, FrameFormat, Request, Resolution,
};
use pawcontrol::frame::Frame;
use std::sync::Arc;

fn mode(w: u32, h: u32, format: FrameFormat, fps: u32) -> CameraFormat {
    CameraFormat::new(Resolution::new(w, h), format, fps)
}

fn frame(seq: u64) -> Arc<Frame> {
    let mut f = Frame::new(1, 1);
    f.seq = seq;
    Arc::new(f)
}

#[test]
fn bus_holds_only_the_newest_frame() {
    let mut bus = FrameBus::default();
    assert!(bus.latest().is_none());
    bus.publish(frame(1));
    bus.publish(frame(2));
    assert_eq!(bus.latest().unwrap().seq, 2);
    // Looking does not take it away.
    assert_eq!(bus.latest().unwrap().seq, 2);
}

#[test]
fn best_mode_prefers_mjpeg() {
    let modes = [
        mode(1920, 1080, FrameFormat::YUYV, 60),
        mode(1920, 1080, FrameFormat::MJPEG, 30),
        mode(640, 480, FrameFormat::MJPEG, 60),
    ];
    assert_eq!(best_mode(&modes, 1920, 1080), Some(modes[1]));
    assert_eq!(best_mode(&modes, 640, 480), Some(modes[2]));
    assert_eq!(best_mode(&modes, 800, 600), None);
}

#[test]
fn best_mode_prefers_the_fastest_sane_rate() {
    let modes = [
        mode(640, 480, FrameFormat::MJPEG, 15),
        mode(640, 480, FrameFormat::MJPEG, 60),
        mode(640, 480, FrameFormat::MJPEG, 30),
        mode(640, 480, FrameFormat::MJPEG, 120),
        mode(640, 480, FrameFormat::NV12, 60),
    ];
    assert_eq!(best_mode(&modes, 640, 480), Some(modes[1]));
    // Only rates above 60: they rank alike, and the last wins.
    let fast = [mode(640, 480, FrameFormat::YUYV, 90), mode(640, 480, FrameFormat::NV12, 120)];
    assert_eq!(best_mode(&fast, 640, 480), Some(fast[1]));
}

fn state(available: Vec<CameraFormat>) -> CameraState {
    let mut s = CameraState::default();
    s.available = available;
    s
}

#[test]
fn resolutions_are_distinct_and_sorted() {
    let s = state(vec![
        mode(1920, 1080, FrameFormat::MJPEG, 30),
        mode(640, 480, FrameFormat::MJPEG, 30),
        // Same pixel count as 640x480, so sorting alone does not bring the
        // two 640x480 entries together.
        mode(480, 640, FrameFormat::MJPEG, 30),
        mode(640, 480, FrameFormat::YUYV, 15),
        mode(320, 240, FrameFormat::MJPEG, 30),
    ]);
    assert_eq!(s.resolutions(), vec![(320, 240), (640, 480), (480, 640), (1920, 1080)]);
    assert_eq!(s.choices(), s.resolutions());
}

#[test]
fn panel_falls_back_to_the_current_size() {
    let mut s = state(Vec::new());
    s.current = (640, 480);
    assert!(s.resolutions().is_empty());
    assert_eq!(s.choices(), vec![(640, 480)]);
}

#[test]
fn requests_resolve_to_a_whole_mode() {
    let mut s = state(vec![mode(640, 480, FrameFormat::YUYV, 30)]);
    let command = s.set_resolution(640, 480);
    assert_eq!(command, Some(CameraCommand::SetFormat(mode(640, 480, FrameFormat::YUYV, 30))));
    assert!(s.last_error.is_none());
    assert_eq!(s.set_resolution(1280, 720), None);
    assert_eq!(s.last_error.as_deref(), Some("1280x720 is not an advertised mode"));
    assert_eq!(s.set_resolution(0, 4294967295), None);
    assert_eq!(s.last_error.as_deref(), Some("0x4294967295 is not an advertised mode"));
}

#[test]
fn choosing_the_current_size_asks_nothing() {
    let mut s = state(vec![mode(640, 480, FrameFormat::YUYV, 30)]);
    s.current = (640, 480);
    assert_eq!(s.choose_size((640, 480)), None);
    assert!(s.last_error.is_none());
    s.current = (320, 240);
    assert!(s.choose_size((640, 480)).is_some());
    assert!(s.choose_size((641, 480)).is_none());
    assert!(s.last_error.is_some());
}

#[test]
fn state_follows_what_the_driver_does() {
    let mut s = CameraState::default();
    s.rejected("busy".to_string());
    assert_eq!(s.last_error.as_deref(), Some("busy"));
    assert_eq!(s.current, (0, 0));
    let actual = mode(800, 600, FrameFormat::NV12, 24);
    s.settled(actual);
    assert_eq!(s.current, (800, 600));
    assert_eq!(s.current_format, Some(actual));
    assert!(s.last_error.is_none());
    let copy = s.clone();
    assert_eq!(copy.current, s.current);
    assert_eq!(copy.current_format, s.current_format);
}

#[test]
fn opening_needs_pixels() {
    let modes = vec![mode(640, 480, FrameFormat::MJPEG, 30)];
    assert!(CameraState::opened(modes.clone(), mode(0, 480, FrameFormat::MJPEG, 30)).is_none());
    assert!(CameraState::opened(modes.clone(), mode(640, 0, FrameFormat::MJPEG, 30)).is_none());
    let s = CameraState::opened(modes, mode(640, 480, FrameFormat::MJPEG, 30)).unwrap();
    assert_eq!(s.current, (640, 480));
    assert_eq!(s.available.len(), 1);
}

#[test]
fn modes_sort_by_pixels_then_rate() {
    let modes = vec![
        mode(1280, 720, FrameFormat::MJPEG, 30),
        mode(640, 480, FrameFormat::MJPEG, 60),
        mode(640, 480, FrameFormat::YUYV, 30),
        mode(65535, 65535, FrameFormat::MJPEG, 1),
    ];
    let sorted = sort_modes(&modes);
    assert_eq!(sorted, vec![modes[2], modes[1], modes[0], modes[3]]);
    assert_eq!(Resolution::new(4294967295, 2).area(), 8589934590);
}

#[test]
fn virtual_sources_are_recognised() {
    for name in [
        "NDI Webcam",
        "OBS-Camera",
        "obs studio",
        "Virtual Cam",
        "Dummy video device",
        "Screen grabber",
        "USB Capture Card",
        "Windi",
    ] {
        assert!(looks_virtual(name), "{name}");
    }
    for name in ["Integrated Webcam", "HD Pro Webcam C920", "Capture", "", "Kamera \u{dc}ber"] {
        assert!(!looks_virtual(name), "{name}");
    }
}

fn device(name: &str, index: Option<u32>) -> Device {
    Device { name: name.to_string(), index }
}

#[test]
fn first_physical_camera_is_picked() {
    let devices = vec![
        device("OBS Virtual Camera", Some(0)),
        device("Webcam without a number", None),
        device("HD Webcam", Some(2)),
        device("Other Webcam", Some(3)),
    ];
    assert_eq!(pick_index(&devices), 2);
    assert_eq!(pick_index(&vec![device("NDI", Some(7))]), 0);
    assert_eq!(pick_index(&Vec::new()), 0);
}

#[test]
fn only_sustained_failure_stops_the_thread() {
    let mut count = CaptureCount::new();
    for i in 1..=60 {
        assert!(!count.failed(), "stopped after {i}");
    }
    count.recovered();
    for _ in 0..60 {
        assert!(!count.failed());
    }
    assert!(count.failed());
    assert_eq!(count.decoded(), 1);
    assert_eq!(count.decoded(), 2);
}

#[test]
fn camera_defaults() {
    let cfg = CameraConfig::default();
    assert_eq!((cfg.index, cfg.width, cfg.height), (0, 640, 480));
    assert_eq!(cfg.request(), mode(640, 480, FrameFormat::MJPEG, 30));
}

#[test]
fn refused_modes_fall_back_to_the_closest() {
    let m = mode(1920, 1080, FrameFormat::MJPEG, 30);
    let first = Request::first(m);
    assert_eq!(first, Request::Exact(m));
    let second = first.after_refusal();
    assert_eq!(second, Some(Request::Closest(m)));
    assert_eq!(Request::Closest(m).after_refusal(), None);
}

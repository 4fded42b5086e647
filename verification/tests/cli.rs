use pawcontrol::cli::{parse, Job, NotANumber};

fn args(list: &[&str]) -> Vec<String> {
    list.iter().map(|s| s.to_string()).collect()
}

#[test]
fn no_arguments_run() {
    assert_eq!(parse(&args(&[])), Ok(Job::Run { camera: None }));
}

#[test]
fn camera_overrides_the_default() {
    assert_eq!(parse(&args(&["--camera", "3"])), Ok(Job::Run { camera: Some(3) }));
    assert_eq!(parse(&args(&["--camera", "+7"])), Ok(Job::Run { camera: Some(7) }));
    // Without a value there is nothing to override with.
    assert_eq!(parse(&args(&["--camera"])), Ok(Job::Run { camera: None }));
    // Unknown arguments are ignored.
    assert_eq!(parse(&args(&["x", "--camera", "1", "y"])), Ok(Job::Run { camera: Some(1) }));
}

#[test]
fn camera_must_be_a_number() {
    for bad in ["front", "-1", "4294967296", "", "+", "1 ", "0x1"] {
        let got = parse(&args(&["--camera", bad]));
        assert_eq!(got, Err(NotANumber { given: bad.to_string() }), "{bad:?}");
    }
}

#[test]
fn listing_modes_forgives_a_bad_camera() {
    assert_eq!(
        parse(&args(&["--list-modes", "--camera", "2"])),
        Ok(Job::ListModes { camera: Some(2) })
    );
    assert_eq!(
        parse(&args(&["--list-modes", "--camera", "front"])),
        Ok(Job::ListModes { camera: None })
    );
    assert_eq!(parse(&args(&["--list-modes"])), Ok(Job::ListModes { camera: None }));
}

#[test]
fn jobs_have_an_order() {
    assert_eq!(parse(&args(&["--help"])), Ok(Job::Help));
    assert_eq!(parse(&args(&["-h"])), Ok(Job::Help));
    assert_eq!(parse(&args(&["--list-cameras"])), Ok(Job::ListCameras));
    assert_eq!(parse(&args(&["--selftest"])), Ok(Job::SelfTest));
    let all = ["--camera", "x", "--selftest", "--list-modes", "--list-cameras", "--help"];
    assert_eq!(parse(&args(&all)), Ok(Job::Help));
    assert_eq!(parse(&args(&all[..5])), Ok(Job::ListCameras));
    assert_eq!(parse(&args(&all[..4])), Ok(Job::ListModes { camera: None }));
    assert_eq!(parse(&args(&all[..3])), Ok(Job::SelfTest));
    assert!(parse(&args(&all[..2])).is_err());
}

#[test]
fn the_first_camera_counts() {
    let a = args(&["--camera", "1", "--camera", "2"]);
    assert_eq!(parse(&a), Ok(Job::Run { camera: Some(1) }));
}

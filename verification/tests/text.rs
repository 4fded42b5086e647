use pawcontrol::text::{contains_ignoring_case, parse_u32, push_decimal};
use pawcontrol::fixed::Fx;
use pawcontrol::ui::Stats;

fn written(n: u64) -> String {
    let mut s = String::from("n=");
    push_decimal(&mut s, n);
    s
}

#[test]
fn numbers_are_written_in_decimal() {
    assert_eq!(written(0), "n=0");
    assert_eq!(written(9), "n=9");
    assert_eq!(written(10), "n=10");
    assert_eq!(written(1234567890), "n=1234567890");
    assert_eq!(written(u64::MAX), "n=18446744073709551615");
}

#[test]
fn numbers_are_read_back() {
    for n in [0u32, 7, 10, 99, 100, 65535, u32::MAX] {
        let mut s = String::new();
        push_decimal(&mut s, n as u64);
        assert_eq!(parse_u32(&s), Some(n));
    }
    assert_eq!(parse_u32("007"), Some(7));
    assert_eq!(parse_u32("4294967295"), Some(u32::MAX));
    assert_eq!(parse_u32("4294967296"), None);
    assert_eq!(parse_u32("99999999999999999999"), None);
    assert_eq!(parse_u32("4294967296x"), None);
    assert_eq!(parse_u32(""), None);
    assert_eq!(parse_u32("++1"), None);
    assert_eq!(parse_u32("1a"), None);
}

#[test]
fn parts_are_found_whatever_their_case() {
    assert!(contains_ignoring_case("Hello World", "lo wo"));
    assert!(contains_ignoring_case("abc", ""));
    assert!(contains_ignoring_case("", ""));
    assert!(!contains_ignoring_case("", "a"));
    assert!(contains_ignoring_case("xXyYZ", "xyyz"));
    assert!(!contains_ignoring_case("xyz", "xyzz"));
    assert!(!contains_ignoring_case("[", "{"), "only letters change case");
}

fn stats(fps: Fx, hands: usize, region_active: bool) -> Stats {
    Stats {
        fps,
        hands,
        region_active,
        adapter: "GPU".to_string(),
        inference_backend: "CPU".to_string(),
    }
}

#[test]
fn panel_headline() {
    let s = stats(Fx::ratio(597, 10), 1, true);
    assert_eq!(s.headline(), "60 fps   \u{b7}   1 hand   \u{b7}   region on");
    let s = stats(Fx::whole(30), 2, false);
    assert_eq!(s.headline(), "30 fps   \u{b7}   2 hands   \u{b7}   region off");
    assert_eq!(s.backends(), "GPU \u{b7} CPU");
}

#[test]
fn rates_round_to_even() {
    let head = |n: i32, d: u32| {
        let h = stats(Fx::ratio(n, d), 0, false).headline();
        h.split(' ').next().unwrap().to_string()
    };
    assert_eq!(head(1, 2), "0");
    assert_eq!(head(3, 2), "2");
    assert_eq!(head(5, 2), "2");
    assert_eq!(head(51, 20), "3");
    assert_eq!(head(-4, 1), "0");
}

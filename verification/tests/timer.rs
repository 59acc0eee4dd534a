use cordis::list::List;
use cordis::naming::{artifact_file, build_arguments, ensure_fixtures, service, to_snake_case};
use cordis::random::{fast_random, random_hex};
use cordis::text::{decimal, ends_with, join_texts, split_text, starts_with, text_less};
use cordis::timer::{ThrottleCall, TimerService, TimerTracker};

const TICK: u64 = 40;

fn at(ms: u64) -> u128 {
    ms as u128 * 1_000_000
}

#[test]
fn throttle_first_immediate_then_delayed() {
    let mut throttled = TimerService::throttle(TICK * 2, false);
    assert!(throttled.call(at(0)) == ThrottleCall::Run);
    assert!(throttled.call(at(1)) == ThrottleCall::Schedule(at(TICK * 2)));
    assert!(throttled.call(at(2)) == ThrottleCall::Skip);
    assert!(throttled.fire(at(TICK * 2)));
    assert!(throttled.call(at(TICK * 3)) == ThrottleCall::Schedule(at(TICK * 4)));
    assert!(throttled.fire(at(TICK * 4)));
    assert!(throttled.call(at(TICK * 6)) == ThrottleCall::Run);
}

#[test]
fn throttle_no_trailing_drops() {
    let mut throttled = TimerService::throttle(TICK * 2, true);
    assert!(throttled.call(at(0)) == ThrottleCall::Run);
    assert!(throttled.call(at(1)) == ThrottleCall::Skip);
    assert!(throttled.call(at(2)) == ThrottleCall::Skip);
}

#[test]
fn throttle_disposed_skips_trailing() {
    let mut throttled = TimerService::throttle(TICK, false);
    throttled.dispose();
    assert!(throttled.call(at(0)) == ThrottleCall::Run);
    assert!(throttled.call(at(1)) == ThrottleCall::Skip);
    assert!(!throttled.fire(at(TICK)));
}

#[test]
fn debounce_resets_and_fires_after_quiet() {
    let mut debounced = TimerService::debounce(TICK);
    assert_eq!(debounced.delay, TICK);
    let first = debounced.call().unwrap();
    let second = debounced.call().unwrap();
    let third = debounced.call().unwrap();
    assert!(!debounced.fires(first));
    assert!(!debounced.fires(second));
    assert!(debounced.fires(third));
}

#[test]
fn debounce_disposed_ignores_calls() {
    let mut debounced = TimerService::debounce(TICK);
    let first = debounced.call().unwrap();
    debounced.dispose();
    assert!(debounced.call().is_none());
    assert!(!debounced.fires(first));
}

#[test]
fn trackers_stop_all_timers() {
    let mut tracker = TimerTracker::new();
    tracker.track(4);
    tracker.track(9);
    assert_eq!(tracker.dispose(), &vec![4, 9]);
    assert!(tracker.disposed);
}

#[test]
fn push_grows_and_dispose_removes() {
    let mut list = List::new();
    assert_eq!(list.len(), 0);
    assert!(list.is_empty());
    let first = list.push(1);
    list.push(2);
    assert_eq!(list.len(), 2);
    list.remove(first);
    assert_eq!(list.len(), 1);
    assert_eq!(*list.iter()[0], 2);
    list.remove(first);
    assert_eq!(list.len(), 1);
}

#[test]
fn filter_and_map() {
    let mut list = List::new();
    for value in 1..=5 {
        list.push(value);
    }
    let evens = list.filter(|value| value % 2 == 0);
    assert_eq!(evens.iter().map(|v| **v).collect::<Vec<_>>(), vec![2, 4]);
    let doubled = list.map(|value| value * 2);
    assert_eq!(doubled, vec![2, 4, 6, 8, 10]);
}

#[test]
fn service_names() {
    assert_eq!(to_snake_case("Database"), "database");
    assert_eq!(to_snake_case("HttpServer2Go"), "http_server2_go");
    assert_eq!(to_snake_case("ÀB"), "À_b");
    assert_eq!(to_snake_case("aÀ"), "a_À");
    let names = service("MyCache");
    assert_eq!(names.service, "my_cache");
    assert_eq!(names.ext_trait, "MyCacheServiceExt");
}

#[test]
fn library_files() {
    assert_eq!(artifact_file("cordis-fixture-meta", "linux"), "libcordis_fixture_meta.so");
    assert_eq!(artifact_file("cordis-fixture-meta", "macos"), "libcordis_fixture_meta.dylib");
    assert_eq!(artifact_file("cordis-fixture-meta", "windows"), "cordis_fixture_meta.dll");
    let packages = vec!["a-b".to_string(), "c".to_string()];
    let present = vec!["liba_b.so".to_string()];
    let missing = ensure_fixtures(&packages, "linux", &present);
    assert_eq!(missing, vec!["c".to_string()]);
    assert_eq!(build_arguments(&missing), vec!["build", "-p", "c"]);
    assert!(ensure_fixtures(&packages, "linux", &vec!["liba_b.so".into(), "libc.so".into()]).is_empty());
}

#[test]
fn random_ids_follow_the_generator() {
    let mut state = 0;
    let x = fast_random(&mut state, 1);
    let mut y: u64 = 1;
    y ^= y << 13;
    y ^= y >> 7;
    y ^= y << 17;
    assert_eq!(x, y);
    assert_eq!(state, y);
    // A generator in use does not look at the seed any more.
    let mut other = state;
    assert_eq!(fast_random(&mut other, 77), fast_random(&mut state, 1));
    let mut state = 12345;
    let id = random_hex(8, &mut state, 1);
    assert_eq!(id.len(), 8);
    assert!(id.chars().all(|c| c.is_ascii_hexdigit()));
    let mut again = 12345;
    let expected: String = (0..8)
        .map(|_| std::char::from_digit((fast_random(&mut again, 1) % 16) as u32, 16).unwrap())
        .collect();
    assert_eq!(id, expected);
}

#[test]
fn texts() {
    assert_eq!(split_text("a:b::c", ':'), vec!["a", "b", "", "c"]);
    assert_eq!(split_text("", ':'), vec![""]);
    let parts = vec!["x".to_string(), "".to_string(), "y".to_string()];
    assert_eq!(join_texts(&parts, ":"), "x::y");
    assert_eq!(split_text(&join_texts(&parts, ":"), ':'), parts);
    assert_eq!(join_texts(&vec![], ":"), "");
    assert!(starts_with("cordis:x", "cordis:") && !starts_with("cor", "cordis"));
    assert!(ends_with("a.so", ".so") && !ends_with("so", ".so"));
    for (a, b) in [("a", "b"), ("a", "aa"), ("Z", "a"), ("z", "é"), ("\u{ffff}", "\u{10000}")] {
        assert!(text_less(a, b) && !text_less(b, a));
        assert_eq!(text_less(a, b), a < b);
    }
    assert!(!text_less("a", "a"));
    for n in [0, 9, 10, 105, u64::MAX] {
        assert_eq!(decimal(n), n.to_string());
    }
}

use voicemeeter_osd::single::Single;
use voicemeeter_osd::time::{Duration, Instant};
use voicemeeter_osd::vmr::{
    edition_of, find_dll_path, label_of, label_of_text, library_candidate, link_of,
    login_succeeded, reading, stereo_level, Backoff, Link,
};

fn backoff() -> Backoff {
    Backoff::new(Duration::from_secs(2), Duration::from_secs(10))
}

fn now() -> Instant {
    Instant {
        nanos: 1_234_567_890,
    }
}

fn single(x: f32) -> Single {
    Single::from_bits(x.to_bits())
}

#[test]
fn first_attempt_is_immediate() {
    assert!(backoff().attempt(now()));
}

#[test]
fn attempts_wait_for_the_delay() {
    let mut b = backoff();
    let t0 = now();
    assert!(b.attempt(t0));
    assert!(!b.attempt(t0.plus(Duration::from_secs(1))));
    assert!(b.attempt(t0.plus(Duration::from_secs(2))));
}

#[test]
fn delay_doubles_up_to_the_cap() {
    let mut b = backoff();
    let mut now = now();
    let mut waits = Vec::new();
    for _ in 0..5 {
        assert!(b.attempt(now));
        let next = b.next_at().unwrap();
        waits.push(next.since(now).as_secs());
        now = next;
    }
    assert_eq!(waits, [2, 4, 8, 10, 10]);
}

#[test]
fn reset_makes_retries_eager_again() {
    let mut b = backoff();
    let t0 = now();
    b.attempt(t0);
    b.attempt(t0.plus(Duration::from_secs(2)));
    b.reset();
    assert!(b.attempt(t0.plus(Duration::from_secs(3))));
    assert_eq!(b.delay(), Duration::from_secs(4));
}

#[test]
fn a_refused_attempt_changes_nothing() {
    let mut b = backoff();
    assert!(b.attempt(now()));
    let (delay, next) = (b.delay(), b.next_at());
    assert!(!b.attempt(now()));
    assert_eq!(b.delay(), delay);
    assert_eq!(b.next_at(), next);
}

#[test]
fn spans_of_time_convert() {
    assert_eq!(Duration::from_millis(1500).nanos, 1_500_000_000);
    assert_eq!(Duration::from_millis(1500).as_secs(), 1);
    let a = Instant { nanos: 5 };
    let b = Instant { nanos: 9 };
    assert_eq!(b.since(a).nanos, 4);
    assert_eq!(a.since(b).nanos, 0);
}

#[test]
fn pump_answers_tell_the_state_of_the_link() {
    assert_eq!(link_of(0), Link::Up);
    assert_eq!(link_of(1), Link::Up);
    assert_eq!(link_of(-2), Link::NoServer);
    assert_eq!(link_of(-1), Link::Stale);
    assert_eq!(link_of(-3), Link::Stale);
}

#[test]
fn a_login_without_a_running_mixer_still_counts() {
    assert!(login_succeeded(0));
    assert!(login_succeeded(1));
    assert!(!login_succeeded(-1));
    assert!(!login_succeeded(2));
}

#[test]
fn editions_are_recognised() {
    assert_eq!(edition_of(0, 1), Some(1));
    assert_eq!(edition_of(0, 2), Some(2));
    assert_eq!(edition_of(0, 3), Some(3));
    assert_eq!(edition_of(0, 6), Some(3));
    assert_eq!(edition_of(0, 4), None);
    assert_eq!(edition_of(-1, 2), None);
}

#[test]
fn failed_reads_have_no_value() {
    assert_eq!(reading(0, single(-6.0)), Some(single(-6.0)));
    assert_eq!(reading(-3, single(-6.0)), None);
}

#[test]
fn the_louder_side_of_a_pair_counts() {
    assert_eq!(
        stereo_level(Some(single(0.2)), Some(single(0.7))),
        Some(single(0.7))
    );
    assert_eq!(
        stereo_level(Some(single(0.9)), Some(single(0.7))),
        Some(single(0.9))
    );
    assert_eq!(stereo_level(Some(single(0.9)), None), Some(single(0.9)));
    assert_eq!(stereo_level(None, Some(single(0.7))), None);
    assert_eq!(
        stereo_level(Some(single(f32::NAN)), Some(single(0.7))),
        Some(single(0.7))
    );
}

#[test]
fn labels_are_trimmed_utf8_up_to_a_zero() {
    assert_eq!(label_of(0, b"  Desk Mic \0rest"), Some("Desk Mic".to_string()));
    assert_eq!(label_of(0, "Größe\0".as_bytes()), Some("Größe".to_string()));
    assert_eq!(label_of(0, b"\0"), None);
    assert_eq!(label_of(0, b"   \0"), None);
    assert_eq!(label_of(-5, b"Desk\0"), None);
    assert_eq!(label_of(0, b"no end"), Some("no end".to_string()));
}

#[test]
fn bytes_that_are_no_utf8_are_replaced() {
    assert_eq!(label_of(0, b"a\xFFb\0"), Some("a\u{FFFD}b".to_string()));
    assert_eq!(label_of_text(" \u{FFFD}x "), Some("\u{FFFD}x".to_string()));
    assert_eq!(label_of_text("\u{2003}\t"), None);
}

fn wide(s: &str) -> Vec<u16> {
    s.encode_utf16().chain(std::iter::once(0)).collect()
}

#[test]
fn the_library_lies_beside_the_uninstaller() {
    let plain = wide("C:\\VB\\Voicemeeter\\setup.exe");
    assert_eq!(
        library_candidate(&plain),
        Some("C:\\VB\\Voicemeeter\\VoicemeeterRemote64.dll".to_string())
    );
    let quoted = wide("  \"C:\\Program Files\\VB\\setup.exe\" -u ");
    assert_eq!(
        library_candidate(&quoted),
        Some("C:\\Program Files\\VB\\VoicemeeterRemote64.dll".to_string())
    );
    assert_eq!(library_candidate(&wide("setup.exe")), None);
    assert_eq!(library_candidate(&wide("")), None);
}

#[test]
fn the_default_place_is_the_fallback() {
    let default = "C:\\Program Files (x86)\\VB\\Voicemeeter\\VoicemeeterRemote64.dll";
    assert_eq!(find_dll_path(Some("D:\\x.dll".to_string()), true), "D:\\x.dll");
    assert_eq!(find_dll_path(Some("D:\\x.dll".to_string()), false), default);
    assert_eq!(find_dll_path(None, true), default);
}

#[test]
fn the_delay_stays_in_range_through_any_calls() {
    let mut b = backoff();
    let mut time = now();
    let mut seed: u64 = 7;
    for _ in 0..500 {
        seed = seed.wrapping_mul(6364136223846793005).wrapping_add(1442695040888963407);
        let before = b.delay().as_secs();
        if (seed >> 60) == 0 {
            b.reset();
            assert_eq!(b.delay().as_secs(), 2);
        } else {
            time = time.plus(Duration::from_secs((seed >> 33) % 7));
            if b.attempt(time) {
                assert_eq!(b.delay().as_secs(), (2 * before).min(10));
            } else {
                assert_eq!(b.delay().as_secs(), before);
            }
        }
        assert!((2..=10).contains(&b.delay().as_secs()));
    }
}

#[test]
fn an_attempt_that_is_not_due_needs_no_room_on_the_clock() {
    let mut b = Backoff::new(Duration { nanos: u128::MAX / 2 }, Duration { nanos: u128::MAX });
    assert!(b.attempt(Instant { nanos: 5 }));
    assert_eq!(b.delay().nanos, u128::MAX - 1);
    assert!(!b.attempt(Instant { nanos: u128::MAX / 2 }));
    assert_eq!(b.delay().nanos, u128::MAX - 1);
}

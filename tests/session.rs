use rust_cli::error::{IoFailure, Probe, ScanError};
use rust_cli::session::{file_times, find_session_files};
use rust_cli::timestamp::{get_last_tuesday, last_weekday, minutes_before, session_boundary, Timestamp};

const TUESDAY_2024_01_02: i64 = 1_704_153_600;
const DAY: i64 = 86_400;

fn at(secs: i64) -> Timestamp {
    Timestamp { secs, nanos: 0 }
}

fn weekday(t: Timestamp) -> i64 {
    (t.secs.div_euclid(DAY) + 4).rem_euclid(7)
}

#[test]
fn window_of_sixty_minutes() {
    let t = at(TUESDAY_2024_01_02 + 5 * 3600);
    let probes = vec![
        Probe { path: "recent".to_string(), outcome: Ok(at(t.secs - 600)) },
        Probe { path: "old".to_string(), outcome: Ok(at(t.secs - 4200)) },
        Probe { path: "now".to_string(), outcome: Ok(t) },
    ];
    let scan = file_times(probes);
    let boundary = minutes_before(t, "60").unwrap();
    assert_eq!(boundary, at(t.secs - 3600));
    let mut files = find_session_files(scan.clusters, boundary);
    files.sort();
    assert_eq!(files, vec!["now".to_string(), "recent".to_string()]);
}

#[test]
fn boundary_itself_is_in_session() {
    let b = Timestamp { secs: 1000, nanos: 500 };
    let scan = file_times(vec![
        Probe { path: "on".to_string(), outcome: Ok(b) },
        Probe { path: "before".to_string(), outcome: Ok(Timestamp { secs: 1000, nanos: 499 }) },
    ]);
    assert_eq!(find_session_files(scan.clusters, b), vec!["on".to_string()]);
}

#[test]
fn equal_times_keep_every_file() {
    let scan = file_times(vec![
        Probe { path: "a".to_string(), outcome: Ok(at(50)) },
        Probe { path: "b".to_string(), outcome: Ok(at(50)) },
    ]);
    assert_eq!(scan.clusters.len(), 1);
    assert_eq!(scan.clusters[0].files, vec!["a".to_string(), "b".to_string()]);
}

#[test]
fn metadata_failures_are_listed() {
    let scan = file_times(vec![
        Probe { path: "a".to_string(), outcome: Err(IoFailure::Unsupported) },
        Probe { path: "b".to_string(), outcome: Err(IoFailure::Other) },
        Probe { path: "c".to_string(), outcome: Ok(at(1)) },
    ]);
    assert_eq!(
        scan.skipped,
        vec![
            ScanError::UnsupportedPlatform("a".to_string()),
            ScanError::MetadataUnreadable("b".to_string(), IoFailure::Other),
        ]
    );
    assert_eq!(scan.clusters.len(), 1);
}

#[test]
fn last_tuesday_on_a_tuesday_is_today() {
    let now = Timestamp { secs: TUESDAY_2024_01_02 + 13 * 3600 + 7, nanos: 42 };
    assert_eq!(last_weekday(now, 2), Ok(at(TUESDAY_2024_01_02)));
}

#[test]
fn last_tuesday_from_every_weekday() {
    for offset in 0..7i64 {
        let now = at(TUESDAY_2024_01_02 + offset * DAY + 3600);
        let t = last_weekday(now, 2).unwrap();
        assert_eq!(t, at(TUESDAY_2024_01_02));
        assert_eq!(weekday(t), 2);
        assert!(now.secs - t.secs < 7 * DAY);
    }
    let monday = at(TUESDAY_2024_01_02 - DAY + 10);
    assert_eq!(last_weekday(monday, 2), Ok(at(TUESDAY_2024_01_02 - 7 * DAY)));
}

#[test]
fn last_weekday_before_the_epoch() {
    assert_eq!(last_weekday(at(-1), 2), Ok(at(-2 * DAY)));
    assert_eq!(last_weekday(at(-1), 3), Ok(at(-DAY)));
}

#[test]
fn weekday_out_of_range_is_rejected() {
    assert_eq!(last_weekday(at(0), 7), Err(ScanError::BadBoundarySpec(7)));
}

#[test]
fn last_tuesday_from_the_clock() {
    let t = get_last_tuesday();
    assert_eq!(weekday(t), 2);
    assert_eq!(t.nanos, 0);
    assert_eq!(t.secs.rem_euclid(DAY), 0);
}

#[test]
fn bad_durations_are_rejected() {
    let now = at(10_000);
    for s in ["", "abc", "-5", "6O", "1 0", "99999999999999999999999"] {
        assert_eq!(minutes_before(now, s), Err(ScanError::BadDuration(s.to_string())));
    }
    assert_eq!(minutes_before(now, "0"), Ok(now));
    assert_eq!(minutes_before(now, "007"), Ok(at(10_000 - 420)));
}

#[test]
fn duration_below_the_range_is_rejected() {
    let now = at(i64::MIN + 100);
    assert_eq!(minutes_before(now, "2"), Err(ScanError::BadDuration("2".to_string())));
    assert_eq!(minutes_before(now, "1"), Ok(at(i64::MIN + 40)));
}

#[test]
fn session_boundary_from_the_clock() {
    assert!(session_boundary("60").is_ok());
    assert_eq!(session_boundary("x1"), Err(ScanError::BadDuration("x1".to_string())));
}

#[test]
fn session_names() {
    assert_eq!(rust_cli::timestamp::session_name(""), "_one");
    assert_eq!(rust_cli::timestamp::session_name("work"), "work");
    assert_eq!(rust_cli::timestamp::start_session(""), Ok(()));
}

#[test]
fn times_that_differ_only_in_nanoseconds_are_apart() {
    let scan = file_times(vec![
        Probe { path: "a".to_string(), outcome: Ok(Timestamp { secs: -5, nanos: 1 }) },
        Probe { path: "b".to_string(), outcome: Ok(Timestamp { secs: -5, nanos: 2 }) },
        Probe { path: "c".to_string(), outcome: Ok(Timestamp { secs: -5, nanos: 1 }) },
    ]);
    assert_eq!(scan.clusters.len(), 2);
    assert_eq!(scan.clusters[0].files, vec!["a".to_string(), "c".to_string()]);
    assert_eq!(scan.clusters[1].files, vec!["b".to_string()]);
}

use void_engine::memory::MemoryField;
use void_engine::snapshot::{FieldValue, SnapshotRecord};

const MICRO: i64 = 1_000_000;

fn rec(pairs: &[(&str, i64)]) -> SnapshotRecord {
    let mut r = SnapshotRecord::new();
    for (name, units) in pairs {
        let ok = r.insert(name.as_bytes().to_vec(), FieldValue::Num(units * MICRO));
        assert!(ok);
    }
    r
}

fn num_of(r: &SnapshotRecord, key: &str) -> Option<i64> {
    r.get_num(key.as_bytes())
}

#[test]
fn fifo_retention_keeps_last_capacity_records() {
    let mut log = MemoryField::with_path(3, b"telemetry.json".to_vec());
    for i in 0..5i64 {
        let _ = log.record(rec(&[("i", i)]), 0);
        let expected = std::cmp::min((i + 1) as usize, 3);
        assert_eq!(log.len(), expected);
    }
    // The retained records are exactly the last three, in insertion order.
    assert_eq!(log.len(), 3);
    for (pos, want) in [(0usize, 2i64), (1, 3), (2, 4)] {
        let r = log.get(pos).unwrap();
        assert_eq!(num_of(r, "i"), Some(want * MICRO));
    }
    assert!(log.get(3).is_none());
    assert_eq!(num_of(log.latest().unwrap(), "i"), Some(4 * MICRO));
}

#[test]
fn average_of_two_records_is_three() {
    let mut log = MemoryField::new(16);
    let _ = log.record(rec(&[("x", 2)]), 0);
    let _ = log.record(rec(&[("x", 4)]), 0);
    let mean = log.average(b"x", 2).unwrap();
    assert_eq!(mean.sum, 6 * MICRO as i128);
    assert_eq!(mean.count, 2);
    let value = mean.sum as f64 / MICRO as f64 / mean.count as f64;
    assert_eq!(value as f32, 3.0f32);
}

#[test]
fn trend_over_three_records_is_eight() {
    let mut log = MemoryField::new(16);
    for v in [1i64, 5, 9] {
        let _ = log.record(rec(&[("x", v)]), 0);
    }
    let t = log.trend(b"x", 3).unwrap();
    assert_eq!(t, 8 * MICRO as i128);
    assert_eq!((t as f64 / MICRO as f64) as f32, 8.0f32);
}

#[test]
fn average_window_zero_clamps_to_one() {
    let mut log = MemoryField::new(16);
    let _ = log.record(rec(&[("x", 2)]), 0);
    let _ = log.record(rec(&[("x", 10)]), 0);
    // Window 0 is invalid input; it is clamped to 1, so only the latest
    // record counts.
    let mean = log.average(b"x", 0).unwrap();
    assert_eq!(mean.sum, 10 * MICRO as i128);
    assert_eq!(mean.count, 1);
}

#[test]
fn average_skips_records_without_the_field() {
    let mut log = MemoryField::new(16);
    let _ = log.record(rec(&[("x", 2)]), 0);
    let _ = log.record(rec(&[("y", 7)]), 0);
    let _ = log.record(rec(&[("x", 4)]), 0);
    let mean = log.average(b"x", 3).unwrap();
    assert_eq!(mean.sum, 6 * MICRO as i128);
    assert_eq!(mean.count, 2);
    // None exactly when no record in the window carries the field.
    assert!(log.average(b"z", 3).is_none());
}

#[test]
fn trend_requires_window_and_history_of_two() {
    let mut log = MemoryField::new(16);
    let _ = log.record(rec(&[("x", 1)]), 0);
    assert!(log.trend(b"x", 3).is_none()); // history too short
    let _ = log.record(rec(&[("x", 5)]), 0);
    assert!(log.trend(b"x", 1).is_none()); // window too short
    assert!(log.trend(b"y", 2).is_none()); // endpoint lacks the field
    assert_eq!(log.trend(b"x", 2), Some(4 * MICRO as i128));
}

#[test]
fn trend_window_larger_than_history_clamps() {
    let mut log = MemoryField::new(16);
    for v in [3i64, 4, 10] {
        let _ = log.record(rec(&[("x", v)]), 0);
    }
    assert_eq!(log.trend(b"x", 100), Some(7 * MICRO as i128));
}

#[test]
fn rotation_triggers_on_the_capacity_th_write() {
    let mut log = MemoryField::with_path(10, b"void_state.json".to_vec());
    // A stand-in for the backing file: the caller performs the effects.
    let mut live_file: Vec<Vec<u8>> = Vec::new();
    let mut archive: Option<(Vec<u8>, Vec<Vec<u8>>)> = None;

    for i in 0..10i64 {
        let eff = log.record(rec(&[("i", i)]), 1234);
        live_file.push(eff.line);
        match eff.archive {
            Some(name) => {
                assert_eq!(i, 9, "rotation must trigger exactly on the 10th write");
                archive = Some((name, std::mem::take(&mut live_file)));
                log.commit_rotation();
            }
            None => {
                assert!(i < 9);
                assert_eq!(log.writes_since_rotation(), (i + 1) as usize);
            }
        }
    }

    let (name, archived_lines) = archive.expect("an archive must exist after 10 writes");
    assert_eq!(name, b"void_state-1234.json".to_vec());
    assert_eq!(archived_lines.len(), 10);
    assert!(live_file.is_empty());
    assert_eq!(log.len(), 0);
    assert!(log.latest().is_none());
    assert_eq!(log.writes_since_rotation(), 0);
}

#[test]
fn rotation_counter_not_reset_until_commit() {
    let mut log = MemoryField::with_path(2, b"t.json".to_vec());
    let _ = log.record(rec(&[("a", 1)]), 7);
    let eff = log.record(rec(&[("a", 2)]), 7);
    assert!(eff.archive.is_some());
    // The caller could not archive; without commit_rotation the counter
    // stays, so the next write triggers rotation again.
    assert_eq!(log.writes_since_rotation(), 2);
    let eff2 = log.record(rec(&[("a", 3)]), 8);
    assert!(eff2.archive.is_some());
    assert_eq!(eff2.archive.unwrap(), b"t-8.json".to_vec());
}

#[test]
fn archive_name_derives_from_stem_and_seconds() {
    let log = MemoryField::with_path(4, b"logs/run.telemetry.json".to_vec());
    assert_eq!(log.archive_name(99), b"run.telemetry-99.json".to_vec());
    let log2 = MemoryField::with_path(4, b"noext".to_vec());
    assert_eq!(log2.archive_name(0), b"noext-0.json".to_vec());
    let log3 = MemoryField::with_path(4, b"dir/".to_vec());
    assert_eq!(log3.archive_name(5), b"void_state-5.json".to_vec());
}

#[test]
fn from_lines_skips_malformed_lines() {
    let lines: Vec<Vec<u8>> = vec![
        b"{\"a\":1}".to_vec(),
        b"not json".to_vec(),
        b"{\"a\":2}".to_vec(),
    ];
    let log = MemoryField::from_lines(512, b"void_state.json".to_vec(), &lines);
    assert_eq!(log.len(), 2);
    assert_eq!(num_of(log.get(0).unwrap(), "a"), Some(MICRO));
    assert_eq!(num_of(log.get(1).unwrap(), "a"), Some(2 * MICRO));
    assert_eq!(log.writes_since_rotation(), 2);
}

#[test]
fn from_lines_keeps_only_the_last_capacity_records() {
    let mut lines: Vec<Vec<u8>> = Vec::new();
    for i in 0..5i64 {
        lines.push(format!("{{\"i\":{}}}", i).into_bytes());
    }
    let log = MemoryField::from_lines(3, b"t.json".to_vec(), &lines);
    assert_eq!(log.len(), 3);
    assert_eq!(num_of(log.get(0).unwrap(), "i"), Some(2 * MICRO));
    assert_eq!(num_of(log.get(2).unwrap(), "i"), Some(4 * MICRO));
    assert_eq!(log.writes_since_rotation(), 3);
}

#[test]
fn flush_lines_mirror_the_history() {
    let mut log = MemoryField::new(8);
    let _ = log.record(rec(&[("x", 1)]), 0);
    let _ = log.record(rec(&[("x", 2)]), 0);
    let lines = log.flush_lines();
    assert_eq!(lines.len(), 2);
    assert_eq!(lines[0], b"{\"x\":1}".to_vec());
    assert_eq!(lines[1], b"{\"x\":2}".to_vec());
    // A flush-then-restore round trip reproduces the history.
    let restored = MemoryField::from_lines(8, b"void_state.json".to_vec(), &lines);
    assert_eq!(restored.len(), 2);
    assert_eq!(num_of(restored.get(0).unwrap(), "x"), Some(MICRO));
    assert_eq!(num_of(restored.get(1).unwrap(), "x"), Some(2 * MICRO));
}

#[test]
fn analytics_on_an_empty_log_are_none() {
    let log = MemoryField::new(4);
    assert!(log.average(b"x", 10).is_none());
    assert!(log.trend(b"x", 10).is_none());
    assert!(log.latest().is_none());
    assert_eq!(log.len(), 0);
}

#[test]
fn default_log_uses_the_default_path_and_capacity() {
    let log = MemoryField::default();
    assert_eq!(log.capacity(), 512);
    assert_eq!(log.len(), 0);
    assert_eq!(log.path(), &b"void_state.json".to_vec());
    assert_eq!(log.writes_since_rotation(), 0);
}

#[test]
fn capacity_zero_is_raised_to_one() {
    let mut log = MemoryField::new(0);
    assert_eq!(log.capacity(), 1);
    let eff = log.record(rec(&[("x", 1)]), 3);
    assert!(eff.archive.is_some());
    assert_eq!(log.len(), 1);
}

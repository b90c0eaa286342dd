use std::io::Cursor;

use mcapable_core::rolling::factory::{
    join_path, FileRotationBase, FnSinkFactory, SequentialFiles, TimestampFiles,
};
use mcapable_core::rolling::time::{format_utc_timestamp, Duration, SystemTime};
use mcapable_core::rolling::trigger::{
    AnyTrigger, FnTrigger, LogDuration, MaxSize, MessageCount, SplitTrigger, WallDuration,
};
use mcapable_core::rolling::types::{SplitContext, TriggerState};
use mcapable_core::rolling::writer::{RollingWriter, WriteStep};
use mcapable_core::writer::{ChannelSpec, WriterBuilder};

fn state(overrides: impl FnOnce(&mut TriggerState)) -> TriggerState {
    let mut s = TriggerState {
        estimated_file_size: 0,
        message_count: 0,
        wall_elapsed: Duration::zero(),
        log_time_span: 0,
        current_log_time: 0,
    };
    overrides(&mut s);
    s
}

fn now() -> SystemTime {
    let d = std::time::SystemTime::now()
        .duration_since(std::time::SystemTime::UNIX_EPOCH)
        .unwrap_or_default();
    SystemTime::from_since_epoch(Duration::new(d.as_secs(), d.subsec_nanos()))
}

fn split_context(file_index: usize) -> SplitContext {
    SplitContext {
        file_index,
        trigger_name: None,
        split_time: now(),
        prev_log_time_range: None,
    }
}

#[test]
fn max_size_trigger() {
    let mut t = MaxSize::new(100);
    assert!(!t.should_split(&state(|s| s.estimated_file_size = 99)));
    assert!(!t.should_split(&state(|s| s.estimated_file_size = 100)));
    assert!(t.should_split(&state(|s| s.estimated_file_size = 101)));
}

#[test]
fn wall_duration_trigger() {
    let mut t = WallDuration::new(Duration::from_secs(10));
    assert!(!t.should_split(&state(|s| s.wall_elapsed = Duration::from_secs(9))));
    assert!(!t.should_split(&state(|s| s.wall_elapsed = Duration::from_secs(10))));
    assert!(t.should_split(&state(|s| s.wall_elapsed = Duration::from_secs(11))));
}

#[test]
fn log_duration_trigger() {
    let mut t = LogDuration::new(1_000_000_000);
    assert!(!t.should_split(&state(|s| s.log_time_span = 999_999_999)));
    assert!(!t.should_split(&state(|s| s.log_time_span = 1_000_000_000)));
    assert!(t.should_split(&state(|s| s.log_time_span = 1_000_000_001)));
}

#[test]
fn message_count_trigger() {
    let mut t = MessageCount::new(100);
    assert!(!t.should_split(&state(|s| s.message_count = 99)));
    assert!(t.should_split(&state(|s| s.message_count = 100)));
    assert!(t.should_split(&state(|s| s.message_count = 101)));
}

#[test]
fn fn_trigger() {
    let mut t = FnTrigger::new("custom", |s: &TriggerState| s.message_count > 5);
    assert!(!t.should_split(&state(|s| s.message_count = 5)));
    assert!(t.should_split(&state(|s| s.message_count = 6)));
    assert_eq!(t.name(), "custom");
}

#[test]
fn trigger_any_trigger_first_to_fire() {
    let mut t = AnyTrigger::new()
        .or(MaxSize::new(1000))
        .or(MessageCount::new(5));

    // Neither fires
    assert!(!t.should_split(&state(|s| {
        s.estimated_file_size = 500;
        s.message_count = 3;
    })));

    // MessageCount fires first
    assert!(t.should_split(&state(|s| {
        s.estimated_file_size = 500;
        s.message_count = 5;
    })));
    assert_eq!(t.name(), "MessageCount");

    // Reset
    t.reset();

    // MaxSize fires
    assert!(t.should_split(&state(|s| {
        s.estimated_file_size = 1001;
        s.message_count = 1;
    })));
    assert_eq!(t.name(), "MaxSize");
}

#[test]
fn any_trigger_empty() {
    let mut t = AnyTrigger::new();
    assert!(!t.should_split(&state(|_| {})));
    assert_eq!(t.name(), "AnyTrigger");
}

#[test]
fn any_trigger_reset_restores_default_name() {
    let mut t = AnyTrigger::new().or(MessageCount::new(1));
    assert!(t.should_split(&state(|s| s.message_count = 1)));
    assert_eq!(t.name(), "MessageCount");
    t.reset();
    assert_eq!(t.name(), "AnyTrigger");
}

#[test]
fn any_trigger_keeps_name_when_nothing_fires() {
    let mut t = AnyTrigger::new().or(MaxSize::new(10)).or(MessageCount::new(10));
    assert!(t.should_split(&state(|s| s.estimated_file_size = 11)));
    assert!(!t.should_split(&state(|s| s.estimated_file_size = 1)));
    assert_eq!(t.name(), "MaxSize");
}

#[test]
fn trigger_names() {
    assert_eq!(MaxSize::new(1).name(), "MaxSize");
    assert_eq!(WallDuration::new(Duration::from_secs(1)).name(), "WallDuration");
    assert_eq!(LogDuration::new(1).name(), "LogDuration");
    assert_eq!(MessageCount::new(1).name(), "MessageCount");
}

#[test]
fn wall_duration_compares_sub_second_parts() {
    let mut t = WallDuration::new(Duration::from_millis(1500));
    assert!(!t.should_split(&state(|s| s.wall_elapsed = Duration::new(1, 500_000_000))));
    assert!(t.should_split(&state(|s| s.wall_elapsed = Duration::new(1, 500_000_001))));
}

#[test]
fn duration_parts() {
    let d = Duration::new(3, 2_500_000_000);
    assert_eq!(d.as_secs(), 5);
    assert_eq!(d.as_nanos(), 5_500_000_000);
    assert_eq!(Duration::from_millis(2500).as_nanos(), 2_500_000_000);
    assert_eq!(Duration::from_nanos(7).as_nanos(), 7);
    assert!(Duration::from_secs(2).is_longer_than(&Duration::from_millis(1999)));
}

#[test]
fn sequential_path_format() {
    let factory = SequentialFiles::new("/tmp/test", "rec");
    assert_eq!(
        std::path::PathBuf::from(factory.path_for_index(0)),
        std::path::PathBuf::from("/tmp/test/rec_000000.mcap")
    );
    assert_eq!(
        std::path::PathBuf::from(factory.path_for_index(42)),
        std::path::PathBuf::from("/tmp/test/rec_000042.mcap")
    );
}

#[test]
fn sequential_path_wide_index() {
    let factory = SequentialFiles::new("out/", "x");
    assert_eq!(factory.path_for_index(1234567), "out/x_1234567.mcap");
    assert_eq!(factory.path_for(&split_context(7)), "out/x_000007.mcap");
}

#[test]
fn utc_timestamp_format() {
    // Unix epoch
    let ts = format_utc_timestamp(SystemTime::unix_epoch());
    assert_eq!(ts, "19700101T000000Z");

    // Known timestamp: 2026-03-31 18:30:22 UTC = 1774981822
    let time = SystemTime::unix_epoch()
        .checked_add(Duration::from_secs(1774981822))
        .unwrap();
    let ts = format_utc_timestamp(time);
    assert_eq!(ts, "20260331T183022Z");
}

#[test]
fn utc_timestamp_leap_days() {
    // 2000-02-29 12:00:00 UTC
    let t = SystemTime::from_since_epoch(Duration::from_secs(951825600));
    assert_eq!(format_utc_timestamp(t), "20000229T120000Z");
    // 2024-12-31 23:59:59 UTC
    let t = SystemTime::from_since_epoch(Duration::from_secs(1735689599));
    assert_eq!(format_utc_timestamp(t), "20241231T235959Z");
}

#[test]
fn utc_timestamp_century_years() {
    // 2100 is not a leap year: February ends on the 28th.
    let t = SystemTime::from_since_epoch(Duration::from_secs(4107542399));
    assert_eq!(format_utc_timestamp(t), "21000228T235959Z");
    let t = SystemTime::from_since_epoch(Duration::from_secs(4107542400));
    assert_eq!(format_utc_timestamp(t), "21000301T000000Z");
    // 2400 is a leap year.
    let t = SystemTime::from_since_epoch(Duration::from_secs(13574585228));
    assert_eq!(format_utc_timestamp(t), "24000229T060708Z");
    // The turn of the first 400-year cycle after the epoch.
    let t = SystemTime::from_since_epoch(Duration::from_secs(12622780799));
    assert_eq!(format_utc_timestamp(t), "23691231T235959Z");
    let t = SystemTime::from_since_epoch(Duration::from_secs(12622780800));
    assert_eq!(format_utc_timestamp(t), "23700101T000000Z");
    let t = SystemTime::from_since_epoch(Duration::from_secs(253402300799));
    assert_eq!(format_utc_timestamp(t), "99991231T235959Z");
}

#[test]
fn timestamp_file_names() {
    let factory = TimestampFiles::new("logs", "log");
    let t = SystemTime::from_since_epoch(Duration::new(1774981822, 999_999_999));
    assert_eq!(factory.path_for_time(t), "logs/log_20260331T183022Z.mcap");
}

#[test]
fn join_path_rules() {
    assert_eq!(join_path("a", "b"), "a/b");
    assert_eq!(join_path("a/", "b"), "a/b");
    assert_eq!(join_path("", "b"), "b");
    assert_eq!(join_path("a", "/b"), "/b");
}

#[test]
fn rotation_evicts_oldest_beyond_limit() {
    let mut r = FileRotationBase::new("d", "p");
    r.set_max_files(2);
    r.record_created("one".to_string());
    r.record_created("two".to_string());
    assert_eq!(r.next_eviction(), None);
    r.record_created("three".to_string());
    assert_eq!(r.next_eviction(), Some("one".to_string()));
    assert_eq!(r.next_eviction(), None);
}

#[test]
fn rotation_without_limit_keeps_everything() {
    let mut r = FileRotationBase::new("d", "p");
    for i in 0..5 {
        r.record_created(format!("f{i}"));
    }
    assert_eq!(r.next_eviction(), None);
}

#[test]
fn factories_with_max_files() {
    let s = SequentialFiles::new("d", "p").max_files(3);
    assert_eq!(s.path_for_index(1), "d/p_000001.mcap");
    let t = TimestampFiles::new("d", "p").max_files(1);
    assert_eq!(t.path_for_time(SystemTime::unix_epoch()), "d/p_19700101T000000Z.mcap");
}

#[test]
fn fn_sink_factory_direct() {
    let mut received_index = None;
    let mut factory = FnSinkFactory::new(|ctx: &SplitContext| {
        received_index = Some(ctx.file_index);
        Ok::<Cursor<Vec<u8>>, std::io::Error>(Cursor::new(Vec::new()))
    });

    let _sink = factory.create_sink(&split_context(42)).unwrap();
    assert_eq!(received_index, Some(42));
}

#[test]
fn builtin_triggers_answer_the_same_on_every_check() {
    let st = |size: u64, count: u64| TriggerState {
        estimated_file_size: size,
        message_count: count,
        wall_elapsed: Duration::zero(),
        log_time_span: 0,
        current_log_time: 0,
    };
    let mut t = MaxSize::new(100);
    for _ in 0..3 {
        assert!(!t.should_split(&st(100, 0)));
        assert!(t.should_split(&st(101, 0)));
    }
    t.reset();
    assert!(t.should_split(&st(101, 0)));
    let mut any = AnyTrigger::new().or(MaxSize::new(1000)).or(MessageCount::new(5));
    assert!(any.should_split(&st(500, 5)));
    assert_eq!(any.name(), "MessageCount");
    any.reset();
    assert_eq!(any.name(), "AnyTrigger");
    assert!(any.should_split(&st(1001, 1)));
    assert_eq!(any.name(), "MaxSize");
}

#[test]
fn sixth_write_under_five_message_trigger_splits_first() {
    let mut w = RollingWriter::new(WriterBuilder::new(), MessageCount::new(5), 0).unwrap();
    let mut ch = w.add_channel(ChannelSpec::new("/t".to_string(), "raw".to_string())).unwrap();
    let zero = Duration::from_secs(0);
    for i in 0..5u64 {
        let step = w.write_or_split(&mut ch, i, i, b"x", zero).unwrap();
        assert!(matches!(step, WriteStep::Written));
    }
    assert_eq!(w.current_file_message_count(), 5);
    let step = w.write_or_split(&mut ch, 5, 5, b"x", zero).unwrap();
    assert!(matches!(step, WriteStep::SplitFirst));
    assert_eq!(w.current_file_message_count(), 5);

    let tail = w.begin_split(SystemTime::unix_epoch()).unwrap();
    assert_eq!(tail.closed.message_count, 5);
    assert_eq!(tail.next.trigger_name.as_deref(), Some("MessageCount"));
    w.complete_split(tail.closed.file_size).unwrap();
    assert_eq!(w.current_file_index(), 1);
    let step = w.write_or_split(&mut ch, 5, 5, b"x", zero).unwrap();
    assert!(matches!(step, WriteStep::Written));
    assert_eq!(w.current_file_message_count(), 1);
}

#[test]
fn utc_timestamps_sort_in_time_order() {
    let secs = [0u64, 59, 60, 3599, 3600, 86399, 86400, 951825600, 4107542399, 4107542400, 253402300799];
    let names: Vec<String> =
        secs.iter().map(|s| format_utc_timestamp(SystemTime::from_since_epoch(Duration::from_secs(*s)))).collect();
    for w in names.windows(2) {
        assert!(w[0] < w[1], "{} should sort before {}", w[0], w[1]);
    }
    assert!(names.iter().all(|n| n.len() == 16));
}

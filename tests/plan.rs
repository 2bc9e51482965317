use fast_down_gui::plan::{
    end_status, on_range_dropped, plan_download, progress_complete, should_report, should_retry,
    start_action, choose_pusher, parse_write_method, DropOutcome, StartAction, EngineKind, FileId, PriorRecord, RunConfig, Status, UrlInfo, WriteMethod,
};
use fast_down_gui::range::ByteRange;

fn id(etag: &str) -> FileId {
    FileId {
        etag: Some(etag.to_string()),
        last_modified: None,
    }
}

fn info(size: u64, ranges: bool, etag: &str) -> UrlInfo {
    UrlInfo::new(
        size,
        "file.bin".to_string(),
        ranges,
        "http://example.com/file.bin".to_string(),
        id(etag),
    )
}

fn config() -> RunConfig {
    RunConfig {
        threads: 4,
        min_chunk_size: 65_536,
        write_method: WriteMethod::Mmap,
    }
}

#[test]
fn fast_download_needs_ranges_and_size() {
    assert!(info(10, true, "a").fast_download);
    assert!(!info(0, true, "a").fast_download);
    assert!(!info(10, false, "a").fast_download);
}

#[test]
fn fresh_multi_range_plan() {
    let plan = plan_download(&info(10_485_760, true, "a"), &config(), None, false);
    assert!(!plan.resume);
    assert_eq!(plan.engine, EngineKind::Multi);
    assert_eq!(plan.threads, 4);
    assert_eq!(plan.write_method, WriteMethod::Mmap);
    assert_eq!(plan.chunks, vec![ByteRange::new(0, 10_485_760)]);
    assert!(plan.progress.is_empty());
}

#[test]
fn resumed_plan_fetches_only_the_gap() {
    let prior = PriorRecord {
        file_id: id("a"),
        progress: vec![ByteRange::new(0, 4_000_000), ByteRange::new(6_000_000, 10_485_760)],
        elapsed_ms: 1234,
    };
    let plan = plan_download(&info(10_485_760, true, "a"), &config(), Some(prior), true);
    assert!(plan.resume);
    assert_eq!(plan.elapsed_ms, 1234);
    assert_eq!(plan.chunks, vec![ByteRange::new(4_000_000, 6_000_000)]);
}

#[test]
fn changed_identity_restarts() {
    let prior = PriorRecord {
        file_id: id("a"),
        progress: vec![ByteRange::new(0, 4_000_000)],
        elapsed_ms: 99,
    };
    let plan = plan_download(&info(10_485_760, true, "b"), &config(), Some(prior), true);
    assert!(!plan.resume);
    assert_eq!(plan.elapsed_ms, 0);
    assert_eq!(plan.chunks, vec![ByteRange::new(0, 10_485_760)]);
}

#[test]
fn missing_file_restarts() {
    let prior = PriorRecord {
        file_id: id("a"),
        progress: vec![ByteRange::new(0, 4_000_000)],
        elapsed_ms: 99,
    };
    let plan = plan_download(&info(10_485_760, true, "a"), &config(), Some(prior), false);
    assert!(!plan.resume);
}

#[test]
fn single_stream_plan_without_ranges() {
    let plan = plan_download(&info(5000, false, "a"), &config(), None, false);
    assert_eq!(plan.engine, EngineKind::Single);
    assert_eq!(plan.threads, 1);
    assert_eq!(plan.write_method, WriteMethod::Std);
    assert!(plan.chunks.is_empty());
}

#[test]
fn zero_threads_means_one() {
    let c = RunConfig {
        threads: 0,
        min_chunk_size: 1,
        write_method: WriteMethod::Std,
    };
    let plan = plan_download(&info(100, true, "a"), &c, None, false);
    assert_eq!(plan.threads, 1);
    assert_eq!(plan.write_method, WriteMethod::Std);
}

#[test]
fn end_status_rules() {
    let done = vec![ByteRange::new(0, 100)];
    let part = vec![ByteRange::new(0, 50)];
    assert_eq!(end_status(true, false, &done, 100), Status::Error);
    assert_eq!(end_status(false, true, &part, 100), Status::Paused);
    assert_eq!(end_status(false, false, &done, 100), Status::Completed);
    assert_eq!(end_status(false, false, &part, 100), Status::Error);
    assert_eq!(end_status(false, false, &part, 0), Status::Completed);
    assert!(progress_complete(&done, 100));
    assert!(!progress_complete(&part, 100));
}

#[test]
fn file_identity_compares_both_validators() {
    let a = FileId {
        etag: Some("x".to_string()),
        last_modified: Some("Mon".to_string()),
    };
    let b = FileId {
        etag: Some("x".to_string()),
        last_modified: None,
    };
    assert!(a.matches(&a.clone()));
    assert!(!a.matches(&b));
    assert!(FileId {
        etag: None,
        last_modified: None
    }
    .matches(&FileId {
        etag: None,
        last_modified: None
    }));
}

#[test]
fn prefetch_retries_up_to_limit() {
    assert!(should_retry(1, 10));
    assert!(should_retry(10, 10));
    assert!(!should_retry(11, 10));
    assert!(!should_retry(1, 0));
}

#[test]
fn range_drop_outcomes() {
    assert_eq!(on_range_dropped(0, 0), DropOutcome::Downgrade);
    assert_eq!(on_range_dropped(0, 5), DropOutcome::Fail);
    assert_eq!(on_range_dropped(2, 0), DropOutcome::Fail);
}

#[test]
fn report_once_a_second() {
    assert!(!should_report(999));
    assert!(should_report(1000));
}

#[test]
fn starting_a_task() {
    assert_eq!(start_action(true, Some(Status::Paused)), StartAction::Refuse);
    assert_eq!(start_action(false, None), StartAction::Refuse);
    assert_eq!(start_action(false, Some(Status::Completed)), StartAction::Restart);
    assert_eq!(start_action(false, Some(Status::Paused)), StartAction::Resume);
    assert_eq!(start_action(false, Some(Status::Error)), StartAction::Resume);
}

#[test]
fn zero_min_chunk_means_eight_kib() {
    let c = RunConfig {
        threads: 2,
        min_chunk_size: 0,
        write_method: WriteMethod::Mmap,
    };
    let progress = vec![ByteRange::new(0, 10), ByteRange::new(20, 100)];
    let prior = PriorRecord {
        file_id: id("a"),
        progress,
        elapsed_ms: 0,
    };
    let plan = plan_download(&info(100_000, true, "a"), &c, Some(prior), true);
    assert_eq!(plan.min_chunk_size, 8192);
    assert_eq!(plan.chunks, vec![ByteRange::new(10, 100_000)]);
    assert_eq!(plan_download(&info(10, true, "a"), &config(), None, false).min_chunk_size, 65_536);
}

#[test]
fn write_method_text_and_fallback() {
    assert_eq!(parse_write_method("mmap"), WriteMethod::Mmap);
    assert_eq!(parse_write_method("std"), WriteMethod::Std);
    assert_eq!(parse_write_method("other"), WriteMethod::Std);
    assert_eq!(choose_pusher(WriteMethod::Mmap, true), WriteMethod::Mmap);
    assert_eq!(choose_pusher(WriteMethod::Mmap, false), WriteMethod::Std);
    assert_eq!(choose_pusher(WriteMethod::Std, true), WriteMethod::Std);
}

use crate::range::{ByteRange, canonical, invert, invert_spec};
use vstd::prelude::*;

verus! {

/// How the file is written.
#[derive(Clone, Copy, Debug, PartialEq, Eq, Structural)]
pub enum WriteMethod {
    /// The file is memory-mapped at its full length.
    Mmap,
    /// Positioned writes through a coalescing buffer.
    Std,
}

/// Which engine drives the download.
#[derive(Clone, Copy, Debug, PartialEq, Eq, Structural)]
pub enum EngineKind {
    /// Many range requests in parallel.
    Multi,
    /// One sequential stream from byte zero.
    Single,
}

/// Terminal status of a task record.
#[derive(Clone, Copy, Debug, PartialEq, Eq, Structural)]
pub enum Status {
    Completed,
    Error,
    Paused,
}

/// Validators the server gives for the content: used to refuse resuming
/// over a file whose content has changed.
#[derive(Clone, Debug)]
pub struct FileId {
    pub etag: Option<String>,
    pub last_modified: Option<String>,
}

pub open spec fn opt_view(o: Option<String>) -> Option<Seq<char>> {
    match o {
        Some(s) => Some(s@),
        None => None,
    }
}

/// Two identities are the same when both validators agree, compared as a
/// pair.
pub open spec fn same_id(a: FileId, b: FileId) -> bool {
    opt_view(a.etag) == opt_view(b.etag) && opt_view(a.last_modified) == opt_view(b.last_modified)
}

fn opt_eq(a: &Option<String>, b: &Option<String>) -> (r: bool)
    ensures
        r == (opt_view(*a) == opt_view(*b)),
{
    match (a, b) {
        (Some(x), Some(y)) => *x == *y,
        (None, None) => true,
        _ => false,
    }
}

impl FileId {
    /// Whether `self` and `other` identify the same content.
    pub fn matches(&self, other: &FileId) -> (r: bool)
        ensures
            r == same_id(*self, *other),
    {
        opt_eq(&self.etag, &other.etag) && opt_eq(&self.last_modified, &other.last_modified)
    }
}

/// What probing a URL found out.
#[derive(Clone, Debug)]
pub struct UrlInfo {
    pub size: u64,
    pub raw_name: String,
    pub supports_range: bool,
    pub fast_download: bool,
    pub final_url: String,
    pub file_id: FileId,
}

impl UrlInfo {
    /// Gathers probe results; parallel download is possible exactly when
    /// the server honours ranges and the size is known and non-zero.
    pub fn new(
        size: u64,
        raw_name: String,
        supports_range: bool,
        final_url: String,
        file_id: FileId,
    ) -> (r: UrlInfo)
        ensures
            r.size == size,
            r.raw_name == raw_name,
            r.supports_range == supports_range,
            r.fast_download == (supports_range && size > 0),
            r.final_url == final_url,
            r.file_id == file_id,
    {
        UrlInfo { size, raw_name, supports_range, fast_download: supports_range && size > 0, final_url, file_id }
    }
}

/// What a previous run of the task left behind.
#[derive(Clone, Debug)]
pub struct PriorRecord {
    pub file_id: FileId,
    pub progress: Vec<ByteRange>,
    pub elapsed_ms: u64,
}

/// The part of the configuration that decides how a task runs.
#[derive(Clone, Copy, Debug)]
pub struct RunConfig {
    pub threads: usize,
    pub min_chunk_size: u64,
    pub write_method: WriteMethod,
}

/// How one run of a task proceeds.
#[derive(Debug)]
pub struct DownloadPlan {
    /// Whether the prior record is continued rather than started afresh.
    pub resume: bool,
    pub engine: EngineKind,
    pub threads: usize,
    pub write_method: WriteMethod,
    /// Bytes already done when the run starts.
    pub progress: Vec<ByteRange>,
    pub elapsed_ms: u64,
    /// Ranges the parallel engine is to fetch.
    pub chunks: Vec<ByteRange>,
    /// Smallest piece the parallel engine splits off.
    pub min_chunk_size: u64,
}

/// The smallest chunk used when the settings give none.
pub const DEFAULT_MIN_CHUNK: u64 = 8192;

/// The minimum chunk size in effect: the configured one, or 8 KiB when that
/// is zero.
pub open spec fn effective_min_chunk(configured: u64) -> u64 {
    if configured > 0 { configured } else { DEFAULT_MIN_CHUNK }
}

/// Whether a run continues `prior`: it exists, its file is still on disk,
/// and the server still identifies the content the same way.
pub open spec fn resumes(info: UrlInfo, prior: Option<PriorRecord>, file_exists: bool) -> bool {
    match prior {
        Some(p) => file_exists && same_id(p.file_id, info.file_id),
        None => false,
    }
}

/// Decides how a run proceeds. A resumed run starts from the prior
/// progress and elapsed time, a fresh one from nothing. A parallel run
/// uses `max(1, threads)` workers, the configured write method, and
/// fetches what `invert` leaves of the progress; a sequential run uses one
/// worker and buffered writes.
pub fn plan_download(
    info: &UrlInfo,
    config: &RunConfig,
    prior: Option<PriorRecord>,
    file_exists: bool,
) -> (r: DownloadPlan)
    requires
        prior matches Some(p) ==> canonical(p.progress@),
    ensures
        r.resume == resumes(*info, prior, file_exists),
        r.resume ==> r.progress@ == prior->0.progress@ && r.elapsed_ms == prior->0.elapsed_ms,
        !r.resume ==> r.progress@.len() == 0 && r.elapsed_ms == 0,
        canonical(r.progress@),
        info.fast_download ==> {
            &&& r.engine == EngineKind::Multi
            &&& r.threads == if config.threads == 0 { 1 } else { config.threads }
            &&& r.write_method == config.write_method
            &&& r.min_chunk_size == effective_min_chunk(config.min_chunk_size)
            &&& r.chunks@ == invert_spec(r.progress@, info.size as int, r.min_chunk_size as int)
            &&& canonical(r.chunks@)
        },
        !info.fast_download ==> {
            &&& r.engine == EngineKind::Single
            &&& r.threads == 1
            &&& r.write_method == WriteMethod::Std
            &&& r.chunks@.len() == 0
        },
{
    let (resume, progress, elapsed_ms) = match prior {
        Some(p) => {
            if file_exists && p.file_id.matches(&info.file_id) {
                (true, p.progress, p.elapsed_ms)
            } else {
                (false, Vec::new(), 0)
            }
        },
        None => (false, Vec::new(), 0),
    };
    if info.fast_download {
        let min_chunk_size = if config.min_chunk_size > 0 {
            config.min_chunk_size
        } else {
            DEFAULT_MIN_CHUNK
        };
        let chunks = invert(&progress, info.size, min_chunk_size);
        DownloadPlan {
            resume,
            engine: EngineKind::Multi,
            threads: if config.threads == 0 { 1 } else { config.threads },
            write_method: config.write_method,
            progress,
            elapsed_ms,
            chunks,
            min_chunk_size,
        }
    } else {
        DownloadPlan {
            resume,
            engine: EngineKind::Single,
            threads: 1,
            write_method: WriteMethod::Std,
            progress,
            elapsed_ms,
            chunks: Vec::new(),
            min_chunk_size: if config.min_chunk_size > 0 {
                config.min_chunk_size
            } else {
                DEFAULT_MIN_CHUNK
            },
        }
    }
}

/// Whether `progress` holds every byte of a file of `size` bytes; a file of
/// unknown size (zero) is done once its stream ends.
pub open spec fn is_complete(progress: Seq<ByteRange>, size: u64) -> bool {
    size == 0 || (progress.len() == 1 && progress[0].start == 0 && progress[0].end == size)
}

/// Whether a canonical progress set holds every byte of the file.
pub fn progress_complete(progress: &Vec<ByteRange>, size: u64) -> (r: bool)
    ensures
        r == is_complete(progress@, size),
{
    size == 0 || (progress.len() == 1 && progress[0].start == 0 && progress[0].end == size)
}

/// Status a task record takes when a run ends: `Error` on a fatal failure,
/// `Paused` when cancelled, `Completed` when every byte is in, and `Error`
/// when the run ended short of that.
pub fn end_status(fatal: bool, cancelled: bool, progress: &Vec<ByteRange>, size: u64) -> (r: Status)
    ensures
        fatal ==> r == Status::Error,
        !fatal && cancelled ==> r == Status::Paused,
        !fatal && !cancelled ==> (r == Status::Completed <==> is_complete(progress@, size)),
        !fatal && !cancelled && !is_complete(progress@, size) ==> r == Status::Error,
{
    if fatal {
        Status::Error
    } else if cancelled {
        Status::Paused
    } else if progress_complete(progress, size) {
        Status::Completed
    } else {
        Status::Error
    }
}

/// Whether metadata is probed again after `failures` failed probes: up to
/// `retry_times` retries are made.
pub fn should_retry(failures: usize, retry_times: usize) -> (r: bool)
    ensures
        r == (failures <= retry_times),
{
    failures <= retry_times
}

/// What a server ignoring a range request leads to.
#[derive(Clone, Copy, Debug, PartialEq, Eq, Structural)]
pub enum DropOutcome {
    /// Start over as a single sequential stream.
    Downgrade,
    /// The task fails.
    Fail,
}

/// A server that ignores `Range` ends the worker that saw it; when that is
/// worker zero before any byte arrived, the run falls back to one
/// sequential stream, and otherwise the task fails.
pub fn on_range_dropped(worker: usize, fetched: u64) -> (r: DropOutcome)
    ensures
        r == DropOutcome::Downgrade <==> (worker == 0 && fetched == 0),
{
    if worker == 0 && fetched == 0 {
        DropOutcome::Downgrade
    } else {
        DropOutcome::Fail
    }
}

/// Whether progress is reported (and the record saved) again, `since_ms`
/// milliseconds after the last report: at most once a second.
pub fn should_report(since_ms: u64) -> (r: bool)
    ensures
        r == (since_ms >= 1000),
{
    since_ms >= 1000
}

/// What asking to start a listed task leads to.
#[derive(Clone, Copy, Debug, PartialEq, Eq, Structural)]
pub enum StartAction {
    /// Nothing: the task already runs or waits, or has no record.
    Refuse,
    /// A completed task is downloaded again as a new task.
    Restart,
    /// The task is handed to the supervisor, resuming its record.
    Resume,
}

/// Decides what starting a task does, given whether it already runs or
/// waits and the status of its record, if it has one.
pub fn start_action(active: bool, record: Option<Status>) -> (r: StartAction)
    ensures
        active ==> r == StartAction::Refuse,
        !active && record is None ==> r == StartAction::Refuse,
        !active && record == Some(Status::Completed) ==> r == StartAction::Restart,
        !active && (record == Some(Status::Paused) || record == Some(Status::Error)) ==> r
            == StartAction::Resume,
{
    if active {
        StartAction::Refuse
    } else {
        match record {
            None => StartAction::Refuse,
            Some(Status::Completed) => StartAction::Restart,
            Some(_) => StartAction::Resume,
        }
    }
}

/// Reads a write method as the settings name it: `mmap` maps the file, and
/// anything else (`std` included) means buffered writes.
pub fn parse_write_method(s: &str) -> (r: WriteMethod)
    ensures
        r == WriteMethod::Mmap <==> s@ == "mmap"@,
{
    let text = s.to_owned();
    let mmap = "mmap".to_owned();
    if text == mmap {
        WriteMethod::Mmap
    } else {
        WriteMethod::Std
    }
}

/// The pusher actually used: the file is mapped when that was asked for and
/// the mapping could be made; otherwise writes are buffered.
pub fn choose_pusher(requested: WriteMethod, map_opened: bool) -> (r: WriteMethod)
    ensures
        r == WriteMethod::Mmap <==> (requested == WriteMethod::Mmap && map_opened),
{
    if requested == WriteMethod::Mmap && map_opened {
        WriteMethod::Mmap
    } else {
        WriteMethod::Std
    }
}

} // verus!

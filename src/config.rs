use crate::plan::{RunConfig, WriteMethod};
use vstd::prelude::*;

verus! {

/// Which proxy the HTTP client uses.
#[derive(Clone, Debug)]
pub enum Proxy {
    /// No proxy at all.
    No,
    /// The system's proxy settings.
    System,
    /// The given proxy URL.
    Custom(String),
}

/// Reads a proxy setting as the settings dialog writes it: empty means the
/// system's proxy, `null` means none, anything else is a proxy URL.
pub fn parse_proxy(s: &str) -> (r: Proxy)
    ensures
        s@.len() == 0 ==> r is System,
        s@ == "null"@ ==> r is No,
        s@.len() != 0 && s@ != "null"@ ==> (r matches Proxy::Custom(p) && p@ == s@),
{
    proof {
        reveal_strlit("null");
    }
    let text = s.to_owned();
    let null = "null".to_owned();
    if s.unicode_len() == 0 {
        Proxy::System
    } else if text == null {
        Proxy::No
    } else {
        Proxy::Custom(text)
    }
}

/// Settings of downloads. Durations are in milliseconds.
#[derive(Clone, Debug)]
pub struct DownloadConfig {
    pub save_dir: String,
    pub threads: usize,
    pub proxy: Proxy,
    pub headers: String,
    pub min_chunk_size: u64,
    pub write_buffer_size: usize,
    pub write_queue_cap: usize,
    pub retry_gap_ms: u64,
    pub pull_timeout_ms: u64,
    pub accept_invalid_certs: bool,
    pub accept_invalid_hostnames: bool,
    pub local_address: Vec<String>,
    pub max_speculative: usize,
    pub write_method: WriteMethod,
    pub retry_times: usize,
    pub chunk_window: u64,
}

impl DownloadConfig {
    /// The settings a fresh installation starts with, saving into `save_dir`.
    pub fn with_save_dir(save_dir: String) -> (r: DownloadConfig)
        ensures
            r.save_dir == save_dir,
            r.threads == 32,
            r.proxy is System,
            r.headers@.len() == 0,
            r.min_chunk_size == 8 * 1024 * 1024,
            r.write_buffer_size == 16 * 1024 * 1024,
            r.write_queue_cap == 10240,
            r.retry_gap_ms == 500,
            r.pull_timeout_ms == 5000,
            !r.accept_invalid_certs,
            !r.accept_invalid_hostnames,
            r.local_address@.len() == 0,
            r.max_speculative == 3,
            r.write_method == WriteMethod::Mmap,
            r.retry_times == 10,
            r.chunk_window == 8 * 1024,
    {
        DownloadConfig {
            save_dir,
            threads: 32,
            proxy: Proxy::System,
            headers: String::new(),
            min_chunk_size: 8 * 1024 * 1024,
            write_buffer_size: 16 * 1024 * 1024,
            write_queue_cap: 10240,
            retry_gap_ms: 500,
            pull_timeout_ms: 5000,
            accept_invalid_certs: false,
            accept_invalid_hostnames: false,
            local_address: Vec::new(),
            max_speculative: 3,
            write_method: WriteMethod::Mmap,
            retry_times: 10,
            chunk_window: 8 * 1024,
        }
    }

    /// The settings that decide how a task runs.
    pub fn run_config(&self) -> (r: RunConfig)
        ensures
            r.threads == self.threads,
            r.min_chunk_size == self.min_chunk_size,
            r.write_method == self.write_method,
    {
        RunConfig {
            threads: self.threads,
            min_chunk_size: self.min_chunk_size,
            write_method: self.write_method,
        }
    }

    /// These settings with the headers an incoming request carries, when it
    /// carries any.
    pub fn with_headers(self, headers: Option<String>) -> (r: DownloadConfig)
        ensures
            headers matches Some(h) ==> r == (DownloadConfig { headers: h, ..self }),
            headers is None ==> r == self,
    {
        let mut c = self;
        if let Some(h) = headers {
            c.headers = h;
        }
        c
    }
}

/// Settings of the application itself.
#[derive(Clone, Copy, Debug)]
pub struct GeneralConfig {
    pub max_concurrency: usize,
    pub auto_start: bool,
}

impl GeneralConfig {
    /// Two tasks at a time, not started with the system.
    pub fn new() -> (r: GeneralConfig)
        ensures
            r.max_concurrency == 2,
            !r.auto_start,
    {
        GeneralConfig { max_concurrency: 2, auto_start: false }
    }
}

/// Operating system family, for the choice of a user-interface font.
#[derive(Clone, Copy, Debug, PartialEq, Eq, Structural)]
pub enum Platform {
    Windows,
    MacOs,
    Other,
}

/// The font family the interface uses on `platform`.
pub fn get_font_family(platform: Platform) -> (r: &'static str)
    ensures
        platform == Platform::Windows ==> r@ == "Microsoft YaHei UI"@,
        platform == Platform::MacOs ==> r@ == "PingFang SC"@,
        platform == Platform::Other ==> r@ == "Noto Sans CJK SC"@,
{
    match platform {
        Platform::Windows => "Microsoft YaHei UI",
        Platform::MacOs => "PingFang SC",
        Platform::Other => "Noto Sans CJK SC",
    }
}

/// Names a download by the path it saves to.
#[derive(Clone, Debug)]
pub struct DownloadItemId {
    pub file_path: String,
}

/// What an update check announced.
#[derive(Clone, Debug)]
pub struct UpdateInfo {
    pub body: Option<String>,
    pub current_version: String,
    pub version: String,
    pub date: Option<i64>,
    pub target: String,
    pub download_url: String,
    pub signature: String,
}

} // verus!

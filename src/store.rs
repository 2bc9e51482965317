use crate::config::{DownloadConfig, GeneralConfig};
use crate::plan::{FileId, Status};
use crate::range::ByteRange;
use dashmap::DashMap;
use vstd::prelude::*;

verus! {

/// The durable record of one task.
#[derive(Clone, Debug)]
pub struct DatabaseEntry {
    pub file_name: String,
    pub file_path: String,
    pub file_size: u64,
    pub file_id: FileId,
    pub progress: Vec<ByteRange>,
    pub elapsed_ms: u64,
    pub url: String,
    pub config: DownloadConfig,
    pub status: Status,
}

impl DatabaseEntry {
    /// The record of a task just accepted, before its URL was probed: named
    /// after the URL, with no path, size, identity or progress, paused.
    pub fn accepted(url: String, config: DownloadConfig) -> (r: DatabaseEntry)
        ensures
            r.file_name == url,
            r.file_path@.len() == 0,
            r.file_size == 0,
            r.file_id.etag is None,
            r.file_id.last_modified is None,
            r.progress@.len() == 0,
            r.elapsed_ms == 0,
            r.url == url,
            r.config == config,
            r.status == Status::Paused,
    {
        DatabaseEntry {
            file_name: url.clone(),
            file_path: String::new(),
            file_size: 0,
            file_id: FileId { etag: None, last_modified: None },
            progress: Vec::new(),
            elapsed_ms: 0,
            url,
            config,
            status: Status::Paused,
        }
    }

    /// The record of a task whose URL was probed and whose file is new: the
    /// chosen name and path, the probed size and identity, no progress,
    /// paused.
    pub fn fresh(
        file_name: String,
        file_path: String,
        file_size: u64,
        file_id: FileId,
        url: String,
        config: DownloadConfig,
    ) -> (r: DatabaseEntry)
        ensures
            r.file_name == file_name,
            r.file_path == file_path,
            r.file_size == file_size,
            r.file_id == file_id,
            r.progress@.len() == 0,
            r.elapsed_ms == 0,
            r.url == url,
            r.config == config,
            r.status == Status::Paused,
    {
        DatabaseEntry {
            file_name,
            file_path,
            file_size,
            file_id,
            progress: Vec::new(),
            elapsed_ms: 0,
            url,
            config,
            status: Status::Paused,
        }
    }
}

#[verifier::external_type_specification]
#[verifier::external_body]
#[verifier::reject_recursive_types(K)]
#[verifier::reject_recursive_types(V)]
#[verifier::reject_recursive_types(S)]
pub struct ExDashMap<K, V, S>(dashmap::DashMap<K, V, S>);

/// Task records by key.
pub type RecordMap = DashMap<i32, DatabaseEntry>;

/// The records a map holds, by key.
pub uninterp spec fn records_of(m: RecordMap) -> Map<i32, DatabaseEntry>;

/// Relies on DashMap::new: a new map holds nothing.
#[verifier::external_body]
fn map_new() -> (r: RecordMap)
    ensures
        records_of(r).is_empty(),
{
    DashMap::new()
}

/// Relies on DashMap::insert: afterwards the key maps to the value, and
/// every other key to what it mapped to before.
#[verifier::external_body]
fn map_insert(m: &mut RecordMap, key: i32, value: DatabaseEntry)
    ensures
        records_of(*final(m)) == records_of(*old(m)).insert(key, value),
{
    m.insert(key, value);
}

/// Relies on DashMap::remove: the record under the key, if any, is taken
/// out and handed back.
#[verifier::external_body]
fn map_remove(m: &mut RecordMap, key: i32) -> (r: Option<DatabaseEntry>)
    ensures
        records_of(*final(m)) == records_of(*old(m)).remove(key),
        match r {
            Some(v) => records_of(*old(m)).contains_key(key) && records_of(*old(m))[key] == v,
            None => !records_of(*old(m)).contains_key(key),
        },
{
    m.remove(&key).map(|(_, v)| v)
}

/// Two settings agree field by field, lists compared by their contents.
pub open spec fn same_config(a: DownloadConfig, b: DownloadConfig) -> bool {
    &&& a.save_dir == b.save_dir
    &&& a.threads == b.threads
    &&& a.proxy == b.proxy
    &&& a.headers == b.headers
    &&& a.min_chunk_size == b.min_chunk_size
    &&& a.write_buffer_size == b.write_buffer_size
    &&& a.write_queue_cap == b.write_queue_cap
    &&& a.retry_gap_ms == b.retry_gap_ms
    &&& a.pull_timeout_ms == b.pull_timeout_ms
    &&& a.accept_invalid_certs == b.accept_invalid_certs
    &&& a.accept_invalid_hostnames == b.accept_invalid_hostnames
    &&& a.local_address@ == b.local_address@
    &&& a.max_speculative == b.max_speculative
    &&& a.write_method == b.write_method
    &&& a.retry_times == b.retry_times
    &&& a.chunk_window == b.chunk_window
}

/// Two records agree field by field, lists compared by their contents: what
/// a copy of a record holds.
pub open spec fn same_record(a: DatabaseEntry, b: DatabaseEntry) -> bool {
    &&& a.file_name == b.file_name
    &&& a.file_path == b.file_path
    &&& a.file_size == b.file_size
    &&& a.file_id == b.file_id
    &&& a.progress@ == b.progress@
    &&& a.elapsed_ms == b.elapsed_ms
    &&& a.url == b.url
    &&& same_config(a.config, b.config)
    &&& a.status == b.status
}

/// Relies on DashMap::get and the derived Clone of a record: a field-wise
/// copy of the record under the key, if any.
#[verifier::external_body]
fn map_get(m: &RecordMap, key: i32) -> (r: Option<DatabaseEntry>)
    ensures
        match r {
            Some(v) => records_of(*m).contains_key(key) && same_record(v, records_of(*m)[key]),
            None => !records_of(*m).contains_key(key),
        },
{
    m.get(&key).map(|e| e.value().clone())
}

/// The keyed task records together with the settings. Keys are handed out
/// in increasing order.
pub struct Database {
    entries: RecordMap,
    download_config: DownloadConfig,
    general_config: GeneralConfig,
    max_gid: i32,
    dirty: bool,
}

impl Database {
    pub closed spec fn records(&self) -> Map<i32, DatabaseEntry> {
        records_of(self.entries)
    }

    pub closed spec fn next_key(&self) -> i32 {
        self.max_gid
    }

    pub closed spec fn settings(&self) -> DownloadConfig {
        self.download_config
    }

    pub closed spec fn general(&self) -> GeneralConfig {
        self.general_config
    }

    pub closed spec fn changed(&self) -> bool {
        self.dirty
    }

    /// A store with no records.
    pub fn new(download_config: DownloadConfig, general_config: GeneralConfig) -> (r: Database)
        ensures
            r.settings() == download_config,
            r.general() == general_config,
            r.records() == Map::<i32, DatabaseEntry>::empty(),
            r.next_key() == 0,
            !r.changed(),
    {
        Database {
            entries: map_new(),
            download_config,
            general_config,
            max_gid: 0,
            dirty: false,
        }
    }

    /// Hands out a fresh key.
    pub fn next_gid(&mut self) -> (r: i32)
        requires
            old(self).next_key() < i32::MAX,
        ensures
            final(self).settings() == old(self).settings(),
            final(self).general() == old(self).general(),
            r == old(self).next_key(),
            final(self).next_key() == old(self).next_key() + 1,
            final(self).records() == old(self).records(),
            final(self).changed() == old(self).changed(),
    {
        let r = self.max_gid;
        self.max_gid = self.max_gid + 1;
        r
    }

    /// A copy of the record under `gid`, if any.
    pub fn get(&self, gid: i32) -> (r: Option<DatabaseEntry>)
        ensures
            match r {
                Some(e) => self.records().contains_key(gid) && same_record(e, self.records()[gid]),
                None => !self.records().contains_key(gid),
            },
    {
        map_get(&self.entries, gid)
    }

    /// Stores `entry` under `gid`, replacing any record there.
    pub fn init_entry(&mut self, gid: i32, entry: DatabaseEntry)
        ensures
            final(self).settings() == old(self).settings(),
            final(self).general() == old(self).general(),
            final(self).records() == old(self).records().insert(gid, entry),
            final(self).next_key() == old(self).next_key(),
            final(self).changed(),
    {
        map_insert(&mut self.entries, gid, entry);
        self.dirty = true;
    }

    /// Records the progress and elapsed time of the task under `gid`, if
    /// there is one, keeping every other field and every other record.
    pub fn update_entry(&mut self, gid: i32, progress: Vec<ByteRange>, elapsed_ms: u64)
        ensures
            final(self).next_key() == old(self).next_key(),
            final(self).settings() == old(self).settings(),
            final(self).general() == old(self).general(),
            old(self).records().contains_key(gid) ==> {
                &&& final(self).records() == old(self).records().insert(
                    gid,
                    DatabaseEntry { progress, elapsed_ms, ..old(self).records()[gid] },
                )
                &&& final(self).changed()
            },
            !old(self).records().contains_key(gid) ==> {
                &&& final(self).records() == old(self).records()
                &&& final(self).changed() == old(self).changed()
            },
    {
        if let Some(mut e) = map_remove(&mut self.entries, gid) {
            e.progress = progress;
            e.elapsed_ms = elapsed_ms;
            self.init_entry(gid, e);
            proof {
                assert(final(self).records() =~= old(self).records().insert(
                    gid,
                    DatabaseEntry { progress, elapsed_ms, ..old(self).records()[gid] },
                ));
            }
        } else {
            proof {
                assert(old(self).records().remove(gid) =~= old(self).records());
            }
        }
    }

    /// Sets the status of the task under `gid`, if there is one, keeping
    /// every other field and every other record.
    pub fn update_status(&mut self, gid: i32, status: Status)
        ensures
            final(self).next_key() == old(self).next_key(),
            final(self).settings() == old(self).settings(),
            final(self).general() == old(self).general(),
            old(self).records().contains_key(gid) ==> {
                &&& final(self).records() == old(self).records().insert(
                    gid,
                    DatabaseEntry { status, ..old(self).records()[gid] },
                )
                &&& final(self).changed()
            },
            !old(self).records().contains_key(gid) ==> {
                &&& final(self).records() == old(self).records()
                &&& final(self).changed() == old(self).changed()
            },
    {
        if let Some(mut e) = map_remove(&mut self.entries, gid) {
            e.status = status;
            self.init_entry(gid, e);
            proof {
                assert(final(self).records() =~= old(self).records().insert(
                    gid,
                    DatabaseEntry { status, ..old(self).records()[gid] },
                ));
            }
        } else {
            proof {
                assert(old(self).records().remove(gid) =~= old(self).records());
            }
        }
    }

    /// Deletes the record under `gid`, if any.
    pub fn remove_entry(&mut self, gid: i32)
        ensures
            final(self).settings() == old(self).settings(),
            final(self).general() == old(self).general(),
            final(self).records() == old(self).records().remove(gid),
            final(self).next_key() == old(self).next_key(),
            final(self).changed(),
    {
        let _ = map_remove(&mut self.entries, gid);
        self.dirty = true;
    }

    /// Whether anything changed since the last call, clearing the mark: a
    /// background saver writes the store out when this is true.
    pub fn take_changed(&mut self) -> (r: bool)
        ensures
            final(self).settings() == old(self).settings(),
            final(self).general() == old(self).general(),
            r == old(self).changed(),
            !final(self).changed(),
            final(self).records() == old(self).records(),
            final(self).next_key() == old(self).next_key(),
    {
        let r = self.dirty;
        self.dirty = false;
        r
    }

    /// Marks the store changed again, after a failed save.
    pub fn mark_changed(&mut self)
        ensures
            final(self).settings() == old(self).settings(),
            final(self).general() == old(self).general(),
            final(self).changed(),
            final(self).records() == old(self).records(),
            final(self).next_key() == old(self).next_key(),
    {
        self.dirty = true;
    }

    pub fn get_download_config(&self) -> (r: &DownloadConfig)
        ensures
            *r == self.settings(),
    {
        &self.download_config
    }

    pub fn set_download_config(&mut self, config: DownloadConfig)
        ensures
            final(self).settings() == config,
            final(self).general() == old(self).general(),
            final(self).changed(),
            final(self).records() == old(self).records(),
            final(self).next_key() == old(self).next_key(),
    {
        self.download_config = config;
        self.dirty = true;
    }

    pub fn get_general_config(&self) -> (r: GeneralConfig)
        ensures
            r == self.general(),
    {
        self.general_config
    }

    pub fn set_general_config(&mut self, config: GeneralConfig)
        ensures
            final(self).general() == config,
            final(self).settings() == old(self).settings(),
            final(self).changed(),
            final(self).records() == old(self).records(),
            final(self).next_key() == old(self).next_key(),
    {
        self.general_config = config;
        self.dirty = true;
    }

    pub fn is_auto_start(&self) -> (r: bool)
        ensures
            r == self.general().auto_start,
    {
        self.general_config.auto_start
    }

    pub fn set_auto_start(&mut self, value: bool)
        ensures
            final(self).general().auto_start == value,
            final(self).general().max_concurrency == old(self).general().max_concurrency,
            final(self).records() == old(self).records(),
            final(self).next_key() == old(self).next_key(),
            final(self).changed() == old(self).changed(),
    {
        self.general_config.auto_start = value;
    }
}

} // verus!

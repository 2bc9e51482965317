//! Core logic of a multi-connection HTTP download manager.
//!
//! - `range`: canonical sets of downloaded byte ranges (merge, invert, total).
//! - `schedule`: work distribution among the workers of the parallel engine.
//! - `progress`: engine events and the progress set they build.
//! - `push`: placing pushed bytes in the file image; sequential sinks.
//! - `plan`: probe results, how a run proceeds, and how it ends.
//! - `probe`: reading response headers of a metadata probe.
//! - `task`: the bounded-concurrency task supervisor.
//! - `store`: the keyed task records and settings.
//! - `config`, `header`, `name`, `path`, `fmt`: settings, header text,
//!   URL and file-name rules, unique file names, durations as text.

pub mod range;
pub mod schedule;
pub mod progress;
pub mod push;
pub mod plan;
pub mod probe;
pub mod task;
pub mod store;
pub mod config;
pub mod header;
pub mod name;
pub mod path;
pub mod fmt;

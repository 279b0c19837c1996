//! Keeps a download directory in step with the file list of a torrent: a
//! decoder for the torrent's metadata, the file list it declares, and the plan
//! of removals that leaves only what the torrent describes.
//!
//! - [`bencode`]: the wire format, its decoder, and the file list of a torrent;
//! - [`safety`]: the guard that keeps removals out of shallow directories;
//! - [`sync`]: the order in which a directory is gone through, the removals to
//!   try, the report, and what holds of a pass;
//! - [`unlock`]: what the release of locked files decides;
//! - [`logger`]: the time stamp of a log line;
//! - [`index`], [`text`]: lookup by hash, and numbers and bytes as text.
//!
//! The library touches no disk. Its callers read and delete, and hand over
//! what they read as plain values.

pub mod bencode;
pub mod index;
pub mod logger;
pub mod safety;
pub mod sync;
pub mod text;
pub mod unlock;

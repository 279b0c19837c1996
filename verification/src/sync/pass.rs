//! One pass, stage by stage. Between the stages the caller does what touches
//! the disk: it resolves the directory's path, reads the torrent, reads the
//! directory, and tries the removals.
//!
//! The stages take the mark that the depth guard hands out, so the file list
//! is read and the removals are planned only for a directory that the guard
//! let pass.

use crate::bencode::error::ParseError;
use crate::bencode::torrent::{torrent_files, torrent_paths};
use crate::safety::{check_depth, is_safe, PathPart, MIN_DEPTH};
use crate::sync::manifest::Manifest;
use crate::sync::plan::{plan, plan_of};
use crate::sync::tree::{walk, walk_depth_first, Entry, Node};
use vstd::prelude::*;

verus! {

/// Why a pass was not made.
#[derive(Debug)]
pub enum SyncError {
    /// The directory does not lie deep enough for removals.
    TooShallow,
    /// The torrent does not decode, or declares no file list.
    Torrent(ParseError),
    /// There is no such directory.
    NoDirectory,
}

impl SyncError {
    /// The failure in words.
    pub open spec fn spec_describe(&self) -> Seq<char> {
        match self {
            SyncError::TooShallow => "path too shallow, aborted"@,
            SyncError::Torrent(error) => error.spec_describe(),
            SyncError::NoDirectory => "directory does not exist, aborted"@,
        }
    }

    /// The failure in words.
    pub fn describe(&self) -> (line: String)
        ensures
            line@ == self.spec_describe(),
    {
        match self {
            SyncError::TooShallow => String::from_str("path too shallow, aborted"),
            SyncError::Torrent(error) => error.describe(),
            SyncError::NoDirectory => String::from_str("directory does not exist, aborted"),
        }
    }
}

/// The mark of a directory that the depth guard let pass.
pub struct Cleared {
    safe: bool,
}

impl Cleared {
    #[verifier::type_invariant]
    /// The mark is only made for a directory that passed.
    spec fn inv(self) -> bool {
        self.safe
    }
}

/// First stage: the depth guard. `resolved` and `given` are the parts of the
/// directory's path, as for [`check_depth`]. The directory passes where it
/// has at least [`MIN_DEPTH`] parts that count.
pub fn clear_root(resolved: Option<&[PathPart]>, given: &[PathPart]) -> (result: Result<
    Cleared,
    SyncError,
>)
    ensures
        match result {
            Ok(_) => is_safe(
                match resolved {
                    Some(parts) => Some(parts@),
                    None => None,
                },
                given@,
                MIN_DEPTH as nat,
            ),
            Err(error) => error is TooShallow && !is_safe(
                match resolved {
                    Some(parts) => Some(parts@),
                    None => None,
                },
                given@,
                MIN_DEPTH as nat,
            ),
        },
{
    if check_depth(resolved, given, MIN_DEPTH) {
        Ok(Cleared { safe: true })
    } else {
        Err(SyncError::TooShallow)
    }
}

/// Second stage: the file list that the torrent declares, one path for each
/// file, each path as its segments. The caller makes the [`Manifest`] of it,
/// after it has put each path into the form that the names of the directory's
/// entries have.
pub fn read_file_list(cleared: &Cleared, torrent: &[u8]) -> (result: Result<
    Vec<Vec<String>>,
    SyncError,
>)
    ensures
        match torrent_paths(torrent@) {
            Ok(paths) => result matches Ok(found) && found.deep_view() == paths,
            Err(message) => result matches Err(SyncError::Torrent(error)) && error.0@ == message,
        },
{
    match torrent_files(torrent) {
        Ok(paths) => Ok(paths),
        Err(error) => Err(SyncError::Torrent(error)),
    }
}

/// Third stage: the removals to try, in order. `directory` holds the entries
/// of the directory as they were read, or nothing where there is no such
/// directory.
pub fn plan_pass(cleared: &Cleared, manifest: &Manifest, directory: Option<&Vec<Node>>) -> (result:
    Result<Vec<Entry>, SyncError>)
    ensures
        match directory {
            Some(nodes) => result matches Ok(steps) && steps.deep_view() == plan_of(
                manifest@,
                walk(nodes@, Seq::empty()),
            ),
            None => result matches Err(SyncError::NoDirectory),
        },
{
    match directory {
        Some(nodes) => {
            let listing = walk_depth_first(nodes);
            Ok(plan(manifest, &listing))
        },
        None => Err(SyncError::NoDirectory),
    }
}

} // verus!

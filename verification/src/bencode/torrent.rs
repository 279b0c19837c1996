//! The file list that a torrent declares.
//!
//! A torrent is a dictionary with a dictionary under `info`. Where `info` has a
//! list under `files`, each entry of it is a dictionary whose `path` is the
//! list of the segments of one file's path, outermost directory first. Where
//! `info` has no `files`, its `name` is the one file. A segment is text; bytes
//! that are not UTF-8 are read with U+FFFD in their place.

use crate::bencode::error::ParseError;
use crate::bencode::grammar::decode;
use crate::bencode::parser::parse;
use crate::bencode::value::{lemma_view_items, view_items, BValue, Value};
use crate::text::utf8_lossy;
use vstd::prelude::*;

verus! {

/// Why a decoded value holds no file list.
#[derive(Debug, Clone, Copy, PartialEq, Eq, Structural)]
pub enum ExtractFailure {
    /// The value is no dictionary with an `info` entry.
    MissingInfo,
    /// `info` has a `files` entry that is not a list.
    FilesNotList,
    /// An entry of `files` is no dictionary with a list under `path`.
    EntryWithoutPath,
    /// A segment of a path is not a byte string.
    SegmentNotText,
    /// `info` has no `files`, and no byte string under `name`.
    NoFileList,
}

/// The key `info`.
pub open spec fn key_info() -> Seq<u8> {
    seq![0x69u8, 0x6eu8, 0x66u8, 0x6fu8]
}

/// The key `files`.
pub open spec fn key_files() -> Seq<u8> {
    seq![0x66u8, 0x69u8, 0x6cu8, 0x65u8, 0x73u8]
}

/// The key `path`.
pub open spec fn key_path() -> Seq<u8> {
    seq![0x70u8, 0x61u8, 0x74u8, 0x68u8]
}

/// The key `name`.
pub open spec fn key_name() -> Seq<u8> {
    seq![0x6eu8, 0x61u8, 0x6du8, 0x65u8]
}

/// The text of the segments `parts`, in order, behind the segments `before`.
/// The first part that is not a byte string fails the whole path.
pub open spec fn segments_of(parts: Seq<Value>, before: Seq<Seq<char>>) -> Result<
    Seq<Seq<char>>,
    ExtractFailure,
>
    decreases parts.len(),
{
    if parts.len() == 0 {
        Ok(before)
    } else {
        match parts.first() {
            Value::Bytes(bytes) => segments_of(parts.drop_first(), before.push(utf8_lossy(bytes))),
            _ => Err(ExtractFailure::SegmentNotText),
        }
    }
}

/// The path that one entry of `files` declares.
pub open spec fn entry_path(entry: Value) -> Result<Seq<Seq<char>>, ExtractFailure> {
    match entry.lookup(key_path()) {
        Some(Value::List(parts)) => segments_of(parts, Seq::empty()),
        _ => Err(ExtractFailure::EntryWithoutPath),
    }
}

/// The paths of the entries `entries`, in order, behind the paths `before`.
/// The first entry that declares no path fails the whole list.
pub open spec fn listed_paths(entries: Seq<Value>, before: Seq<Seq<Seq<char>>>) -> Result<
    Seq<Seq<Seq<char>>>,
    ExtractFailure,
>
    decreases entries.len(),
{
    if entries.len() == 0 {
        Ok(before)
    } else {
        match entry_path(entries.first()) {
            Ok(path) => listed_paths(entries.drop_first(), before.push(path)),
            Err(failure) => Err(failure),
        }
    }
}

/// The file list of a decoded torrent: one path for each file, each path the
/// text of its segments from the outermost directory to the file's name.
pub open spec fn file_list(root: Value) -> Result<Seq<Seq<Seq<char>>>, ExtractFailure> {
    match root.lookup(key_info()) {
        None => Err(ExtractFailure::MissingInfo),
        Some(info) => match info.lookup(key_files()) {
            Some(Value::List(entries)) => listed_paths(entries, Seq::empty()),
            Some(_) => Err(ExtractFailure::FilesNotList),
            None => match info.lookup(key_name()) {
                Some(Value::Bytes(name)) => Ok(seq![seq![utf8_lossy(name)]]),
                _ => Err(ExtractFailure::NoFileList),
            },
        },
    }
}

/// The file list that the bytes of a torrent declare, or the message of what
/// is wrong with them. Bytes behind the torrent's value are not looked at.
pub open spec fn torrent_paths(data: Seq<u8>) -> Result<Seq<Seq<Seq<char>>>, Seq<char>> {
    match decode(data) {
        Err(failure) => Err(failure.text()),
        Ok((root, _)) => match file_list(root) {
            Ok(paths) => Ok(paths),
            Err(failure) => Err(failure.text()),
        },
    }
}

impl ExtractFailure {
    /// The message for the failure.
    pub open spec fn text(self) -> Seq<char> {
        match self {
            ExtractFailure::MissingInfo => "Missing 'info' dictionary"@,
            ExtractFailure::FilesNotList => "'files' is not a list"@,
            ExtractFailure::EntryWithoutPath => "File entry missing 'path' list"@,
            ExtractFailure::SegmentNotText => "Path component is not a string"@,
            ExtractFailure::NoFileList => "No 'files' or 'name' found in torrent info"@,
        }
    }

    /// The failure as an error that carries its message.
    pub fn report(&self) -> (error: ParseError)
        ensures
            error.0@ == self.text(),
    {
        match self {
            ExtractFailure::MissingInfo => ParseError(
                String::from_str("Missing 'info' dictionary"),
            ),
            ExtractFailure::FilesNotList => ParseError(String::from_str("'files' is not a list")),
            ExtractFailure::EntryWithoutPath => ParseError(
                String::from_str("File entry missing 'path' list"),
            ),
            ExtractFailure::SegmentNotText => ParseError(
                String::from_str("Path component is not a string"),
            ),
            ExtractFailure::NoFileList => ParseError(
                String::from_str("No 'files' or 'name' found in torrent info"),
            ),
        }
    }
}

/// The text of each segment, in order.
pub open spec fn segment_texts(segments: Seq<Seq<u8>>) -> Seq<Seq<char>> {
    Seq::new(segments.len(), |j: int| utf8_lossy(segments[j]))
}

/// The segments as decoded byte strings, in order.
pub open spec fn segment_values(segments: Seq<Seq<u8>>) -> Seq<Value> {
    Seq::new(segments.len(), |j: int| Value::Bytes(segments[j]))
}

/// A path whose segments are all byte strings is the text of the segments,
/// in their order.
pub proof fn lemma_segments_of_bytes(segments: Seq<Seq<u8>>, before: Seq<Seq<char>>)
    ensures
        segments_of(segment_values(segments), before) == Ok::<Seq<Seq<char>>, ExtractFailure>(
            before + segment_texts(segments),
        ),
    decreases segments.len(),
{
    let parts = segment_values(segments);
    if segments.len() > 0 {
        let rest = segments.drop_first();
        lemma_segments_of_bytes(rest, before.push(utf8_lossy(segments.first())));
        assert(parts.drop_first() =~= segment_values(rest));
        assert(before.push(utf8_lossy(segments.first())) + segment_texts(rest) =~= before
            + segment_texts(segments));
    }
}

/// Entries that each declare a path give those paths, in their order.
pub proof fn lemma_listed_paths(
    entries: Seq<Value>,
    paths: Seq<Seq<Seq<char>>>,
    before: Seq<Seq<Seq<char>>>,
)
    requires
        entries.len() == paths.len(),
        forall|i: int|
            0 <= i < entries.len() ==> entry_path(#[trigger] entries[i]) == Ok::<
                Seq<Seq<char>>,
                ExtractFailure,
            >(paths[i]),
    ensures
        listed_paths(entries, before) == Ok::<Seq<Seq<Seq<char>>>, ExtractFailure>(before + paths),
    decreases entries.len(),
{
    if entries.len() > 0 {
        let rest = entries.drop_first();
        lemma_listed_paths(rest, paths.drop_first(), before.push(paths[0]));
        assert(before.push(paths[0]) + paths.drop_first() =~= before + paths);
    }
}

/// The file list of a torrent with `files`: one path for each entry, in the
/// order of the entries, and each path the text of the entry's segments in
/// the order in which the entry lists them. No segment is dropped, merged or
/// moved, also where a name comes more than once.
pub proof fn law_paths_follow_the_entries(
    root: Value,
    info: Value,
    entries: Seq<Value>,
    segments: Seq<Seq<Seq<u8>>>,
)
    requires
        root.lookup(key_info()) == Some(info),
        info.lookup(key_files()) == Some(Value::List(entries)),
        entries.len() == segments.len(),
        forall|i: int|
            0 <= i < entries.len() ==> (#[trigger] entries[i]).lookup(key_path()) == Some(
                Value::List(segment_values(segments[i])),
            ),
    ensures
        file_list(root) == Ok::<Seq<Seq<Seq<char>>>, ExtractFailure>(
            Seq::new(segments.len(), |i: int| segment_texts(segments[i])),
        ),
{
    let paths = Seq::new(segments.len(), |i: int| segment_texts(segments[i]));
    assert forall|i: int| 0 <= i < entries.len() implies entry_path(#[trigger] entries[i]) == Ok::<
        Seq<Seq<char>>,
        ExtractFailure,
    >(paths[i]) by {
        lemma_segments_of_bytes(segments[i], Seq::empty());
    }
    lemma_listed_paths(entries, paths, Seq::empty());
}

/// The file list of a torrent without `files` is one path of one segment:
/// the text of `name`.
pub proof fn law_single_file_is_the_name(root: Value, info: Value, name: Seq<u8>)
    requires
        root.lookup(key_info()) == Some(info),
        info.lookup(key_files()) is None,
        info.lookup(key_name()) == Some(Value::Bytes(name)),
    ensures
        file_list(root) == Ok::<Seq<Seq<Seq<char>>>, ExtractFailure>(seq![seq![utf8_lossy(name)]]),
{
}

/// The path that one entry of `files` declares.
#[verifier::loop_isolation(false)]
fn entry_segments(entry: &BValue) -> (result: Result<Vec<String>, ExtractFailure>)
    ensures
        match entry_path(entry@) {
            Ok(path) => result matches Ok(segments) && segments.deep_view() == path,
            Err(failure) => result matches Err(f) && f == failure,
        },
{
    let key: [u8; 4] = [0x70, 0x61, 0x74, 0x68];
    let parts = match entry.field(key.as_slice()) {
        None => {
            return Err(ExtractFailure::EntryWithoutPath);
        },
        Some(listed) => match listed.as_list() {
            None => {
                return Err(ExtractFailure::EntryWithoutPath);
            },
            Some(parts) => parts,
        },
    };
    let ghost values = view_items(parts@);
    proof {
        lemma_view_items(parts@);
    }
    let mut segments: Vec<String> = Vec::new();
    let mut at: usize = 0;
    proof {
        assert(values.skip(0) =~= values);
        assert(segments.deep_view() =~= Seq::<Seq<char>>::empty());
    }
    while at < parts.len()
        invariant
            at <= parts.len(),
            values == view_items(parts@),
            values.len() == parts@.len(),
            forall|i: int| 0 <= i < parts@.len() ==> values[i] == (#[trigger] parts@[i])@,
            segments_of(values, Seq::empty()) == segments_of(
                values.skip(at as int),
                segments.deep_view(),
            ),
        decreases parts.len() - at,
    {
        proof {
            assert(values.skip(at as int).drop_first() =~= values.skip(at + 1));
        }
        match parts[at].as_str_lossy() {
            None => {
                return Err(ExtractFailure::SegmentNotText);
            },
            Some(segment) => {
                let ghost before = segments.deep_view();
                segments.push(segment);
                assert(segments.deep_view() =~= before.push(segment@));
            },
        }
        at = at + 1;
    }
    Ok(segments)
}

/// The file list of a decoded torrent.
#[verifier::loop_isolation(false)]
pub fn extract_files(root: &BValue) -> (result: Result<Vec<Vec<String>>, ExtractFailure>)
    ensures
        match file_list(root@) {
            Ok(paths) => result matches Ok(found) && found.deep_view() == paths,
            Err(failure) => result matches Err(f) && f == failure,
        },
{
    let info_key: [u8; 4] = [0x69, 0x6e, 0x66, 0x6f];
    let files_key: [u8; 5] = [0x66, 0x69, 0x6c, 0x65, 0x73];
    let name_key: [u8; 4] = [0x6e, 0x61, 0x6d, 0x65];
    let info = match root.field(info_key.as_slice()) {
        None => {
            return Err(ExtractFailure::MissingInfo);
        },
        Some(info) => info,
    };
    match info.field(files_key.as_slice()) {
        Some(files) => {
            let entries = match files.as_list() {
                None => {
                    return Err(ExtractFailure::FilesNotList);
                },
                Some(entries) => entries,
            };
            let ghost values = view_items(entries@);
            proof {
                lemma_view_items(entries@);
            }
            let mut paths: Vec<Vec<String>> = Vec::new();
            let mut at: usize = 0;
            proof {
                assert(values.skip(0) =~= values);
                assert(paths.deep_view() =~= Seq::<Seq<Seq<char>>>::empty());
            }
            while at < entries.len()
                invariant
                    at <= entries.len(),
                    values == view_items(entries@),
                    values.len() == entries@.len(),
                    forall|i: int|
                        0 <= i < entries@.len() ==> values[i] == (#[trigger] entries@[i])@,
                    listed_paths(values, Seq::empty()) == listed_paths(
                        values.skip(at as int),
                        paths.deep_view(),
                    ),
                decreases entries.len() - at,
            {
                proof {
                    assert(values.skip(at as int).drop_first() =~= values.skip(at + 1));
                }
                match entry_segments(&entries[at]) {
                    Err(failure) => {
                        return Err(failure);
                    },
                    Ok(path) => {
                        let ghost before = paths.deep_view();
                        paths.push(path);
                        assert(paths.deep_view() =~= before.push(path.deep_view()));
                    },
                }
                at = at + 1;
            }
            Ok(paths)
        },
        None => {
            let name = match info.field(name_key.as_slice()) {
                None => {
                    return Err(ExtractFailure::NoFileList);
                },
                Some(name) => name,
            };
            match name.as_str_lossy() {
                None => Err(ExtractFailure::NoFileList),
                Some(text) => {
                    let mut path: Vec<String> = Vec::new();
                    path.push(text);
                    let mut paths: Vec<Vec<String>> = Vec::new();
                    paths.push(path);
                    assert(path.deep_view() =~= seq![utf8_lossy(name@->Bytes_0)]);
                    Ok(paths)
                },
            }
        },
    }
}

/// The file list that the bytes of a torrent declare: one path for each file,
/// in the order of the torrent, each path as its segments.
pub fn torrent_files(data: &[u8]) -> (result: Result<Vec<Vec<String>>, ParseError>)
    ensures
        match torrent_paths(data@) {
            Ok(paths) => result matches Ok(found) && found.deep_view() == paths,
            Err(message) => result matches Err(error) && error.0@ == message,
        },
{
    let root = match parse(data) {
        Err(error) => {
            return Err(error);
        },
        Ok((root, _)) => root,
    };
    match extract_files(&root) {
        Ok(paths) => Ok(paths),
        Err(failure) => Err(failure.report()),
    }
}

} // verus!

//! What the release of locked files decides: which files to ask about, which
//! processes are never ended, and how the outcome reads.

use crate::sync::tree::{copy_path, Entry, Listed, Node};
use crate::text::push_decimal;
use crate::text::decimal_text;
use vstd::prelude::*;

verus! {

/// The text in lower case, as `str::to_lowercase` gives it: each character
/// by its lower-case mapping in Unicode.
pub uninterp spec fn lowercased(text: Seq<char>) -> Seq<char>;

/// Calls `str::to_lowercase`. The result is a function of the text alone; it
/// is named, not spelled out.
#[verifier::external_body]
fn to_lower(text: &str) -> (lower: String)
    ensures
        lower@ == lowercased(text@),
{
    text.to_lowercase()
}

/// Whether a process of this name is never ended: the torrent clients
/// themselves, whatever the case of the letters.
pub open spec fn spec_is_excluded(name: Seq<char>) -> bool {
    lowercased(name) == "utorrent.exe"@ || lowercased(name) == "bittorrent.exe"@
}

/// Whether a process of this name is never ended.
pub fn is_excluded(name: &str) -> (excluded: bool)
    ensures
        excluded == spec_is_excluded(name@),
{
    let lower = to_lower(name);
    let first = String::from_str("utorrent.exe");
    let second = String::from_str("bittorrent.exe");
    lower == first || lower == second
}

/// What stands behind the last `mark`; the whole text where there is none.
pub open spec fn after_last(text: Seq<char>, mark: char) -> Seq<char>
    decreases text.len(),
{
    if text.len() == 0 {
        text
    } else if text.last() == mark {
        Seq::empty()
    } else {
        after_last(text.drop_last(), mark).push(text.last())
    }
}

/// What stands behind the last mark starts right behind it.
proof fn lemma_after_last(text: Seq<char>, mark: char, from: int)
    requires
        0 <= from <= text.len(),
        from > 0 ==> text[from - 1] == mark,
        forall|i: int| from <= i < text.len() ==> text[i] != mark,
    ensures
        after_last(text, mark) == text.subrange(from, text.len() as int),
    decreases text.len(),
{
    if from < text.len() {
        lemma_after_last(text.drop_last(), mark, from);
    }
}

/// The name of the file of a path whose parts are set apart by backslashes.
pub fn file_name_of(full_path: &str) -> (name: String)
    ensures
        name@ == after_last(full_path@, '\\'),
{
    let length = full_path.unicode_len();
    let mut from: usize = length;
    while from > 0 && full_path.get_char(from - 1) != '\\'
        invariant
            from <= length,
            length == full_path@.len(),
            forall|i: int| from <= i < length ==> full_path@[i] != '\\',
        decreases from,
    {
        from = from - 1;
    }
    proof {
        lemma_after_last(full_path@, '\\', from as int);
    }
    String::from_str(full_path.substring_char(from, length))
}

/// The files among `nodes` and inside the directories among them, in the
/// order of `nodes`, with what lies inside a directory in its place.
pub open spec fn files_in(nodes: Seq<Node>, prefix: Seq<Seq<char>>) -> Seq<Listed>
    decreases nodes,
{
    if nodes.len() == 0 {
        Seq::empty()
    } else {
        files_in(nodes.drop_last(), prefix) + match nodes.last() {
            Node::File { name, id } => seq![
                Listed { path: prefix.push(name@), is_dir: false, id },
            ],
            Node::Dir { name, id, entries } => files_in(entries@, prefix.push(name@)),
        }
    }
}

/// Appends to `files` the files among `nodes` and inside the directories
/// among them.
fn collect_files_recursive(nodes: &Vec<Node>, prefix: &Vec<String>, files: &mut Vec<Entry>)
    ensures
        final(files).deep_view() == old(files).deep_view() + files_in(nodes@, prefix.deep_view()),
    decreases nodes,
{
    let ghost start = files.deep_view();
    let ghost base = prefix.deep_view();
    let mut at: usize = 0;
    while at < nodes.len()
        invariant
            at <= nodes.len(),
            base == prefix.deep_view(),
            files.deep_view() == start + files_in(nodes@.subrange(0, at as int), base),
        decreases nodes.len() - at,
    {
        let ghost seen = nodes@.subrange(0, at as int);
        let ghost more = nodes@.subrange(0, at + 1);
        proof {
            assert(more.drop_last() =~= seen);
        }
        let ghost before = files.deep_view();
        let mut path = copy_path(prefix);
        match &nodes[at] {
            Node::File { name, id } => {
                path.push(name.clone());
                assert(path.deep_view() =~= base.push(name@));
                let entry = Entry { path, is_dir: false, id: *id };
                files.push(entry);
                assert(files.deep_view() =~= before.push(entry.deep_view()));
            },
            Node::Dir { name, id, entries } => {
                path.push(name.clone());
                assert(path.deep_view() =~= base.push(name@));
                collect_files_recursive(entries, &path, files);
            },
        }
        at = at + 1;
    }
    assert(nodes@.subrange(0, at as int) =~= nodes@);
}

/// The files of a directory at any depth, each with its path from that
/// directory, in the order in which they were read.
pub fn collect_files(nodes: &Vec<Node>) -> (files: Vec<Entry>)
    ensures
        files.deep_view() == files_in(nodes@, Seq::empty()),
{
    let mut files: Vec<Entry> = Vec::new();
    let root: Vec<String> = Vec::new();
    assert(root.deep_view() =~= Seq::<Seq<char>>::empty());
    collect_files_recursive(nodes, &root, &mut files);
    files
}

/// The names with `, ` between them.
pub open spec fn joined(names: Seq<Seq<char>>) -> Seq<char>
    decreases names.len(),
{
    if names.len() == 0 {
        Seq::empty()
    } else if names.len() == 1 {
        names[0]
    } else {
        joined(names.drop_last()) + ", "@ + names.last()
    }
}

/// Appends the names with `, ` between them.
fn push_joined(out: &mut String, names: &Vec<String>)
    ensures
        final(out)@ == old(out)@ + joined(names.deep_view()),
{
    let ghost all = names.deep_view();
    let mut at: usize = 0;
    while at < names.len()
        invariant
            at <= names.len(),
            all == names.deep_view(),
            out@ == old(out)@ + joined(all.subrange(0, at as int)),
        decreases names.len() - at,
    {
        proof {
            assert(all.subrange(0, at + 1).drop_last() =~= all.subrange(0, at as int));
        }
        if at > 0 {
            out.append(", ");
        }
        out.append(names[at].as_str());
        at = at + 1;
    }
    assert(all.subrange(0, at as int) =~= all);
}

/// How the outcome reads: the processes that were ended, and those that
/// were left alone because they are never ended.
pub open spec fn spec_summary(killed: Seq<Seq<char>>, skipped: Seq<Seq<char>>) -> Seq<char> {
    let first = if killed.len() > 0 {
        " \u{2014} killed "@ + decimal_text(killed.len()) + " process(es) ("@ + joined(killed) + ")"@
    } else {
        " \u{2014} no processes to terminate"@
    };
    if skipped.len() > 0 {
        first + ", skipped "@ + joined(skipped)
    } else {
        first
    }
}

/// How the outcome reads.
pub fn summary(killed: &Vec<String>, skipped: &Vec<String>) -> (line: String)
    ensures
        line@ == spec_summary(killed.deep_view(), skipped.deep_view()),
{
    let mut line = String::new();
    if killed.len() > 0 {
        line.append(" \u{2014} killed ");
        push_decimal(&mut line, killed.len() as u64);
        line.append(" process(es) (");
        push_joined(&mut line, killed);
        line.append(")");
    } else {
        line.append(" \u{2014} no processes to terminate");
    }
    if skipped.len() > 0 {
        line.append(", skipped ");
        push_joined(&mut line, skipped);
    }
    line
}

} // verus!

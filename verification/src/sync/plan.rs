//! Which entries are to go, and the count of those that went.
//!
//! Every file that the file list does not name is removed. Every directory is
//! tried too, whatever the file list says of it: removing a directory works
//! only on an empty one, so a directory that still holds something stays. The
//! entries are tried in the order of the listing, which has what lies inside a
//! directory before the directory.

use crate::sync::manifest::Manifest;
use crate::sync::tree::{copy_path, Entry, Listed};
use crate::text::{decimal_text, push_decimal};
use vstd::prelude::*;

verus! {

/// Whether the removal of an entry is tried.
pub open spec fn is_tried(manifest: Set<Seq<Seq<char>>>, entry: Listed) -> bool {
    entry.is_dir || !manifest.contains(entry.path)
}

/// The entries of `listing` whose removal is tried, in the order of the listing.
pub open spec fn plan_of(manifest: Set<Seq<Seq<char>>>, listing: Seq<Listed>) -> Seq<Listed>
    decreases listing.len(),
{
    if listing.len() == 0 {
        Seq::empty()
    } else if is_tried(manifest, listing.last()) {
        plan_of(manifest, listing.drop_last()).push(listing.last())
    } else {
        plan_of(manifest, listing.drop_last())
    }
}

/// The entries of `listing` to remove, in the order in which to try: the
/// directories, and the files that `manifest` does not name.
pub fn plan(manifest: &Manifest, listing: &Vec<Entry>) -> (steps: Vec<Entry>)
    ensures
        steps.deep_view() == plan_of(manifest@, listing.deep_view()),
{
    let mut steps: Vec<Entry> = Vec::new();
    let mut at: usize = 0;
    while at < listing.len()
        invariant
            at <= listing.len(),
            steps.deep_view() == plan_of(manifest@, listing.deep_view().subrange(0, at as int)),
        decreases listing.len() - at,
    {
        let entry = &listing[at];
        proof {
            let longer = listing.deep_view().subrange(0, at + 1);
            assert(longer.drop_last() =~= listing.deep_view().subrange(0, at as int));
        }
        if entry.is_dir || !manifest.contains(&entry.path) {
            let step = Entry { path: copy_path(&entry.path), is_dir: entry.is_dir, id: entry.id };
            steps.push(step);
        }
        at = at + 1;
    }
    assert(listing.deep_view().subrange(0, at as int) =~= listing.deep_view());
    steps
}

/// How many files and how many directories were removed.
#[derive(Debug, Clone, Copy, PartialEq, Eq, Structural)]
pub struct Report {
    pub files_deleted: usize,
    pub dirs_deleted: usize,
}

/// How many of the steps that went well removed a directory (`dirs`), or a
/// file (not `dirs`). `outcomes[i]` tells whether step `i` went well; a step
/// without an outcome did not.
pub open spec fn count_removed(steps: Seq<Listed>, outcomes: Seq<bool>, dirs: bool) -> nat
    decreases steps.len(),
{
    if steps.len() == 0 {
        0
    } else {
        let last = steps.len() - 1;
        let counted: nat = if last < outcomes.len() && outcomes[last] && steps[last].is_dir
            == dirs {
            1
        } else {
            0
        };
        count_removed(steps.drop_last(), outcomes, dirs) + counted
    }
}

/// The report for steps that were tried: `outcomes[i]` tells whether step
/// `i` went well. A failure is not an error: the entry stays and is not
/// counted.
pub fn tally(steps: &Vec<Entry>, outcomes: &Vec<bool>) -> (report: Report)
    ensures
        report.files_deleted == count_removed(steps.deep_view(), outcomes@, false),
        report.dirs_deleted == count_removed(steps.deep_view(), outcomes@, true),
{
    let mut files: usize = 0;
    let mut dirs: usize = 0;
    let mut at: usize = 0;
    let ghost all = steps.deep_view();
    while at < steps.len()
        invariant
            at <= steps.len(),
            all == steps.deep_view(),
            files == count_removed(all.subrange(0, at as int), outcomes@, false),
            dirs == count_removed(all.subrange(0, at as int), outcomes@, true),
            files <= at,
            dirs <= at,
        decreases steps.len() - at,
    {
        proof {
            let longer = all.subrange(0, at + 1);
            assert(longer.drop_last() =~= all.subrange(0, at as int));
        }
        if at < outcomes.len() && outcomes[at] {
            if steps[at].is_dir {
                dirs = dirs + 1;
            } else {
                files = files + 1;
            }
        }
        at = at + 1;
    }
    assert(all.subrange(0, at as int) =~= all);
    Report { files_deleted: files, dirs_deleted: dirs }
}

impl Report {
    /// Nothing was removed.
    pub open spec fn spec_is_clean(&self) -> bool {
        self.files_deleted == 0 && self.dirs_deleted == 0
    }

    /// Whether nothing was removed.
    #[verifier::when_used_as_spec(spec_is_clean)]
    pub fn is_clean(&self) -> (clean: bool)
        ensures
            clean == self.spec_is_clean(),
    {
        self.files_deleted == 0 && self.dirs_deleted == 0
    }

    /// The report in words.
    pub open spec fn spec_summary(&self) -> Seq<char> {
        if self.spec_is_clean() {
            "clean, nothing to remove"@
        } else {
            "deleted "@ + decimal_text(self.files_deleted as nat) + " files, "@ + decimal_text(
                self.dirs_deleted as nat,
            ) + " empty dirs"@
        }
    }

    /// The report in words.
    pub fn summary(&self) -> (line: String)
        ensures
            line@ == self.spec_summary(),
    {
        if self.is_clean() {
            String::from_str("clean, nothing to remove")
        } else {
            let mut line = String::from_str("deleted ");
            push_decimal(&mut line, self.files_deleted as u64);
            line.append(" files, ");
            push_decimal(&mut line, self.dirs_deleted as u64);
            line.append(" empty dirs");
            line
        }
    }
}

} // verus!

//! The depth guard: removals are made only in a directory that lies deep
//! enough, never at the root of a volume or right below it.
//!
//! The guard counts the parts of a path. The caller takes the path apart (and
//! resolves it first, where it can); the guard goes by the kinds of the parts.

use vstd::prelude::*;

verus! {

/// The fewest parts that a directory must have for removals to be made in it.
pub const MIN_DEPTH: usize = 3;

/// The kind of a part of a path.
#[derive(Debug, Clone, Copy, PartialEq, Eq, Structural)]
pub enum PathPart {
    /// A volume or a share, such as a drive letter.
    Prefix,
    /// The root, behind the prefix where there is one.
    RootDir,
    /// A reference to the directory itself.
    CurDir,
    /// A reference to the directory above.
    ParentDir,
    /// A name.
    Normal,
}

/// Whether a part counts: a name does, and a prefix does, once, whatever
/// it is made of. The root counts with its prefix, not by itself.
pub open spec fn is_counted(part: PathPart) -> bool {
    part is Prefix || part is Normal
}

/// How many parts of the path count.
pub open spec fn depth_of(parts: Seq<PathPart>) -> nat
    decreases parts.len(),
{
    if parts.len() == 0 {
        0
    } else if is_counted(parts.last()) {
        depth_of(parts.drop_last()) + 1
    } else {
        depth_of(parts.drop_last())
    }
}

/// Whether a directory lies deep enough: by its resolved path where it could
/// be resolved, else by the path as it was given.
pub open spec fn is_safe(
    resolved: Option<Seq<PathPart>>,
    given: Seq<PathPart>,
    min_depth: nat,
) -> bool {
    match resolved {
        Some(parts) => depth_of(parts) >= min_depth,
        None => depth_of(given) >= min_depth,
    }
}

/// How many parts of the path count.
pub fn count_components(parts: &[PathPart]) -> (count: usize)
    ensures
        count == depth_of(parts@),
{
    let mut count: usize = 0;
    let mut at: usize = 0;
    while at < parts.len()
        invariant
            at <= parts.len(),
            count == depth_of(parts@.subrange(0, at as int)),
            count <= at,
        decreases parts.len() - at,
    {
        proof {
            assert(parts@.subrange(0, at + 1).drop_last() =~= parts@.subrange(0, at as int));
        }
        match parts[at] {
            PathPart::Prefix => {
                count = count + 1;
            },
            PathPart::Normal => {
                count = count + 1;
            },
            _ => {},
        }
        at = at + 1;
    }
    assert(parts@.subrange(0, at as int) =~= parts@);
    count
}

/// Whether a directory has at least `min_depth` parts that count. `resolved`
/// is the path with links and references to `.` and `..` resolved, where that
/// could be done; `given` is the path as it was given, and is what counts
/// where it could not.
pub fn check_depth(resolved: Option<&[PathPart]>, given: &[PathPart], min_depth: usize) -> (safe:
    bool)
    ensures
        safe == is_safe(
            match resolved {
                Some(parts) => Some(parts@),
                None => None,
            },
            given@,
            min_depth as nat,
        ),
{
    match resolved {
        Some(parts) => count_components(parts) >= min_depth,
        None => count_components(given) >= min_depth,
    }
}

} // verus!

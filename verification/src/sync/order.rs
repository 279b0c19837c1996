//! What holds of the order of a listing: whatever lies inside a directory
//! comes before the directory, no path comes twice, and the directory that
//! was read is not listed.

use crate::sync::tree::{walk, walk_dirs, walk_files, walk_inside, Listed, Node};
use vstd::prelude::*;

verus! {

impl Node {
    /// The name of the entry.
    pub open spec fn name(self) -> Seq<char> {
        match self {
            Node::File { name, .. } => name@,
            Node::Dir { name, .. } => name@,
        }
    }
}

/// No two entries of one directory have the same name, at any depth.
pub open spec fn distinct_names(nodes: Seq<Node>) -> bool
    decreases nodes,
{
    &&& forall|i: int, j: int|
        0 <= i < j < nodes.len() ==> (#[trigger] nodes[i]).name() != (#[trigger] nodes[j]).name()
    &&& forall|i: int|
        0 <= i < nodes.len() ==> match #[trigger] nodes[i] {
            Node::Dir { entries, .. } => distinct_names(entries@),
            Node::File { .. } => true,
        }
}

/// `inner` lies inside the directory `outer`, at any depth: the names of
/// `outer` are the first names of `inner`, and `inner` has more.
pub open spec fn is_inside(inner: Seq<Seq<char>>, outer: Seq<Seq<char>>) -> bool {
    outer.len() < inner.len() && inner.subrange(0, outer.len() as int) == outer
}

/// Whatever lies inside an entry of the listing comes before that entry.
pub open spec fn inside_first(listing: Seq<Listed>) -> bool {
    forall|i: int, j: int|
        0 <= i < listing.len() && 0 <= j < listing.len() && is_inside(
            (#[trigger] listing[j]).path,
            (#[trigger] listing[i]).path,
        ) ==> j < i
}

/// No path comes twice in the listing.
pub open spec fn distinct_paths(listing: Seq<Listed>) -> bool {
    forall|i: int, j: int|
        0 <= i < j < listing.len() ==> (#[trigger] listing[i]).path != (#[trigger] listing[j]).path
}

/// The entry lies inside `prefix`, at least `extra` names deep, and its first
/// name behind `prefix` is the name of `node`.
pub open spec fn is_below(entry: Listed, prefix: Seq<Seq<char>>, node: Node, extra: int) -> bool {
    &&& is_inside(entry.path, prefix)
    &&& entry.path.len() >= prefix.len() + extra
    &&& entry.path[prefix.len() as int] == node.name()
}

/// Every entry of the listing lies inside `prefix`, at least `extra` names
/// deep, below one of `nodes`.
pub open spec fn all_below(
    listing: Seq<Listed>,
    prefix: Seq<Seq<char>>,
    nodes: Seq<Node>,
    extra: int,
) -> bool {
    forall|i: int|
        0 <= i < listing.len() ==> exists|k: int|
            0 <= k < nodes.len() && is_below(#[trigger] listing[i], prefix, #[trigger] nodes[k], extra)
}

/// The entry is listed for `node` in the directory `prefix`, and `node` is a
/// directory or not as `dirs` says.
pub open spec fn is_child(entry: Listed, prefix: Seq<Seq<char>>, node: Node, dirs: bool) -> bool {
    &&& (node is Dir) == dirs
    &&& entry.is_dir == dirs
    &&& entry.path == prefix.push(node.name())
}

/// Every entry of the listing is listed for one of `nodes` in the directory
/// `prefix`, all of them directories or none, as `dirs` says.
pub open spec fn all_children(
    listing: Seq<Listed>,
    prefix: Seq<Seq<char>>,
    nodes: Seq<Node>,
    dirs: bool,
) -> bool {
    forall|i: int|
        0 <= i < listing.len() ==> exists|k: int|
            0 <= k < nodes.len() && is_child(#[trigger] listing[i], prefix, #[trigger] nodes[k], dirs)
}

/// Two listings that each have the inside first, one behind the other, have
/// the inside first where nothing of the second lies inside an entry of the
/// first.
pub proof fn lemma_joined_inside_first(first: Seq<Listed>, second: Seq<Listed>)
    requires
        inside_first(first),
        inside_first(second),
        forall|i: int, j: int|
            0 <= i < first.len() && 0 <= j < second.len() ==> !is_inside(
                (#[trigger] second[j]).path,
                (#[trigger] first[i]).path,
            ),
    ensures
        inside_first(first + second),
{
}

/// Two listings without a repeated path, one behind the other, have no
/// repeated path where they share none.
pub proof fn lemma_joined_distinct(first: Seq<Listed>, second: Seq<Listed>)
    requires
        distinct_paths(first),
        distinct_paths(second),
        forall|i: int, j: int|
            0 <= i < first.len() && 0 <= j < second.len() ==> (#[trigger] first[i]).path != (
            #[trigger] second[j]).path,
    ensures
        distinct_paths(first + second),
{
}

/// Names that are distinct stay so where the last entry is left out.
pub proof fn lemma_distinct_names_shorter(nodes: Seq<Node>)
    requires
        distinct_names(nodes),
        nodes.len() > 0,
    ensures
        distinct_names(nodes.drop_last()),
        match nodes.last() {
            Node::Dir { entries, .. } => distinct_names(entries@),
            Node::File { .. } => true,
        },
{
}

/// The files of a directory are listed each under its own name, once.
pub proof fn lemma_walk_files(nodes: Seq<Node>, prefix: Seq<Seq<char>>)
    requires
        distinct_names(nodes),
    ensures
        all_children(walk_files(nodes, prefix), prefix, nodes, false),
        distinct_paths(walk_files(nodes, prefix)),
    decreases nodes.len(),
{
    if nodes.len() > 0 {
        let shorter = nodes.drop_last();
        let before = walk_files(shorter, prefix);
        let listing = walk_files(nodes, prefix);
        lemma_distinct_names_shorter(nodes);
        lemma_walk_files(shorter, prefix);
        assert forall|i: int, j: int| 0 <= i < j < listing.len() implies (
        #[trigger] listing[i]).path != (#[trigger] listing[j]).path by {
            if j >= before.len() {
                let k = choose|k: int|
                    0 <= k < shorter.len() && is_child(before[i], prefix, #[trigger] shorter[k], false);
                assert(prefix.push(nodes[k].name()).last() == nodes[k].name());
            }
        }
    }
}

/// The subdirectories of a directory are listed each under its own name, once.
pub proof fn lemma_walk_dirs(nodes: Seq<Node>, prefix: Seq<Seq<char>>)
    requires
        distinct_names(nodes),
    ensures
        all_children(walk_dirs(nodes, prefix), prefix, nodes, true),
        distinct_paths(walk_dirs(nodes, prefix)),
    decreases nodes.len(),
{
    if nodes.len() > 0 {
        let shorter = nodes.drop_last();
        let before = walk_dirs(shorter, prefix);
        let listing = walk_dirs(nodes, prefix);
        lemma_distinct_names_shorter(nodes);
        lemma_walk_dirs(shorter, prefix);
        assert forall|i: int, j: int| 0 <= i < j < listing.len() implies (
        #[trigger] listing[i]).path != (#[trigger] listing[j]).path by {
            if j >= before.len() {
                let k = choose|k: int|
                    0 <= k < shorter.len() && is_child(before[i], prefix, #[trigger] shorter[k], true);
                assert(prefix.push(nodes[k].name()).last() == nodes[k].name());
            }
        }
    }
}

/// What lies inside the subdirectories of a directory is listed at least two
/// names deep, once, and with what lies inside an entry before the entry.
pub proof fn lemma_walk_inside(nodes: Seq<Node>, prefix: Seq<Seq<char>>)
    requires
        distinct_names(nodes),
    ensures
        all_below(walk_inside(nodes, prefix), prefix, nodes, 2),
        inside_first(walk_inside(nodes, prefix)),
        distinct_paths(walk_inside(nodes, prefix)),
    decreases nodes, 0int,
{
    if nodes.len() > 0 {
        let shorter = nodes.drop_last();
        let last = nodes.len() - 1;
        let before = walk_inside(shorter, prefix);
        let depth = prefix.len() as int;
        lemma_distinct_names_shorter(nodes);
        lemma_walk_inside(shorter, prefix);
        let block = match nodes.last() {
            Node::Dir { name, id, entries } => walk(entries@, prefix.push(name@)),
            Node::File { .. } => Seq::empty(),
        };
        match nodes.last() {
            Node::Dir { name, id, entries } => {
                lemma_walk(entries@, prefix.push(name@));
            },
            Node::File { .. } => {},
        }
        assert forall|i: int| 0 <= i < block.len() implies is_below(
            #[trigger] block[i],
            prefix,
            nodes[last],
            2,
        ) by {
            match nodes.last() {
                Node::Dir { name, id, entries } => {
                    let deeper = prefix.push(name@);
                    let path = block[i].path;
                    assert(path.subrange(0, depth) =~= path.subrange(0, depth + 1).subrange(
                        0,
                        depth,
                    ));
                    assert(deeper.subrange(0, depth) =~= prefix);
                    assert(path[depth] == path.subrange(0, depth + 1)[depth]);
                },
                Node::File { .. } => {},
            }
        }
        lemma_joined_inside_first(before, block);
        lemma_joined_distinct(before, block);
    }
}

/// The entries of a directory are listed inside it, once, and with what
/// lies inside an entry before the entry.
pub proof fn lemma_walk(nodes: Seq<Node>, prefix: Seq<Seq<char>>)
    requires
        distinct_names(nodes),
    ensures
        all_below(walk(nodes, prefix), prefix, nodes, 1),
        inside_first(walk(nodes, prefix)),
        distinct_paths(walk(nodes, prefix)),
    decreases nodes, 1int,
{
    let inside = walk_inside(nodes, prefix);
    let files = walk_files(nodes, prefix);
    let dirs = walk_dirs(nodes, prefix);
    let depth = prefix.len() as int;
    lemma_walk_inside(nodes, prefix);
    lemma_walk_files(nodes, prefix);
    lemma_walk_dirs(nodes, prefix);
    lemma_joined_inside_first(inside, files);
    lemma_joined_distinct(inside, files);
    let upper = inside + files;
    assert forall|i: int, j: int| 0 <= i < upper.len() && 0 <= j < dirs.len() implies (
    #[trigger] upper[i]).path != (#[trigger] dirs[j]).path by {
        if i >= inside.len() {
            let file = files[i - inside.len()];
            let k = choose|k: int|
                0 <= k < nodes.len() && is_child(file, prefix, #[trigger] nodes[k], false);
            assert(prefix.push(nodes[k].name()).last() == nodes[k].name());
        }
    }
    lemma_joined_inside_first(upper, dirs);
    lemma_joined_distinct(upper, dirs);
    let listing = walk(nodes, prefix);
    assert forall|i: int| 0 <= i < listing.len() implies exists|k: int|
        0 <= k < nodes.len() && is_below(#[trigger] listing[i], prefix, #[trigger] nodes[k], 1) by {
        if inside.len() <= i < upper.len() {
            let file = files[i - inside.len()];
            assert(file.path.subrange(0, depth) =~= prefix);
        } else if i >= upper.len() {
            let dir = dirs[i - upper.len()];
            assert(dir.path.subrange(0, depth) =~= prefix);
        }
    }
}

/// The order of a listing. Where no directory has two entries of one name,
/// whatever lies inside an entry is listed before the entry, so a directory
/// comes after all that it holds; no path is listed twice; and every path
/// has at least one name, so the directory that was read is not listed.
pub proof fn law_listing_is_inside_first(nodes: Seq<Node>)
    requires
        distinct_names(nodes),
    ensures
        inside_first(walk(nodes, Seq::empty())),
        distinct_paths(walk(nodes, Seq::empty())),
        forall|i: int|
            0 <= i < walk(nodes, Seq::empty()).len() ==> (#[trigger] walk(
                nodes,
                Seq::empty(),
            )[i]).path.len() >= 1,
{
    lemma_walk(nodes, Seq::empty());
}

} // verus!

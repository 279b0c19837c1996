//! A directory as it was read, and the order in which its entries are handled.
//!
//! Within a directory, first what lies inside each of its subdirectories is
//! handled, then its files, then the subdirectories themselves. So whatever
//! lies inside a directory comes before the directory, and a directory that
//! is left empty can be removed when its turn comes. The directory that was
//! read is not among the entries.

use vstd::prelude::*;

verus! {

/// An entry of a directory: a file, or a directory with its own entries.
/// `id` is the caller's handle for the entry; the library passes it on.
#[derive(Debug)]
pub enum Node {
    File { name: String, id: usize },
    Dir { name: String, id: usize, entries: Vec<Node> },
}

/// An entry of the directory that is reconciled, at any depth: its path from
/// that directory as the names on the way, whether it is a directory, and the
/// caller's handle for it.
#[derive(Debug)]
pub struct Entry {
    pub path: Vec<String>,
    pub is_dir: bool,
    pub id: usize,
}

/// What an [`Entry`] stands for.
pub struct Listed {
    pub path: Seq<Seq<char>>,
    pub is_dir: bool,
    pub id: usize,
}

impl DeepView for Entry {
    type V = Listed;

    /// The entry with its path as text.
    open spec fn deep_view(&self) -> Listed {
        Listed { path: self.path.deep_view(), is_dir: self.is_dir, id: self.id }
    }
}

impl View for Entry {
    type V = Listed;

    /// The entry with its path as text.
    open spec fn view(&self) -> Listed {
        self.deep_view()
    }
}

/// What lies inside the directories among `nodes`, directory by directory.
pub open spec fn walk_inside(nodes: Seq<Node>, prefix: Seq<Seq<char>>) -> Seq<Listed>
    decreases nodes, 0int,
{
    if nodes.len() == 0 {
        Seq::empty()
    } else {
        walk_inside(nodes.drop_last(), prefix) + match nodes.last() {
            Node::Dir { name, id, entries } => walk(entries@, prefix.push(name@)),
            Node::File { .. } => Seq::empty(),
        }
    }
}

/// The files among `nodes`, in order.
pub open spec fn walk_files(nodes: Seq<Node>, prefix: Seq<Seq<char>>) -> Seq<Listed>
    decreases nodes.len(),
{
    if nodes.len() == 0 {
        Seq::empty()
    } else {
        match nodes.last() {
            Node::File { name, id } => walk_files(nodes.drop_last(), prefix).push(
                Listed { path: prefix.push(name@), is_dir: false, id },
            ),
            Node::Dir { .. } => walk_files(nodes.drop_last(), prefix),
        }
    }
}

/// The directories among `nodes`, in order.
pub open spec fn walk_dirs(nodes: Seq<Node>, prefix: Seq<Seq<char>>) -> Seq<Listed>
    decreases nodes.len(),
{
    if nodes.len() == 0 {
        Seq::empty()
    } else {
        match nodes.last() {
            Node::Dir { name, id, entries } => walk_dirs(nodes.drop_last(), prefix).push(
                Listed { path: prefix.push(name@), is_dir: true, id },
            ),
            Node::File { .. } => walk_dirs(nodes.drop_last(), prefix),
        }
    }
}

/// The entries of a directory at any depth, in the order in which they are
/// handled. `nodes` are the entries of the directory itself, and `prefix` is
/// the path of that directory.
pub open spec fn walk(nodes: Seq<Node>, prefix: Seq<Seq<char>>) -> Seq<Listed>
    decreases nodes, 1int,
{
    walk_inside(nodes, prefix) + walk_files(nodes, prefix) + walk_dirs(nodes, prefix)
}

/// A copy of a path.
pub fn copy_path(path: &Vec<String>) -> (copy: Vec<String>)
    ensures
        copy.deep_view() == path.deep_view(),
{
    let mut copy: Vec<String> = Vec::new();
    let mut at: usize = 0;
    while at < path.len()
        invariant
            at <= path.len(),
            copy.len() == at,
            forall|i: int| 0 <= i < at ==> copy@[i]@ == path@[i]@,
        decreases path.len() - at,
    {
        copy.push(path[at].clone());
        at = at + 1;
    }
    copy
}

/// The path of the entry `name` of the directory `prefix`.
fn child_path(prefix: &Vec<String>, name: &String) -> (path: Vec<String>)
    ensures
        path.deep_view() == prefix.deep_view().push(name@),
{
    let mut path = copy_path(prefix);
    path.push(name.clone());
    path
}

/// Appends to `out` the entries of a directory at any depth, in the order
/// in which they are handled.
fn walk_recursive(nodes: &Vec<Node>, prefix: &Vec<String>, out: &mut Vec<Entry>)
    ensures
        final(out).deep_view() == old(out).deep_view() + walk(nodes@, prefix.deep_view()),
    decreases nodes,
{
    let ghost start = out.deep_view();
    let ghost base = prefix.deep_view();
    let mut at: usize = 0;
    while at < nodes.len()
        invariant
            at <= nodes.len(),
            base == prefix.deep_view(),
            out.deep_view() == start + walk_inside(nodes@.subrange(0, at as int), base),
        decreases nodes.len() - at,
    {
        let ghost seen = nodes@.subrange(0, at as int);
        let ghost more = nodes@.subrange(0, at + 1);
        proof {
            assert(more.drop_last() =~= seen);
        }
        match &nodes[at] {
            Node::Dir { name, id, entries } => {
                let inner = child_path(prefix, name);
                walk_recursive(entries, &inner, out);
            },
            Node::File { .. } => {},
        }
        at = at + 1;
    }
    assert(nodes@.subrange(0, at as int) =~= nodes@);
    let ghost inside = start + walk_inside(nodes@, base);
    at = 0;
    while at < nodes.len()
        invariant
            at <= nodes.len(),
            base == prefix.deep_view(),
            out.deep_view() == inside + walk_files(nodes@.subrange(0, at as int), base),
        decreases nodes.len() - at,
    {
        let ghost seen = nodes@.subrange(0, at as int);
        let ghost more = nodes@.subrange(0, at + 1);
        proof {
            assert(more.drop_last() =~= seen);
        }
        match &nodes[at] {
            Node::File { name, id } => {
                let ghost before = out.deep_view();
                let entry = Entry { path: child_path(prefix, name), is_dir: false, id: *id };
                out.push(entry);
                assert(out.deep_view() =~= before.push(entry.deep_view()));
            },
            Node::Dir { .. } => {},
        }
        at = at + 1;
    }
    let ghost files = inside + walk_files(nodes@, base);
    at = 0;
    while at < nodes.len()
        invariant
            at <= nodes.len(),
            base == prefix.deep_view(),
            out.deep_view() == files + walk_dirs(nodes@.subrange(0, at as int), base),
        decreases nodes.len() - at,
    {
        let ghost seen = nodes@.subrange(0, at as int);
        let ghost more = nodes@.subrange(0, at + 1);
        proof {
            assert(more.drop_last() =~= seen);
        }
        match &nodes[at] {
            Node::Dir { name, id, entries } => {
                let ghost before = out.deep_view();
                let entry = Entry { path: child_path(prefix, name), is_dir: true, id: *id };
                out.push(entry);
                assert(out.deep_view() =~= before.push(entry.deep_view()));
            },
            Node::File { .. } => {},
        }
        at = at + 1;
    }
}

/// The entries of a directory at any depth, each with its path from that
/// directory, in the order in which they are handled: what lies inside a
/// directory before the directory itself.
pub fn walk_depth_first(nodes: &Vec<Node>) -> (listing: Vec<Entry>)
    ensures
        listing.deep_view() == walk(nodes@, Seq::empty()),
{
    let mut listing: Vec<Entry> = Vec::new();
    let root: Vec<String> = Vec::new();
    assert(root.deep_view() =~= Seq::<Seq<char>>::empty());
    walk_recursive(nodes, &root, &mut listing);
    listing
}

} // verus!

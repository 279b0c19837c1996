use std::collections::BTreeSet;
use zdircomp::safety::PathPart::{Normal, Prefix, RootDir};
use zdircomp::sync::{
    clear_root, plan, plan_pass, read_file_list, tally, walk_depth_first, Entry, Manifest, Node,
    Report, SyncError,
};

fn names(path: &[&str]) -> Vec<String> {
    path.iter().map(|name| name.to_string()).collect()
}

fn file(name: &str, id: usize) -> Node {
    Node::File { name: name.to_string(), id }
}

fn dir(name: &str, id: usize, entries: Vec<Node>) -> Node {
    Node::Dir { name: name.to_string(), id, entries }
}

fn shown(listing: &[Entry]) -> Vec<(String, bool, usize)> {
    listing
        .iter()
        .map(|entry| (entry.path.join("/"), entry.is_dir, entry.id))
        .collect()
}

fn row(path: &str, is_dir: bool, id: usize) -> (String, bool, usize) {
    (path.to_string(), is_dir, id)
}

/// Tries the steps on what is there, as a file system would: a directory
/// goes only when nothing is left inside it.
fn attempt(steps: &[Entry], present: &mut BTreeSet<Vec<String>>) -> Vec<bool> {
    let mut outcomes = Vec::new();
    for step in steps {
        let there = present.contains(&step.path);
        let holds_something = present
            .iter()
            .any(|path| path.len() > step.path.len() && path[..step.path.len()] == step.path[..]);
        let goes = there && !(step.is_dir && holds_something);
        if goes {
            present.remove(&step.path);
        }
        outcomes.push(goes);
    }
    outcomes
}

fn example_tree() -> Vec<Node> {
    vec![
        file("file1.txt", 1),
        dir("SubDir", 2, vec![file("file2.txt", 3), file("junk.bin", 4)]),
        dir("EmptyAfter", 5, vec![file("stray.tmp", 6)]),
    ]
}

fn example_manifest() -> Manifest {
    Manifest::new(vec![names(&["file1.txt"]), names(&["SubDir", "file2.txt"])])
}

#[test]
fn listing_has_contents_before_directories() {
    let listing = walk_depth_first(&example_tree());
    assert_eq!(
        shown(&listing),
        vec![
            row("SubDir/file2.txt", false, 3),
            row("SubDir/junk.bin", false, 4),
            row("EmptyAfter/stray.tmp", false, 6),
            row("file1.txt", false, 1),
            row("SubDir", true, 2),
            row("EmptyAfter", true, 5),
        ]
    );
}

#[test]
fn listing_of_nested_directories() {
    let tree = vec![
        dir(
            "a",
            1,
            vec![
                file("x", 2),
                dir("b", 3, vec![dir("c", 4, vec![]), file("y", 5)]),
                file("z", 6),
            ],
        ),
        file("top", 7),
        dir("d", 8, vec![]),
    ];
    let listing = walk_depth_first(&tree);
    assert_eq!(
        shown(&listing),
        vec![
            row("a/b/y", false, 5),
            row("a/b/c", true, 4),
            row("a/x", false, 2),
            row("a/z", false, 6),
            row("a/b", true, 3),
            row("top", false, 7),
            row("a", true, 1),
            row("d", true, 8),
        ]
    );
    for (i, outer) in listing.iter().enumerate() {
        for (j, inner) in listing.iter().enumerate() {
            let inside = inner.path.len() > outer.path.len()
                && inner.path[..outer.path.len()] == outer.path[..];
            if inside {
                assert!(j < i);
            }
        }
    }
    assert!(walk_depth_first(&Vec::new()).is_empty());
}

#[test]
fn manifest_is_a_set_of_paths() {
    let manifest = Manifest::new(vec![
        names(&["file1.txt"]),
        names(&["SubDir", "file2.txt"]),
        names(&["file1.txt"]),
        names(&[]),
    ]);
    assert!(manifest.contains(&names(&["file1.txt"])));
    assert!(manifest.contains(&names(&["SubDir", "file2.txt"])));
    assert!(manifest.contains(&names(&[])));
    assert!(!manifest.contains(&names(&["SubDir"])));
    assert!(!manifest.contains(&names(&["file2.txt"])));
    assert!(!manifest.contains(&names(&["SubDir", "file2.txt", "x"])));
    assert!(!manifest.contains(&names(&["SubDirfile2.txt"])));
    assert!(!manifest.contains(&names(&["SubDir/file2.txt"])));
    assert!(!manifest.contains(&names(&["file2.txt", "SubDir"])));
    assert!(!manifest.contains(&names(&["File1.txt"])));
    let empty = Manifest::new(Vec::new());
    assert!(!empty.contains(&names(&[])));
    assert!(!empty.contains(&names(&["a"])));
}

#[test]
fn manifest_tells_apart_paths_of_like_bytes() {
    let first = names(&["dir", "a\u{e9}z"]);
    let second = names(&["dir", "bA&z"]);
    let only_first = Manifest::new(vec![first.clone()]);
    assert!(only_first.contains(&first));
    assert!(!only_first.contains(&second));
    let both = Manifest::new(vec![second.clone(), first.clone(), second.clone()]);
    assert!(both.contains(&first));
    assert!(both.contains(&second));
    assert!(!both.contains(&names(&["dir", "bA&y"])));
}

#[test]
fn manifest_with_many_paths() {
    let mut paths = Vec::new();
    for i in 0..5000 {
        paths.push(vec![format!("dir{}", i % 70), format!("file{}", i)]);
    }
    let manifest = Manifest::new(paths.clone());
    for path in &paths {
        assert!(manifest.contains(path));
    }
    for i in 0..5000 {
        assert!(!manifest.contains(&vec![format!("dir{}", i % 70 + 1), format!("file{}", i)]));
        assert!(!manifest.contains(&vec![format!("file{}", i)]));
    }
}

#[test]
fn extraneous_files_and_emptied_directories_go() {
    let manifest = example_manifest();
    let listing = walk_depth_first(&example_tree());
    let steps = plan(&manifest, &listing);
    assert_eq!(
        shown(&steps),
        vec![
            row("SubDir/junk.bin", false, 4),
            row("EmptyAfter/stray.tmp", false, 6),
            row("SubDir", true, 2),
            row("EmptyAfter", true, 5),
        ]
    );
    let mut present: BTreeSet<Vec<String>> =
        listing.iter().map(|entry| entry.path.clone()).collect();
    let outcomes = attempt(&steps, &mut present);
    assert_eq!(outcomes, vec![true, true, false, true]);
    let report = tally(&steps, &outcomes);
    assert_eq!(report, Report { files_deleted: 2, dirs_deleted: 1 });
    let left: Vec<Vec<String>> = present.into_iter().collect();
    assert_eq!(
        left,
        vec![
            names(&["SubDir"]),
            names(&["SubDir", "file2.txt"]),
            names(&["file1.txt"]),
        ]
    );
}

#[test]
fn second_pass_reports_nothing() {
    let manifest = example_manifest();
    let listing = walk_depth_first(&example_tree());
    let steps = plan(&manifest, &listing);
    let mut present: BTreeSet<Vec<String>> =
        listing.iter().map(|entry| entry.path.clone()).collect();
    attempt(&steps, &mut present);
    let left = present.clone();

    let again = vec![
        file("file1.txt", 10),
        dir("SubDir", 11, vec![file("file2.txt", 12)]),
    ];
    let listing = walk_depth_first(&again);
    let steps = plan(&manifest, &listing);
    assert_eq!(shown(&steps), vec![row("SubDir", true, 11)]);
    let outcomes = attempt(&steps, &mut present);
    assert_eq!(outcomes, vec![false]);
    let report = tally(&steps, &outcomes);
    assert_eq!(report, Report { files_deleted: 0, dirs_deleted: 0 });
    assert!(report.is_clean());
    assert_eq!(present, left);
}

#[test]
fn named_files_are_never_planned() {
    let manifest = Manifest::new(vec![names(&["keep"]), names(&["d", "keep"])]);
    let tree = vec![
        file("keep", 1),
        file("drop", 2),
        dir("d", 3, vec![file("keep", 4), file("drop", 5)]),
    ];
    let steps = plan(&manifest, &walk_depth_first(&tree));
    assert_eq!(
        shown(&steps),
        vec![row("d/drop", false, 5), row("drop", false, 2), row("d", true, 3)]
    );
    for step in &steps {
        assert!(!step.path.is_empty());
        assert!(step.is_dir || !manifest.contains(&step.path));
    }
}

#[test]
fn directory_named_by_the_manifest_is_still_tried() {
    let manifest = Manifest::new(vec![names(&["SubDir"])]);
    let steps = plan(&manifest, &walk_depth_first(&vec![dir("SubDir", 1, vec![])]));
    assert_eq!(shown(&steps), vec![row("SubDir", true, 1)]);
}

#[test]
fn tally_counts_what_went_well() {
    let steps = vec![
        Entry { path: names(&["a"]), is_dir: false, id: 0 },
        Entry { path: names(&["b"]), is_dir: true, id: 1 },
        Entry { path: names(&["c"]), is_dir: false, id: 2 },
        Entry { path: names(&["d"]), is_dir: true, id: 3 },
        Entry { path: names(&["e"]), is_dir: false, id: 4 },
    ];
    assert_eq!(
        tally(&steps, &vec![true, true, true, false, false]),
        Report { files_deleted: 2, dirs_deleted: 1 }
    );
    assert_eq!(
        tally(&steps, &vec![false; 5]),
        Report { files_deleted: 0, dirs_deleted: 0 }
    );
    assert_eq!(
        tally(&steps, &vec![true; 5]),
        Report { files_deleted: 3, dirs_deleted: 2 }
    );
    assert_eq!(
        tally(&steps, &vec![true, true]),
        Report { files_deleted: 1, dirs_deleted: 1 }
    );
    assert_eq!(
        tally(&steps, &vec![true; 9]),
        Report { files_deleted: 3, dirs_deleted: 2 }
    );
    assert_eq!(
        tally(&Vec::new(), &vec![true]),
        Report { files_deleted: 0, dirs_deleted: 0 }
    );
}

#[test]
fn report_in_words() {
    let clean = Report { files_deleted: 0, dirs_deleted: 0 };
    assert!(clean.is_clean());
    assert_eq!(clean.summary(), "clean, nothing to remove");
    let report = Report { files_deleted: 2, dirs_deleted: 1 };
    assert!(!report.is_clean());
    assert_eq!(report.summary(), "deleted 2 files, 1 empty dirs");
    let report = Report { files_deleted: 0, dirs_deleted: 12 };
    assert!(!report.is_clean());
    assert_eq!(report.summary(), "deleted 0 files, 12 empty dirs");
    let report = Report { files_deleted: 1234567890, dirs_deleted: 0 };
    assert_eq!(report.summary(), "deleted 1234567890 files, 0 empty dirs");
}

#[test]
fn stages_of_a_pass() {
    let shallow = [Prefix, RootDir, Normal];
    match clear_root(None, &shallow) {
        Err(SyncError::TooShallow) => {}
        _ => panic!("cleared"),
    }
    let deep = [Prefix, RootDir, Normal, Normal];
    match clear_root(Some(&shallow), &deep) {
        Err(error) => assert_eq!(error.describe(), "path too shallow, aborted"),
        Ok(_) => panic!("cleared"),
    }
    let cleared = match clear_root(Some(&deep), &shallow) {
        Ok(cleared) => cleared,
        Err(_) => panic!("refused"),
    };

    match read_file_list(&cleared, b"d4:infodee") {
        Err(SyncError::Torrent(error)) => {
            assert_eq!(error.0, "No 'files' or 'name' found in torrent info")
        }
        _ => panic!("a file list"),
    }
    match read_file_list(&cleared, b"d4:info") {
        Err(error) => assert_eq!(
            error.describe(),
            "Bencode parse error: Dictionary: missing value"
        ),
        Ok(_) => panic!("a file list"),
    }
    let torrent = b"d4:infod5:filesld4:pathl9:file1.txteed4:pathl6:SubDir9:file2.txteeeee";
    let declared = match read_file_list(&cleared, torrent) {
        Ok(declared) => declared,
        Err(_) => panic!("no file list"),
    };
    assert_eq!(
        declared,
        vec![names(&["file1.txt"]), names(&["SubDir", "file2.txt"])]
    );
    let manifest = Manifest::new(declared);
    assert!(manifest.contains(&names(&["SubDir", "file2.txt"])));

    match plan_pass(&cleared, &manifest, None) {
        Err(error) => assert_eq!(error.describe(), "directory does not exist, aborted"),
        Ok(_) => panic!("a plan"),
    }
    let steps = match plan_pass(&cleared, &manifest, Some(&example_tree())) {
        Ok(steps) => steps,
        Err(_) => panic!("no plan"),
    };
    assert_eq!(
        shown(&steps),
        vec![
            row("SubDir/junk.bin", false, 4),
            row("EmptyAfter/stray.tmp", false, 6),
            row("SubDir", true, 2),
            row("EmptyAfter", true, 5),
        ]
    );
}

use zdircomp::safety::PathPart::{CurDir, Normal, ParentDir, Prefix, RootDir};
use zdircomp::safety::{check_depth, count_components, PathPart, MIN_DEPTH};

#[test]
fn test_depth() {
    let drive: (&str, Vec<PathPart>) = ("E:\\", vec![Prefix, RootDir]);
    let online: (&str, Vec<PathPart>) = ("E:\\Online", vec![Prefix, RootDir, Normal]);
    let torrent: (&str, Vec<PathPart>) =
        ("E:\\Online\\MyTorrent", vec![Prefix, RootDir, Normal, Normal]);
    let category: (&str, Vec<PathPart>) = (
        "E:\\Online\\Category\\MyTorrent",
        vec![Prefix, RootDir, Normal, Normal, Normal],
    );

    // Too shallow
    assert!(!check_depth(None, &drive.1, 3), "{}", drive.0);
    assert!(!check_depth(None, &online.1, 3), "{}", online.0);

    // Deep enough
    assert!(check_depth(None, &torrent.1, 3), "{}", torrent.0);
    assert!(check_depth(None, &category.1, 3), "{}", category.0);
}

#[test]
fn only_names_and_the_prefix_count() {
    assert_eq!(count_components(&[]), 0);
    assert_eq!(count_components(&[RootDir]), 0);
    assert_eq!(count_components(&[Prefix, RootDir]), 1);
    assert_eq!(count_components(&[RootDir, Normal, Normal]), 2);
    assert_eq!(count_components(&[CurDir, Normal, ParentDir, Normal]), 2);
    assert_eq!(
        count_components(&[Prefix, RootDir, Normal, CurDir, ParentDir, Normal, Normal]),
        4
    );
}

#[test]
fn resolved_path_decides_where_there_is_one() {
    let given = [Prefix, RootDir, Normal, Normal, Normal];
    let resolved = [Prefix, RootDir, Normal];
    assert!(!check_depth(Some(&resolved), &given, 3));
    assert!(check_depth(None, &given, 3));
    let given = [Normal];
    let resolved = [RootDir, Normal, Normal, Normal];
    assert!(check_depth(Some(&resolved), &given, 3));
    assert!(!check_depth(None, &given, 3));
}

#[test]
fn depth_is_compared_with_the_minimum() {
    let parts = [RootDir, Normal, Normal];
    assert!(check_depth(None, &parts, 0));
    assert!(check_depth(None, &parts, 2));
    assert!(!check_depth(None, &parts, 3));
    assert_eq!(MIN_DEPTH, 3);
}

use std::path::PathBuf;
use zdircomp::bencode::{extract_files, parse, torrent_files};

fn native(path: &[String]) -> PathBuf {
    path.iter().collect()
}

#[test]
fn test_multi_file_torrent() {
    let data = b"d4:infod5:filesld6:lengthi100e4:pathl9:file1.txteed6:lengthi200e4:pathl6:SubDir9:file2.txteeeee";
    let files = torrent_files(data).unwrap();
    assert_eq!(files.len(), 2);
    assert_eq!(native(&files[0]), PathBuf::from("file1.txt"));
    assert_eq!(native(&files[1]), PathBuf::from("SubDir").join("file2.txt"));
}

#[test]
fn test_single_file_torrent() {
    let data = b"d4:infod4:name9:file1.txtee";
    let files = torrent_files(data).unwrap();
    assert_eq!(files.len(), 1);
    assert_eq!(native(&files[0]), PathBuf::from("file1.txt"));
}

fn names(path: &[&str]) -> Vec<String> {
    path.iter().map(|name| name.to_string()).collect()
}

fn message_of(data: &[u8]) -> String {
    match torrent_files(data) {
        Ok(_) => panic!("a file list"),
        Err(error) => error.0,
    }
}

#[test]
fn segments_come_in_declared_order() {
    let data = b"d4:infod5:filesld4:pathl1:a1:b1:a1:ceed4:pathl1:c1:aeed4:pathl1:a1:b1:a1:ceeeee";
    let files = torrent_files(data).unwrap();
    assert_eq!(
        files,
        vec![
            names(&["a", "b", "a", "c"]),
            names(&["c", "a"]),
            names(&["a", "b", "a", "c"]),
        ]
    );
}

#[test]
fn files_win_over_name() {
    let data = b"d4:infod5:filesld4:pathl1:xeee4:name3:topee";
    assert_eq!(torrent_files(data).unwrap(), vec![names(&["x"])]);
}

#[test]
fn empty_file_list_and_empty_path() {
    assert_eq!(
        torrent_files(b"d4:infod5:filesleee").unwrap(),
        Vec::<Vec<String>>::new()
    );
    assert_eq!(
        torrent_files(b"d4:infod5:filesld4:pathleeeee").unwrap(),
        vec![Vec::<String>::new()]
    );
}

#[test]
fn segments_are_read_lossily() {
    let data = b"d4:infod5:filesld4:pathl2:\xffa4:caf\xe9eeeee";
    assert_eq!(
        torrent_files(data).unwrap(),
        vec![names(&["\u{fffd}a", "caf\u{fffd}"])]
    );
    let data = b"d4:infod4:name3:\xc3\xa9\xffee";
    assert_eq!(
        torrent_files(data).unwrap(),
        vec![names(&["\u{e9}\u{fffd}"])]
    );
}

#[test]
fn bytes_behind_the_torrent_are_ignored() {
    let data = b"d4:infod4:name1:aeetrailing";
    assert_eq!(torrent_files(data).unwrap(), vec![names(&["a"])]);
}

#[test]
fn each_extraction_failure_has_its_message() {
    assert_eq!(message_of(b"de"), "Missing 'info' dictionary");
    assert_eq!(message_of(b"i1e"), "Missing 'info' dictionary");
    assert_eq!(message_of(b"d4:infod5:filesi1eee"), "'files' is not a list");
    assert_eq!(
        message_of(b"d4:infod5:filesld6:lengthi1eeeee"),
        "File entry missing 'path' list"
    );
    assert_eq!(
        message_of(b"d4:infod5:filesld4:path1:aeeee"),
        "File entry missing 'path' list"
    );
    assert_eq!(
        message_of(b"d4:infod5:filesli1eeee"),
        "File entry missing 'path' list"
    );
    assert_eq!(
        message_of(b"d4:infod5:filesld4:pathl1:ai1eeeeee"),
        "Path component is not a string"
    );
    assert_eq!(
        message_of(b"d4:infodee"),
        "No 'files' or 'name' found in torrent info"
    );
    assert_eq!(
        message_of(b"d4:infod4:namei1eee"),
        "No 'files' or 'name' found in torrent info"
    );
    assert_eq!(
        message_of(b"d4:info1:xe"),
        "No 'files' or 'name' found in torrent info"
    );
}

#[test]
fn first_failing_entry_decides() {
    assert_eq!(
        message_of(b"d4:infod5:filesld4:pathl1:aeed4:pathli1eeedee4:name1:nee"),
        "Path component is not a string"
    );
    assert_eq!(
        message_of(b"d4:infod5:filesldd4:pathli1eeeeee"),
        "Dictionary: key must be byte string"
    );
}

#[test]
fn decoding_failures_pass_through() {
    assert_eq!(message_of(b""), "Unexpected end of data");
    assert_eq!(
        message_of(b"d4:infod4:name9:file1"),
        "String: expected 9 bytes but only 5 available"
    );
}

#[test]
fn extraction_from_a_decoded_value() {
    let (root, _) = parse(b"d4:infod5:filesld4:pathl3:dir4:fileeeeee").unwrap();
    assert_eq!(extract_files(&root).unwrap(), vec![names(&["dir", "file"])]);
    let (root, _) = parse(b"le").unwrap();
    assert!(extract_files(&root).is_err());
}

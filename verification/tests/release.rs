use zdircomp::sync::Node;
use zdircomp::unlock::{collect_files, file_name_of, is_excluded, summary};

fn names(list: &[&str]) -> Vec<String> {
    list.iter().map(|name| name.to_string()).collect()
}

#[test]
fn torrent_clients_are_never_ended() {
    assert!(is_excluded("utorrent.exe"));
    assert!(is_excluded("uTorrent.exe"));
    assert!(is_excluded("UTORRENT.EXE"));
    assert!(is_excluded("bittorrent.exe"));
    assert!(is_excluded("BitTorrent.exe"));
    assert!(!is_excluded("utorrent"));
    assert!(!is_excluded("utorrent.exe "));
    assert!(!is_excluded("qbittorrent.exe"));
    assert!(!is_excluded("notepad.exe"));
    assert!(!is_excluded(""));
}

#[test]
fn name_behind_the_last_backslash() {
    assert_eq!(file_name_of("C:\\Program Files\\uTorrent\\uTorrent.exe"), "uTorrent.exe");
    assert_eq!(file_name_of("notepad.exe"), "notepad.exe");
    assert_eq!(file_name_of("C:\\dir\\"), "");
    assert_eq!(file_name_of("\\x"), "x");
    assert_eq!(file_name_of(""), "");
    assert_eq!(file_name_of("C:/dir/app.exe"), "C:/dir/app.exe");
    assert_eq!(file_name_of("D:\\caf\u{e9}\\\u{4e2d}\u{6587}.exe"), "\u{4e2d}\u{6587}.exe");
}

#[test]
fn files_are_collected_in_reading_order() {
    let tree = vec![
        Node::File { name: "a".to_string(), id: 1 },
        Node::Dir {
            name: "d".to_string(),
            id: 2,
            entries: vec![
                Node::Dir { name: "e".to_string(), id: 3, entries: vec![] },
                Node::File { name: "b".to_string(), id: 4 },
                Node::Dir {
                    name: "f".to_string(),
                    id: 5,
                    entries: vec![Node::File { name: "c".to_string(), id: 6 }],
                },
            ],
        },
        Node::File { name: "z".to_string(), id: 7 },
    ];
    let files = collect_files(&tree);
    let shown: Vec<(String, bool, usize)> = files
        .iter()
        .map(|entry| (entry.path.join("/"), entry.is_dir, entry.id))
        .collect();
    assert_eq!(
        shown,
        vec![
            ("a".to_string(), false, 1),
            ("d/b".to_string(), false, 4),
            ("d/f/c".to_string(), false, 6),
            ("z".to_string(), false, 7),
        ]
    );
    assert!(collect_files(&Vec::new()).is_empty());
}

#[test]
fn outcome_in_words() {
    assert_eq!(summary(&names(&[]), &names(&[])), " \u{2014} no processes to terminate");
    assert_eq!(
        summary(&names(&["a.exe"]), &names(&[])),
        " \u{2014} killed 1 process(es) (a.exe)"
    );
    assert_eq!(
        summary(&names(&["a.exe", "b.exe", "c.exe"]), &names(&["uTorrent.exe"])),
        " \u{2014} killed 3 process(es) (a.exe, b.exe, c.exe), skipped uTorrent.exe"
    );
    assert_eq!(
        summary(&names(&[]), &names(&["uTorrent.exe", "BitTorrent.exe"])),
        " \u{2014} no processes to terminate, skipped uTorrent.exe, BitTorrent.exe"
    );
}

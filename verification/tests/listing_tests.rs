use sfvcheck::listing::FsInput;
use sfvcheck::listing::FsNode;
use sfvcheck::listing::get_all_files;
use sfvcheck::listing::get_files;
use sfvcheck::listing::lex_le_bytes;

fn file(name: &[u8]) -> FsNode {
    FsNode::File { name: name.to_vec() }
}

fn dir(name: &[u8], entries: Vec<FsNode>) -> FsNode {
    FsNode::Dir { name: name.to_vec(), entries }
}

fn sample_tree() -> Vec<FsNode> {
    vec![
        file(b"n1.txt"),
        file(b"n2.txt"),
        file(b"n3.txt"),
        dir(b"sub", vec![file(b"m1.txt"), file(b"m2.txt")]),
        FsNode::Other { name: b"a_socket".to_vec() },
    ]
}

#[test]
fn non_recursive_walk_counts_top_level_files_only() {
    let files = get_files(&sample_tree(), &b"root".to_vec(), false);
    assert_eq!(files.len(), 3);
}

#[test]
fn recursive_walk_adds_subdirectory_files() {
    let files = get_files(&sample_tree(), &b"root".to_vec(), true);
    assert_eq!(files.len(), 5);
    assert!(files.contains(&b"root/sub/m1.txt".to_vec()));
    assert!(files.contains(&b"root/sub/m2.txt".to_vec()));
}

#[test]
fn enumeration_output_is_sorted() {
    // Entries arrive in reverse order, as a filesystem might list them.
    let inputs = vec![FsInput::Dir {
        path: b"d".to_vec(),
        entries: vec![file(b"zz"), file(b"mm"), file(b"aa")],
    }];
    let files = get_all_files(inputs, false).unwrap();
    assert_eq!(files, vec![b"d/aa".to_vec(), b"d/mm".to_vec(), b"d/zz".to_vec()]);
}

#[test]
fn enumeration_is_independent_of_listing_order() {
    let forward = vec![FsInput::Dir {
        path: b"d".to_vec(),
        entries: vec![file(b"a"), file(b"b"), dir(b"s", vec![file(b"c")])],
    }];
    let backward = vec![FsInput::Dir {
        path: b"d".to_vec(),
        entries: vec![dir(b"s", vec![file(b"c")]), file(b"b"), file(b"a")],
    }];
    let f = get_all_files(forward, true).unwrap();
    let b = get_all_files(backward, true).unwrap();
    assert_eq!(f, b);
    assert_eq!(f, vec![b"d/a".to_vec(), b"d/b".to_vec(), b"d/s/c".to_vec()]);
}

#[test]
fn top_level_files_and_directories_mix() {
    let inputs = vec![
        FsInput::File { path: b"zeta.txt".to_vec() },
        FsInput::Dir { path: b"d".to_vec(), entries: vec![file(b"inner")] },
        FsInput::File { path: b"alpha.txt".to_vec() },
    ];
    let files = get_all_files(inputs, false).unwrap();
    assert_eq!(
        files,
        vec![b"alpha.txt".to_vec(), b"d/inner".to_vec(), b"zeta.txt".to_vec()]
    );
}

#[test]
fn missing_input_fails_enumeration() {
    let inputs = vec![
        FsInput::File { path: b"ok.txt".to_vec() },
        FsInput::Missing { path: b"no-such-path".to_vec() },
        FsInput::File { path: b"also-ok.txt".to_vec() },
    ];
    match get_all_files(inputs, false) {
        Err(e) => assert_eq!(e.path, b"no-such-path".to_vec()),
        Ok(_) => panic!("expected enumeration to fail"),
    }
}

#[test]
fn empty_inputs_enumerate_to_nothing() {
    let files = get_all_files(Vec::new(), true).unwrap();
    assert_eq!(files.len(), 0);
}

#[test]
fn lexicographic_byte_order() {
    assert!(lex_le_bytes(b"", b""));
    assert!(lex_le_bytes(b"", b"a"));
    assert!(!lex_le_bytes(b"a", b""));
    assert!(lex_le_bytes(b"a", b"a"));
    assert!(lex_le_bytes(b"a", b"b"));
    assert!(lex_le_bytes(b"a", b"ab"));
    assert!(!lex_le_bytes(b"ab", b"a"));
    assert!(lex_le_bytes(b"abc", b"abd"));
    assert!(!lex_le_bytes(b"abd", b"abc"));
}

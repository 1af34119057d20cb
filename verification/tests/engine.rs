use rvscw::codec::FileEntry;
use rvscw::document::{ignore_from_document, ignore_to_document, metadata_from_document};
use rvscw::document::{metadata_to_document, node_from_document, node_to_document};
use rvscw::document::{DocMember, DocValue};
use rvscw::error::Error;
use rvscw::ids::fresh_id;
use rvscw::meta::{compare, find_entry, put_entry, report_below, report_files};
use rvscw::meta::{MetadataEntry, MetadataNode};
use rvscw::repo::{commit, commit_with, get_metadata, history_entry, init, init_with};
use rvscw::repo::{restore, status};
use rvscw::tree::{scan, scan_metadata, TreeEntry};

fn file(path: &[u8], content: &[u8], modified: &[u8]) -> TreeEntry {
    TreeEntry::File { path: path.to_vec(), content: content.to_vec(), modified: modified.to_vec() }
}

fn dir(path: &[u8], entries: Vec<TreeEntry>) -> TreeEntry {
    TreeEntry::Dir { path: path.to_vec(), entries }
}

fn leaf(modified: &[u8]) -> MetadataNode {
    MetadataNode::File { modified: modified.to_vec() }
}

fn child(path: &[u8], node: MetadataNode) -> MetadataEntry {
    MetadataEntry { path: path.to_vec(), node }
}

fn folder(children: Vec<MetadataEntry>) -> MetadataNode {
    MetadataNode::Dir { children }
}

fn small_tree(a_content: &[u8], a_time: &[u8]) -> Vec<TreeEntry> {
    vec![file(b"a.txt", a_content, a_time), dir(b"b", vec![file(b"b/c.txt", b"yo", b"t2")])]
}

fn lines_of(log: &[u8]) -> usize {
    log.split(|b| *b == b'\n').count()
}

#[test]
fn scan_captures_files_in_listing_order() {
    let r = scan(&small_tree(b"hi", b"t1"), b"");
    assert_eq!(r.payload, b"a.txt:aGk=:b/c.txt:eW8=:".to_vec());
    assert_eq!(
        r.metadata,
        folder(vec![
            child(b"a.txt", leaf(b"t1")),
            child(b"b", folder(vec![child(b"b/c.txt", leaf(b"t2"))])),
        ])
    );
}

#[test]
fn scan_of_an_empty_listing_is_empty() {
    let r = scan(&Vec::new(), b".rvscw ");
    assert_eq!(r.payload, Vec::<u8>::new());
    assert_eq!(r.metadata, folder(Vec::new()));
}

#[test]
fn scan_leaves_out_what_the_specification_holds() {
    let tree = vec![
        file(b"a.txt", b"hi", b"t1"),
        dir(b".rvscw", vec![file(b".rvscw/cont", b"old", b"t0")]),
        dir(b"target", vec![file(b"keep.txt", b"x", b"t3")]),
        file(b"tar", b"zz", b"t4"),
    ];
    let r = scan(&tree, b".rvscw target");
    assert_eq!(r.payload, b"a.txt:aGk=:".to_vec());
    assert_eq!(r.metadata, folder(vec![child(b"a.txt", leaf(b"t1"))]));
}

#[test]
fn scan_checks_each_entry_by_its_own_path() {
    let tree = vec![dir(b"src", vec![file(b"target", b"x", b"t1"), file(b"src/m.rs", b"y", b"t2")])];
    let r = scan(&tree, b".rvscw target");
    assert_eq!(r.payload, b"src/m.rs:eQ==:".to_vec());
    assert_eq!(
        r.metadata,
        folder(vec![child(b"src", folder(vec![child(b"src/m.rs", leaf(b"t2"))]))])
    );
}

#[test]
fn scan_keeps_the_later_of_two_entries_with_one_path_in_the_metadata() {
    let tree = vec![file(b"a", b"1", b"t1"), file(b"b", b"2", b"t2"), file(b"a", b"3", b"t3")];
    let r = scan(&tree, b"");
    assert_eq!(r.payload, b"a:MQ==:b:Mg==:a:Mw==:".to_vec());
    assert_eq!(r.metadata, folder(vec![child(b"a", leaf(b"t3")), child(b"b", leaf(b"t2"))]));
}

#[test]
fn scan_metadata_is_the_metadata_of_scan() {
    let tree = small_tree(b"hi", b"t1");
    assert_eq!(scan_metadata(&tree, b".rvscw "), scan(&tree, b".rvscw ").metadata);
}

#[test]
fn compare_of_a_tree_with_itself_is_empty() {
    let tree = scan_metadata(&small_tree(b"hi", b"t1"), b"");
    let same = scan_metadata(&small_tree(b"hi", b"t1"), b"");
    assert_eq!(compare(&tree, &same), Vec::<Vec<u8>>::new());
    assert_eq!(compare(&tree, &tree), Vec::<Vec<u8>>::new());
}

#[test]
fn compare_reports_a_changed_time() {
    let before = scan_metadata(&small_tree(b"hi", b"t1"), b"");
    let after = scan_metadata(&small_tree(b"hi", b"t9"), b"");
    assert_eq!(compare(&before, &after), vec![b"a.txt".to_vec()]);
}

#[test]
fn compare_goes_into_directories() {
    let before = folder(vec![child(b"b", folder(vec![child(b"b/c", leaf(b"1")), child(b"b/d", leaf(b"1"))]))]);
    let after = folder(vec![child(b"b", folder(vec![child(b"b/d", leaf(b"2")), child(b"b/c", leaf(b"1"))]))]);
    assert_eq!(compare(&before, &after), vec![b"b/d".to_vec()]);
}

#[test]
fn compare_reports_removed_then_added_paths() {
    let before = folder(vec![child(b"gone", leaf(b"1")), child(b"kept", leaf(b"1"))]);
    let after = folder(vec![child(b"new", leaf(b"1")), child(b"kept", leaf(b"1")), child(b"z", folder(vec![]))]);
    assert_eq!(compare(&before, &after), vec![b"gone".to_vec(), b"new".to_vec()]);
}

#[test]
fn compare_reports_the_files_below_a_directory_that_one_side_lacks() {
    let tree = folder(vec![child(b"d", folder(vec![child(b"d/x", leaf(b"1")), child(b"d/y", leaf(b"2"))]))]);
    let nothing = folder(vec![]);
    assert_eq!(compare(&tree, &nothing), vec![b"d/x".to_vec(), b"d/y".to_vec()]);
    assert_eq!(compare(&nothing, &tree), vec![b"d/x".to_vec(), b"d/y".to_vec()]);
}

#[test]
fn compare_reports_files_at_every_depth_below_a_new_directory() {
    let before = folder(vec![child(b"a", leaf(b"1"))]);
    let after = folder(vec![
        child(b"a", leaf(b"1")),
        child(
            b"d",
            folder(vec![
                child(b"d/e", folder(vec![child(b"d/e/f", leaf(b"1")), child(b"d/e/g", folder(vec![]))])),
                child(b"d/h", leaf(b"1")),
            ]),
        ),
    ]);
    assert_eq!(compare(&before, &after), vec![b"d/e/f".to_vec(), b"d/h".to_vec()]);
    assert_eq!(compare(&after, &before), vec![b"d/e/f".to_vec(), b"d/h".to_vec()]);
}

#[test]
fn compare_reports_nothing_for_an_empty_directory_on_one_side() {
    let with = folder(vec![child(b"e", folder(vec![]))]);
    let without = folder(vec![]);
    assert_eq!(compare(&with, &without), Vec::<Vec<u8>>::new());
    assert_eq!(compare(&without, &with), Vec::<Vec<u8>>::new());
}

#[test]
fn compare_reports_a_file_that_became_a_directory() {
    let before = folder(vec![child(b"x", leaf(b"1")), child(b"y", folder(vec![]))]);
    let after = folder(vec![child(b"x", folder(vec![])), child(b"y", leaf(b"1"))]);
    assert_eq!(compare(&before, &after), vec![b"x".to_vec(), b"y".to_vec()]);
}

#[test]
fn compare_reports_a_file_and_the_files_of_the_directory_against_it() {
    let file = folder(vec![child(b"x", leaf(b"1"))]);
    let dir = folder(vec![child(b"x", folder(vec![child(b"x/a", leaf(b"1")), child(b"x/b", leaf(b"1"))]))]);
    assert_eq!(compare(&file, &dir), vec![b"x".to_vec(), b"x/a".to_vec(), b"x/b".to_vec()]);
    assert_eq!(compare(&dir, &file), vec![b"x/a".to_vec(), b"x/b".to_vec(), b"x".to_vec()]);
}

#[test]
fn compare_of_a_root_file_reports_nothing() {
    assert_eq!(compare(&leaf(b"1"), &leaf(b"2")), Vec::<Vec<u8>>::new());
    assert_eq!(compare(&leaf(b"1"), &folder(vec![child(b"a", leaf(b"1"))])), Vec::<Vec<u8>>::new());
}

#[test]
fn put_entry_replaces_in_place_or_adds_at_the_end() {
    let mut children = vec![child(b"a", leaf(b"1")), child(b"b", leaf(b"2"))];
    put_entry(&mut children, b"a".to_vec(), leaf(b"3"));
    assert_eq!(children, vec![child(b"a", leaf(b"3")), child(b"b", leaf(b"2"))]);
    put_entry(&mut children, b"c".to_vec(), leaf(b"4"));
    assert_eq!(children.len(), 3);
    assert_eq!(children[2], child(b"c", leaf(b"4")));
    assert_eq!(find_entry(&children, b"b"), Some(1));
    assert_eq!(find_entry(&children, b"zz"), None);
}

#[test]
fn fresh_id_is_hyphenated_lower_case_hex() {
    let id = fresh_id();
    assert_eq!(id.len(), 36);
    for (i, b) in id.iter().enumerate() {
        if i == 8 || i == 13 || i == 18 || i == 23 {
            assert_eq!(*b, b'-');
        } else {
            assert!(b.is_ascii_digit() || (b'a'..=b'f').contains(b));
        }
    }
    assert_ne!(fresh_id(), id);
}

#[test]
fn history_entry_has_id_and_title() {
    assert_eq!(history_entry(b"x1", b"init"), b"ID:x1 Title:init".to_vec());
}

#[test]
fn init_then_commit_then_status_against_the_first_snapshot() {
    let first = small_tree(b"hi", b"t1");
    let mut repo = init_with(b"id-0", &first, b"");
    assert_eq!(repo.log, b"id-0:::init::a.txt:aGk=:b/c.txt:eW8=:".to_vec());
    assert_eq!(lines_of(&repo.log), 1);
    assert_eq!(repo.metadata.len(), 1);
    assert_eq!(repo.metadata[0].path, b"id-0".to_vec());
    assert_eq!(
        repo.metadata[0].node,
        folder(vec![
            child(b"a.txt", leaf(b"t1")),
            child(b"b", folder(vec![child(b"b/c.txt", leaf(b"t2"))])),
        ])
    );
    assert_eq!(repo.last, b"id-0".to_vec());
    assert_eq!(repo.history, b"ID:id-0 Title:init".to_vec());

    let second = small_tree(b"hey", b"t5");
    commit_with(&mut repo, b"id-1", b"v2", &second, b"");
    assert_eq!(
        repo.log,
        b"id-0:::init::a.txt:aGk=:b/c.txt:eW8=:\nid-1:::v2::a.txt:aGV5:b/c.txt:eW8=:".to_vec()
    );
    assert_eq!(repo.metadata.len(), 2);
    assert_eq!(repo.last, b"id-1".to_vec());
    assert_eq!(repo.history, b"ID:id-0 Title:init\nID:id-1 Title:v2".to_vec());
    assert_eq!(status(&repo, &second, b""), Ok(Vec::new()));

    let files = restore(&mut repo, b"id-0").unwrap();
    assert_eq!(repo.last, b"id-0".to_vec());
    assert_eq!(
        files,
        vec![
            FileEntry { path: b"a.txt".to_vec(), data: b"hi".to_vec() },
            FileEntry { path: b"b/c.txt".to_vec(), data: b"yo".to_vec() },
        ]
    );
    assert_eq!(status(&repo, &second, b""), Ok(vec![b"a.txt".to_vec()]));
}

#[test]
fn every_commit_adds_one_record_and_one_entry() {
    let tree = small_tree(b"hi", b"t1");
    let mut repo = init(&tree, b".rvscw ");
    let mut ids = vec![repo.last.clone()];
    for n in 1..=4usize {
        commit(&mut repo, b"next", &tree, b".rvscw ");
        assert_eq!(lines_of(&repo.log), n + 1);
        assert_eq!(repo.metadata.len(), n + 1);
        assert!(!ids.contains(&repo.last));
        ids.push(repo.last.clone());
    }
    for (i, id) in ids.iter().enumerate() {
        assert_eq!(&repo.metadata[i].path, id);
    }
}

#[test]
fn commit_under_a_known_id_replaces_its_metadata() {
    let mut repo = init_with(b"same", &small_tree(b"hi", b"t1"), b"");
    commit_with(&mut repo, b"same", b"again", &small_tree(b"hey", b"t9"), b"");
    assert_eq!(repo.metadata.len(), 1);
    assert_eq!(lines_of(&repo.log), 2);
    assert_eq!(status(&repo, &small_tree(b"hey", b"t9"), b""), Ok(Vec::new()));
}

#[test]
fn restore_gives_every_captured_file_with_its_bytes() {
    let tree = vec![
        file(b"bin", &[0, 255, 58, 10, 13], b"t1"),
        file(b"empty", b"", b"t2"),
        dir(b"d", vec![file(b"d/x", b"x", b"t3")]),
        dir(b"skip", vec![file(b"skip/y", b"y", b"t4")]),
    ];
    let mut repo = init(&tree, b".rvscw skip");
    let id = repo.last.clone();
    commit(&mut repo, b"later", &small_tree(b"hi", b"t1"), b".rvscw skip");
    let files = restore(&mut repo, &id).unwrap();
    assert_eq!(
        files,
        vec![
            FileEntry { path: b"bin".to_vec(), data: vec![0, 255, 58, 10, 13] },
            FileEntry { path: b"empty".to_vec(), data: Vec::new() },
            FileEntry { path: b"d/x".to_vec(), data: b"x".to_vec() },
        ]
    );
}

#[test]
fn restore_of_an_unknown_id_fails_and_moves_the_pointer() {
    let mut repo = init_with(b"id-0", &small_tree(b"hi", b"t1"), b"");
    assert_eq!(restore(&mut repo, b"id-"), Err(Error::RecordNotFound));
    assert_eq!(repo.last, b"id-".to_vec());
    assert_eq!(status(&repo, &small_tree(b"hi", b"t1"), b""), Err(Error::RecordNotFound));
}

#[test]
fn restore_of_a_broken_record_fails() {
    let mut repo = init_with(b"id-0", &small_tree(b"hi", b"t1"), b"");
    repo.log = b"id-0:::init::a.txt:a:b".to_vec();
    assert_eq!(restore(&mut repo, b"id-0"), Err(Error::MalformedStore));
}

#[test]
fn get_metadata_finds_the_tree_of_an_id() {
    let repo = init_with(b"id-0", &small_tree(b"hi", b"t1"), b"");
    assert_eq!(get_metadata(&repo.metadata, b"id-0"), Ok(&repo.metadata[0].node));
    assert_eq!(get_metadata(&repo.metadata, b"id"), Err(Error::RecordNotFound));
}

#[test]
fn a_newline_in_the_title_adds_two_lines() {
    let mut repo = init_with(b"id-0", &Vec::new(), b"");
    commit_with(&mut repo, b"id-1", b"a\nb", &Vec::new(), b"");
    assert_eq!(lines_of(&repo.log), 3);
}

fn text(t: &[u8]) -> DocValue {
    DocValue::Text { text: t.to_vec() }
}

fn object(members: Vec<(&[u8], DocValue)>) -> DocValue {
    DocValue::Object {
        members: members.into_iter().map(|(k, v)| DocMember { key: k.to_vec(), value: v }).collect(),
    }
}

#[test]
fn node_to_document_writes_times_under_mdftime() {
    let tree = folder(vec![child(b"a.txt", leaf(b"t1")), child(b"b", folder(vec![child(b"b/c.txt", leaf(b"t2"))]))]);
    let doc = node_to_document(&tree);
    assert_eq!(
        doc,
        object(vec![
            (b"a.txt", object(vec![(b"mdftime", text(b"t1"))])),
            (b"b", object(vec![(b"b/c.txt", object(vec![(b"mdftime", text(b"t2"))]))])),
        ])
    );
    assert_eq!(node_from_document(&doc), Ok(tree));
}

#[test]
fn node_from_document_tells_a_file_from_a_directory() {
    assert_eq!(node_from_document(&object(vec![(b"mdftime", text(b"t"))])), Ok(leaf(b"t")));
    assert_eq!(node_from_document(&object(vec![])), Ok(folder(vec![])));
    let inner = object(vec![(b"mdftime", object(vec![(b"mdftime", text(b"t"))]))]);
    assert_eq!(node_from_document(&inner), Ok(folder(vec![child(b"mdftime", leaf(b"t"))])));
}

#[test]
fn node_from_document_rejects_other_values() {
    assert_eq!(node_from_document(&text(b"t")), Err(Error::MalformedStore));
    assert_eq!(node_from_document(&DocValue::Other), Err(Error::MalformedStore));
    assert_eq!(node_from_document(&object(vec![(b"a", text(b"t"))])), Err(Error::MalformedStore));
    let two = object(vec![(b"mdftime", text(b"t")), (b"x", object(vec![]))]);
    assert_eq!(node_from_document(&two), Err(Error::MalformedStore));
    let deep = object(vec![(b"ok", object(vec![])), (b"bad", object(vec![(b"x", DocValue::Other)]))]);
    assert_eq!(node_from_document(&deep), Err(Error::MalformedStore));
}

#[test]
fn metadata_document_round_trip() {
    let mut repo = init_with(b"id-0", &small_tree(b"hi", b"t1"), b"");
    commit_with(&mut repo, b"id-1", b"v2", &small_tree(b"hey", b"t5"), b"");
    let doc = metadata_to_document(&repo.metadata);
    assert_eq!(metadata_from_document(&doc), Ok(repo.metadata));
    assert_eq!(metadata_from_document(&text(b"x")), Err(Error::MalformedStore));
}

#[test]
fn metadata_from_document_keeps_the_later_of_two_members_with_one_key() {
    let doc = object(vec![
        (b"id", object(vec![(b"a", object(vec![(b"mdftime", text(b"1"))]))])),
        (b"id", object(vec![])),
    ]);
    assert_eq!(metadata_from_document(&doc), Ok(vec![child(b"id", folder(vec![]))]));
}

#[test]
fn ignore_document_round_trip() {
    let doc = ignore_to_document(b".rvscw target");
    assert_eq!(doc, object(vec![(b"ignore", text(b".rvscw target"))]));
    assert_eq!(ignore_from_document(&doc), Ok(b".rvscw target".to_vec()));
}

#[test]
fn ignore_from_document_rejects_a_document_without_the_text() {
    assert_eq!(ignore_from_document(&object(vec![])), Err(Error::MalformedStore));
    assert_eq!(ignore_from_document(&object(vec![(b"ignore", DocValue::Other)])), Err(Error::MalformedStore));
    assert_eq!(ignore_from_document(&object(vec![(b"ignore", object(vec![]))])), Err(Error::MalformedStore));
    assert_eq!(ignore_from_document(&text(b"x")), Err(Error::MalformedStore));
    let later = object(vec![(b"other", text(b"x")), (b"ignore", text(b"y"))]);
    assert_eq!(ignore_from_document(&later), Ok(b"y".to_vec()));
}

#[test]
fn report_files_lists_the_files_below_in_order() {
    let children = vec![
        child(b"a", leaf(b"1")),
        child(b"d", folder(vec![child(b"d/x", leaf(b"1")), child(b"d/e", folder(vec![]))])),
        child(b"z", leaf(b"1")),
    ];
    let mut out = vec![b"first".to_vec()];
    report_files(&children, &mut out);
    assert_eq!(out, vec![b"first".to_vec(), b"a".to_vec(), b"d/x".to_vec(), b"z".to_vec()]);
    let mut out = Vec::new();
    report_below(&b"p".to_vec(), &leaf(b"1"), &mut out);
    report_below(&b"q".to_vec(), &folder(children), &mut out);
    assert_eq!(out, vec![b"p".to_vec(), b"a".to_vec(), b"d/x".to_vec(), b"z".to_vec()]);
}

#[test]
fn status_reports_the_files_of_a_new_directory() {
    let repo = init_with(b"id-0", &vec![file(b"a.txt", b"hi", b"t1")], b"");
    let now = vec![
        file(b"a.txt", b"hi", b"t1"),
        dir(b"n", vec![file(b"n/one", b"1", b"t2"), dir(b"n/m", vec![file(b"n/m/two", b"2", b"t3")])]),
    ];
    assert_eq!(status(&repo, &now, b""), Ok(vec![b"n/one".to_vec(), b"n/m/two".to_vec()]));
}

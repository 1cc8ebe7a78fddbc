use fswalk::node::FSNode;
use fswalk::tree::{EntryKind, ListEntry, Listing, TreeWalker};

fn file_entry(name: &str) -> ListEntry {
    ListEntry::Readable { name: name.to_string(), kind: EntryKind::Regular }
}

fn dir_entry(name: &str) -> ListEntry {
    ListEntry::Readable { name: name.to_string(), kind: EntryKind::Directory }
}

#[test]
fn flat_directory_of_files() {
    let mut w = TreeWalker::new("root".to_string());
    assert_eq!(w.next_request().unwrap(), "root");
    w.feed(Listing::Entries(vec![file_entry("a.txt"), file_entry("b"), file_entry("c.rs")]));
    assert!(w.next_request().is_none());
    let node = w.take_result().unwrap();
    match node {
        FSNode::Dir { key, children } => {
            assert_eq!(key, "root");
            let mut names: Vec<String> = Vec::new();
            for c in children {
                match c {
                    FSNode::File(n) => names.push(n),
                    FSNode::Dir { .. } => panic!("no subdirectory was listed"),
                }
            }
            names.sort();
            assert_eq!(names, vec!["a.txt".to_string(), "b".to_string(), "c.rs".to_string()]);
        }
        FSNode::File(_) => panic!("a listable root must give a Dir node"),
    }
}

#[test]
fn unlistable_root_becomes_file_node() {
    let mut w = TreeWalker::new("/no/such/dir".to_string());
    w.feed(Listing::Failed("Os { code: 2, kind: NotFound }".to_string()));
    assert!(w.next_request().is_none());
    let node = w.take_result().unwrap();
    match node {
        FSNode::File(text) => {
            assert!(text.contains("/no/such/dir"));
            assert_eq!(text, "path: /no/such/dir, error, Os { code: 2, kind: NotFound }");
        }
        FSNode::Dir { .. } => panic!("an unlistable root must give a File node"),
    }
}

#[test]
fn nested_directory_keys() {
    let mut w = TreeWalker::new("root".to_string());
    w.feed(Listing::Entries(vec![file_entry("a"), dir_entry("sub")]));
    assert_eq!(w.next_request().unwrap(), "root/sub");
    w.feed(Listing::Entries(vec![file_entry("b")]));
    assert!(w.next_request().is_none());
    let node = w.take_result().unwrap();
    match node {
        FSNode::Dir { key, children } => {
            assert_eq!(key, "root");
            assert_eq!(children.len(), 2);
            match &children[0] {
                FSNode::File(n) => assert_eq!(n, "a"),
                _ => panic!("first child is the file"),
            }
            match &children[1] {
                FSNode::Dir { key, children } => {
                    assert_eq!(key, "root/sub");
                    assert_eq!(children.len(), 1);
                    match &children[0] {
                        FSNode::File(n) => assert_eq!(n, "b"),
                        _ => panic!("the subdirectory holds one file"),
                    }
                }
                _ => panic!("second child is the subdirectory"),
            }
        }
        FSNode::File(_) => panic!("a listable root must give a Dir node"),
    }
}

#[test]
fn deeper_nesting_and_failed_subdirectory() {
    let mut w = TreeWalker::new("r".to_string());
    w.feed(Listing::Entries(vec![dir_entry("x")]));
    assert_eq!(w.next_request().unwrap(), "r/x");
    w.feed(Listing::Entries(vec![dir_entry("y")]));
    assert_eq!(w.next_request().unwrap(), "r/x/y");
    w.feed(Listing::Failed("denied".to_string()));
    assert!(w.next_request().is_none());
    let node = w.take_result().unwrap();
    match node {
        FSNode::Dir { key, children } => {
            assert_eq!(key, "r");
            match &children[0] {
                FSNode::Dir { key, children } => {
                    assert_eq!(key, "r/x");
                    match &children[0] {
                        FSNode::File(t) => assert_eq!(t, "path: r/x/y, error, denied"),
                        _ => panic!("the unlistable subdirectory is an inline error leaf"),
                    }
                }
                _ => panic!("first child is a nested Dir"),
            }
        }
        _ => panic!("a listable root must give a Dir node"),
    }
}

#[test]
fn other_and_unreadable_entries_become_marker_leaves() {
    let mut w = TreeWalker::new("root".to_string());
    w.feed(Listing::Entries(vec![
        ListEntry::Readable { name: "link".to_string(), kind: EntryKind::Other },
        ListEntry::Unreadable { detail: "Os { code: 5 }".to_string() },
    ]));
    let node = w.take_result().unwrap();
    match node {
        FSNode::Dir { children, .. } => {
            match &children[0] {
                FSNode::File(t) => assert_eq!(t, "this may be a symlink"),
                _ => panic!("an Other entry is a marker leaf"),
            }
            match &children[1] {
                FSNode::File(t) => assert_eq!(t, "error, Os { code: 5 }"),
                _ => panic!("an unreadable entry is an error leaf"),
            }
        }
        _ => panic!("a listable root must give a Dir node"),
    }
}

#[test]
fn empty_directory_gives_empty_dir_node() {
    let mut w = TreeWalker::new("empty".to_string());
    w.feed(Listing::Entries(Vec::new()));
    let node = w.take_result().unwrap();
    match node {
        FSNode::Dir { key, children } => {
            assert_eq!(key, "empty");
            assert!(children.is_empty());
        }
        _ => panic!("a listable root must give a Dir node"),
    }
}

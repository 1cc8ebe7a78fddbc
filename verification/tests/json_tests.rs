use fswalk::json::{metas_to_json, node_to_json};
use fswalk::tree::{EntryKind, ListEntry, Listing, TreeWalker};
use fswalk::meta::{FSMeta, RawEntry, Timestamp};
use fswalk::node::FSNode;

fn decode(s: &str) -> serde_json::Value {
    serde_json::from_str(s).expect("the encoder must emit valid JSON")
}

#[test]
fn file_node_is_a_bare_string() {
    let n = FSNode::File("hello.txt".to_string());
    let j = node_to_json(&n);
    assert_eq!(j, "\"hello.txt\"");
    assert_eq!(decode(&j), serde_json::Value::String("hello.txt".to_string()));
}

#[test]
fn dir_node_is_a_single_key_object() {
    let n = FSNode::Dir {
        key: "root".to_string(),
        children: vec![
            FSNode::File("a".to_string()),
            FSNode::Dir { key: "root/sub".to_string(), children: vec![] },
        ],
    };
    let j = node_to_json(&n);
    assert_eq!(j, "{\"root\":[\"a\",{\"root/sub\":[]}]}");
    let v = decode(&j);
    let obj = v.as_object().expect("a Dir node decodes to an object");
    assert_eq!(obj.len(), 1);
    let children = obj.get("root").unwrap().as_array().unwrap();
    assert_eq!(children.len(), 2);
    assert_eq!(children[0], serde_json::Value::String("a".to_string()));
    let sub = children[1].as_object().unwrap();
    assert_eq!(sub.len(), 1);
    assert!(sub.get("root/sub").unwrap().as_array().unwrap().is_empty());
}

#[test]
fn tree_round_trips_through_a_decoder() {
    // Names that need escaping: a quote, a backslash, a newline.
    let tricky = "a\"b\\c\nd".to_string();
    let n = FSNode::Dir {
        key: "r".to_string(),
        children: vec![
            FSNode::File(tricky.clone()),
            FSNode::Dir {
                key: "r/s".to_string(),
                children: vec![FSNode::File("plain".to_string())],
            },
        ],
    };
    let v = decode(&node_to_json(&n));
    let obj = v.as_object().unwrap();
    let children = obj.get("r").unwrap().as_array().unwrap();
    assert_eq!(children[0].as_str().unwrap(), tricky);
    let sub = children[1].as_object().unwrap();
    let sub_children = sub.get("r/s").unwrap().as_array().unwrap();
    assert_eq!(sub_children[0].as_str().unwrap(), "plain");
}

fn sample_meta(name: &str, len: u64, read_only: bool) -> FSMeta {
    let e = RawEntry {
        name: name.to_string(),
        len,
        created: Some(Timestamp { secs: 1431648000, nanos: 0 }),
        modified: Some(Timestamp { secs: 1431648000, nanos: 0 }),
        accessed: Some(Timestamp { secs: 1431648000, nanos: 0 }),
        read_only,
    };
    FSMeta::from_raw(&e).unwrap()
}

#[test]
fn meta_mapping_round_trips_through_a_decoder() {
    let v = vec![sample_meta("a.txt", 2048, false), sample_meta("b", 10, true)];
    let j = metas_to_json(&v);
    let val = decode(&j);
    let obj = val.as_object().unwrap();
    assert_eq!(obj.len(), 2);
    let a = obj.get("a.txt").unwrap().as_object().unwrap();
    assert_eq!(a.get("name").unwrap().as_str().unwrap(), "a.txt");
    assert_eq!(a.get("extension").unwrap().as_str().unwrap(), "txt");
    assert_eq!(a.get("size").unwrap().as_u64().unwrap(), 2);
    assert_eq!(a.get("read_only").unwrap().as_bool().unwrap(), false);
    assert_eq!(a.get("created").unwrap().as_str().unwrap(), "2015-05-15 00:00:00 UTC");
    let b = obj.get("b").unwrap().as_object().unwrap();
    assert_eq!(b.get("size").unwrap().as_u64().unwrap(), 0);
    assert_eq!(b.get("extension").unwrap().as_str().unwrap(), "");
    assert_eq!(b.get("read_only").unwrap().as_bool().unwrap(), true);
}

#[test]
fn large_sizes_are_encoded_in_full() {
    let mut m = sample_meta("big", 0, false);
    m.size = u64::MAX;
    let j = metas_to_json(&vec![m]);
    let val = decode(&j);
    let big = val.as_object().unwrap().get("big").unwrap().as_object().unwrap();
    assert_eq!(big.get("size").unwrap().as_u64().unwrap(), u64::MAX);
}

#[test]
fn empty_meta_mapping_is_an_empty_object() {
    let j = metas_to_json(&Vec::new());
    assert_eq!(j, "{}");
}

#[test]
fn walked_tree_encodes_and_decodes() {
    let mut w = TreeWalker::new("top".to_string());
    w.feed(Listing::Entries(vec![
        ListEntry::Readable { name: "f1".to_string(), kind: EntryKind::Regular },
        ListEntry::Readable { name: "inner".to_string(), kind: EntryKind::Directory },
    ]));
    w.feed(Listing::Entries(vec![ListEntry::Readable {
        name: "f2".to_string(),
        kind: EntryKind::Regular,
    }]));
    let node = w.take_result().unwrap();
    let v = decode(&node_to_json(&node));
    let top = v.as_object().unwrap();
    assert_eq!(top.len(), 1);
    let children = top.get("top").unwrap().as_array().unwrap();
    assert_eq!(children[0].as_str().unwrap(), "f1");
    let inner = children[1].as_object().unwrap();
    let inner_children = inner.get("top/inner").unwrap().as_array().unwrap();
    assert_eq!(inner_children[0].as_str().unwrap(), "f2");
}

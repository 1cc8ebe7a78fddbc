use fswalk::meta::{extension_of, inspect_listing, FSMeta, InspectError, RawEntry, Timestamp};

fn ts(secs: i64) -> Option<Timestamp> {
    Some(Timestamp { secs, nanos: 0 })
}

fn raw(name: &str, len: u64) -> RawEntry {
    RawEntry {
        name: name.to_string(),
        len,
        created: ts(1431648000),
        modified: ts(1431648000),
        accessed: ts(1431648000),
        read_only: false,
    }
}

#[test]
fn extension_after_last_dot() {
    assert_eq!(extension_of("foo.txt"), "txt");
    assert_eq!(extension_of("archive.tar.gz"), "gz");
    assert_eq!(extension_of("noext"), "");
    assert_eq!(extension_of(".bashrc"), "");
    assert_eq!(extension_of("trailing."), "");
    assert_eq!(extension_of("..twice"), "twice");
    assert_eq!(extension_of(""), "");
}

#[test]
fn size_is_whole_kilobytes() {
    assert_eq!(FSMeta::size_kb(0), 0);
    assert_eq!(FSMeta::size_kb(1023), 0);
    assert_eq!(FSMeta::size_kb(1024), 1);
    assert_eq!(FSMeta::size_kb(2047), 1);
    assert_eq!(FSMeta::size_kb(3 * 1024 + 512), 3);
}

#[test]
fn record_fields_from_raw_entry() {
    let e = raw("report.pdf", 4096 + 100);
    let m = FSMeta::from_raw(&e).unwrap();
    assert_eq!(m.name, "report.pdf");
    assert_eq!(m.extension, "pdf");
    assert_eq!(m.size, 4);
    assert!(!m.read_only);
    // 1431648000 is 2015-05-15 00:00:00 UTC
    assert_eq!(m.created, "2015-05-15 00:00:00 UTC");
    assert_eq!(m.modified, "2015-05-15 00:00:00 UTC");
    assert_eq!(m.accessed, "2015-05-15 00:00:00 UTC");
}

#[test]
fn subsecond_timestamps_are_rendered() {
    let mut e = raw("a", 0);
    e.modified = Some(Timestamp { secs: 0, nanos: 500_000_000 });
    let m = FSMeta::from_raw(&e).unwrap();
    assert_eq!(m.modified, "1970-01-01 00:00:00.500 UTC");
}

#[test]
fn missing_timestamp_is_fatal() {
    let mut e = raw("a", 0);
    e.created = None;
    let r = FSMeta::from_raw(&e);
    assert!(matches!(r, Err(InspectError::TimestampUnavailable)));
}

#[test]
fn out_of_range_timestamp_is_fatal() {
    let mut e = raw("a", 0);
    e.accessed = Some(Timestamp { secs: i64::MAX, nanos: 0 });
    let r = FSMeta::from_raw(&e);
    assert!(matches!(r, Err(InspectError::TimestampOutOfRange)));
}

#[test]
fn unlistable_directory_is_a_server_error() {
    let r = inspect_listing(None);
    assert!(matches!(r, Err(InspectError::Unlistable)));
}

#[test]
fn unreadable_entries_are_skipped_silently() {
    let r = inspect_listing(Some(vec![Some(raw("a.txt", 1024)), None, Some(raw("b", 0))]));
    let v = r.unwrap();
    assert_eq!(v.len(), 2);
    assert_eq!(v[0].name, "a.txt");
    assert_eq!(v[0].size, 1);
    assert_eq!(v[1].name, "b");
}

#[test]
fn one_bad_entry_fails_the_whole_request() {
    let mut bad = raw("bad", 0);
    bad.modified = None;
    let r = inspect_listing(Some(vec![Some(raw("good", 0)), Some(bad)]));
    assert!(matches!(r, Err(InspectError::TimestampUnavailable)));
}

#[test]
fn read_only_flag_is_kept() {
    let mut e = raw("locked", 10);
    e.read_only = true;
    let m = FSMeta::from_raw(&e).unwrap();
    assert!(m.read_only);
}

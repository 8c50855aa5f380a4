use refstore::error::RefError;
use refstore::format::{loose_content, packed_content, parse_loose, parse_packed};
use refstore::store::{PackedRef, Target};

const ID: &str = "134385f6d781b7e97062102c6a483440bfda2a03";
const TAG: &str = "22222222222222222262102c6a483440bfda2a03";

fn b(s: &str) -> Vec<u8> {
    s.as_bytes().to_vec()
}

#[test]
fn loose_files_read_back() {
    let peeled = loose_content(&Target::Peeled(b(ID)));
    assert_eq!(peeled, format!("{}\n", ID).into_bytes());
    assert!(matches!(parse_loose(&peeled), Some(Target::Peeled(id)) if id == b(ID)));

    let sym = loose_content(&Target::Symbolic(b("refs/heads/main")));
    assert_eq!(sym, b("ref: refs/heads/main\n"));
    assert!(matches!(parse_loose(&sym), Some(Target::Symbolic(n)) if n == b("refs/heads/main")));
}

#[test]
fn malformed_loose_files() {
    assert!(parse_loose(b"").is_none());
    assert!(parse_loose(ID.as_bytes()).is_none());
    assert!(parse_loose(b"1343\n").is_none());
    assert!(parse_loose(format!("{}\n", ID.to_uppercase()).as_bytes()).is_none());
    assert!(parse_loose(b"ref: refs//x\n").is_none());
    let long = format!("{}\n", "a".repeat(64));
    assert!(matches!(parse_loose(long.as_bytes()), Some(Target::Peeled(_))));
}

#[test]
fn packed_file_round_trip() {
    let table = vec![
        PackedRef { name: b("refs/heads/main"), id: b(ID), peeled: None },
        PackedRef { name: b("refs/tags/v1"), id: b(TAG), peeled: Some(b(ID)) },
    ];
    let text = packed_content(&table);
    let expected = format!(
        "# pack-refs with: peeled fully-peeled sorted \n{} refs/heads/main\n{} refs/tags/v1\n^{}\n",
        ID, TAG, ID
    );
    assert_eq!(text, expected.into_bytes());
    let back = parse_packed(&text).unwrap();
    assert_eq!(back.len(), 2);
    assert_eq!(back[0].name, b("refs/heads/main"));
    assert_eq!(back[0].peeled, None);
    assert_eq!(back[1].id, b(TAG));
    assert_eq!(back[1].peeled, Some(b(ID)));
}

#[test]
fn packed_file_without_header() {
    let text = format!("{} refs/heads/a\n", ID);
    let back = parse_packed(text.as_bytes()).unwrap();
    assert_eq!(back.len(), 1);
    assert_eq!(back[0].name, b("refs/heads/a"));
    assert!(parse_packed(b"").unwrap().is_empty());
}

#[test]
fn corrupt_packed_files() {
    assert_eq!(parse_packed(format!("{} refs/heads/a", ID).as_bytes()).err(), Some(RefError::PackedRefsCorrupt));
    assert_eq!(parse_packed(format!("^{}\n", ID).as_bytes()).err(), Some(RefError::PackedRefsCorrupt));
    assert_eq!(parse_packed(b"xyz refs/heads/a\n").err(), Some(RefError::PackedRefsCorrupt));
    assert_eq!(parse_packed(format!("{} refs/heads/a\n^zz\n", ID).as_bytes()).err(), Some(RefError::PackedRefsCorrupt));
    assert_eq!(parse_packed(b"# header only").err(), Some(RefError::PackedRefsCorrupt));
}

use refstore::format::{parse_reflog_line, reflog_line};
use refstore::store::ReflogEntry;

#[test]
fn reflog_line_round_trip() {
    let e = ReflogEntry {
        old_oid: b("0000000000000000000000000000000000000000"),
        new_oid: b(ID),
        committer: b("A U Thor <author@example.com>"),
        time: 1234567890,
        tz: b("+0200"),
        message: b("commit: first one"),
    };
    let line = reflog_line(&e);
    let expected = format!(
        "0000000000000000000000000000000000000000 {} A U Thor <author@example.com> 1234567890 +0200\tcommit: first one\n",
        ID
    );
    assert_eq!(line, expected.into_bytes());
    let back = parse_reflog_line(&line).unwrap();
    assert_eq!(back.old_oid, e.old_oid);
    assert_eq!(back.new_oid, e.new_oid);
    assert_eq!(back.committer, e.committer);
    assert_eq!(back.time, 1234567890);
    assert_eq!(back.tz, b("+0200"));
    assert_eq!(back.message, e.message);
}

#[test]
fn reflog_time_zero_and_max() {
    for t in [0u64, 7, 10, u64::MAX] {
        let e = ReflogEntry { old_oid: b(ID), new_oid: b(TAG), committer: b("x <y>"), time: t, tz: b("-0100"), message: b("") };
        let line = reflog_line(&e);
        assert!(String::from_utf8(line.clone()).unwrap().contains(&format!(" {} -0100\t", t)));
        assert_eq!(parse_reflog_line(&line).unwrap().time, t);
    }
}

#[test]
fn corrupt_reflog_lines() {
    let good = format!("{} {} x <y> 12 +0000\tmsg\n", ID, TAG);
    assert!(parse_reflog_line(good.as_bytes()).is_some());
    assert!(parse_reflog_line(good.trim_end().as_bytes()).is_none());
    assert!(parse_reflog_line(format!("{} {} x <y> 1a +0000\tmsg\n", ID, TAG).as_bytes()).is_none());
    assert!(parse_reflog_line(format!("{} {} x <y> 12 +0000 msg\n", ID, TAG).as_bytes()).is_none());
    assert!(parse_reflog_line(format!("abc {} x <y> 12 +0000\tmsg\n", TAG).as_bytes()).is_none());
    assert!(parse_reflog_line(format!("{} {} x <y> 18446744073709551616 +0000\tm\n", ID, TAG).as_bytes()).is_none());
}

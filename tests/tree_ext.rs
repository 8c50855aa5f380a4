use refstore::inflate::{next_flow, Flow, Status};
use refstore::tree::{decode, Tree};

fn node(out: &mut Vec<u8>, name: &str, entries: &str, subtrees: usize, id: u8) {
    out.extend_from_slice(name.as_bytes());
    out.push(0);
    out.extend_from_slice(format!("{} {}\n", entries, subtrees).as_bytes());
    out.extend_from_slice(&[id; 20]);
}

fn kind() -> git_hash::Kind {
    git_hash::Kind::Sha1
}

fn names(t: &Tree) -> Vec<Vec<u8>> {
    t.children.iter().map(|c| c.name.clone()).collect()
}

#[test]
fn decodes_nested_tree() {
    let mut d = Vec::new();
    node(&mut d, "", "3", 2, 1);
    node(&mut d, "src", "2", 1, 2);
    node(&mut d, "bin", "1", 0, 3);
    node(&mut d, "docs", "1", 0, 4);
    let t = decode(&d, kind()).expect("valid extension");
    assert_eq!(t.num_entries, 3);
    assert_eq!(t.id, vec![1u8; 20]);
    assert_eq!(t.name, b"".to_vec());
    assert_eq!(names(&t), vec![b"docs".to_vec(), b"src".to_vec()]);
    assert_eq!(t.children[1].children.len(), 1);
    assert_eq!(t.children[1].children[0].name, b"bin".to_vec());
    assert_eq!(t.children[1].children[0].id, vec![3u8; 20]);
}

#[test]
fn duplicate_subtree_names_are_rejected() {
    let mut d = Vec::new();
    node(&mut d, "", "2", 2, 1);
    node(&mut d, "a", "1", 0, 2);
    node(&mut d, "a", "1", 0, 3);
    assert!(decode(&d, kind()).is_none());
}

#[test]
fn malformed_trees_are_rejected() {
    let mut d = Vec::new();
    node(&mut d, "", "x", 0, 1);
    assert!(decode(&d, kind()).is_none());
    let mut d = Vec::new();
    node(&mut d, "", "-1", 0, 1);
    assert!(decode(&d, kind()).is_none());
    let mut d = Vec::new();
    node(&mut d, "", "4294967296", 0, 1);
    assert!(decode(&d, kind()).is_none());
    let mut d = Vec::new();
    node(&mut d, "", "1", 0, 1);
    d.push(7);
    assert!(decode(&d, kind()).is_none());
    let mut d = Vec::new();
    node(&mut d, "", "1", 1, 1);
    assert!(decode(&d, kind()).is_none());
    assert!(decode(b"abc", kind()).is_none());
}

#[test]
fn entry_count_allows_plus_and_zeros() {
    let mut d = Vec::new();
    node(&mut d, "", "+007", 0, 9);
    assert_eq!(decode(&d, kind()).unwrap().num_entries, 7);
    let mut d = Vec::new();
    node(&mut d, "", "-0", 0, 9);
    assert_eq!(decode(&d, kind()).unwrap().num_entries, 0);
}

#[test]
fn read_loop_decisions() {
    assert_eq!(next_flow(Status::StreamEnd, false, false, 1, 1), Flow::Done);
    assert_eq!(next_flow(Status::Corrupt, false, false, 1, 1), Flow::Fail);
    assert_eq!(next_flow(Status::Progress, true, false, 1, 0), Flow::Done);
    assert_eq!(next_flow(Status::BufError, false, true, 1, 0), Flow::Done);
    assert_eq!(next_flow(Status::Progress, false, false, 5, 0), Flow::More);
    assert_eq!(next_flow(Status::BufError, false, false, 0, 5), Flow::More);
    assert_eq!(next_flow(Status::Progress, false, false, 5, 5), Flow::Done);
    assert_eq!(next_flow(Status::Progress, false, false, 0, 0), Flow::Done);
}

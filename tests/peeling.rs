use refstore::error::RefError;
use refstore::peel::{peel_object, Object, ObjectKind};
use refstore::store::{Store, Target};
use refstore::txn::{Change, Expected, RefEdit};

const COMMIT: &str = "1111111111111111111111111111111111111111";
const TAG1: &str = "aaaaaaaaaaaaaaaaaaaaaaaaaaaaaaaaaaaaaaaa";
const TAG2: &str = "bbbbbbbbbbbbbbbbbbbbbbbbbbbbbbbbbbbbbbbb";

fn b(s: &str) -> Vec<u8> {
    s.as_bytes().to_vec()
}

fn tag(id: &str, target: &str) -> Object {
    Object { id: b(id), kind: ObjectKind::Tag, data: format!("object {}\ntype commit\ntag v1\n", target).into_bytes() }
}

fn objects() -> Vec<Object> {
    vec![
        Object { id: b(COMMIT), kind: ObjectKind::Commit, data: b("tree x\n") },
        tag(TAG1, COMMIT),
        tag(TAG2, TAG1),
    ]
}

#[test]
fn nested_tags_peel_to_commit() {
    let objs = objects();
    assert_eq!(peel_object(&objs, &b(TAG2)), Ok((b(COMMIT), 3)));
    assert_eq!(peel_object(&objs, &b(TAG1)), Ok((b(COMMIT), 2)));
    assert_eq!(peel_object(&objs, &b(COMMIT)), Ok((b(COMMIT), 1)));
}

#[test]
fn missing_object_is_reported() {
    let objs = objects();
    assert_eq!(peel_object(&objs, &b("9999999999999999999999999999999999999999")), Err(RefError::ObjectMissing));
    let dangling = vec![tag(TAG1, "8888888888888888888888888888888888888888")];
    assert_eq!(peel_object(&dangling, &b(TAG1)), Err(RefError::ObjectMissing));
}

#[test]
fn tag_cycle_is_bounded() {
    let objs = vec![tag(TAG1, TAG2), tag(TAG2, TAG1)];
    assert_eq!(peel_object(&objs, &b(TAG1)), Err(RefError::PeelCycle));
}

fn sym(name: &str, to: &str) -> RefEdit {
    RefEdit { name: b(name), change: Change::Update { expected: Expected::Any, new: Target::Symbolic(b(to)) }, message: b("") }
}

#[test]
fn symbolic_refs_then_tags() {
    let mut store = Store::new(None);
    let edits = vec![
        sym("HEAD", "refs/heads/main"),
        RefEdit { name: b("refs/heads/main"), change: Change::Update { expected: Expected::Any, new: Target::Peeled(b(TAG2)) }, message: b("") },
    ];
    store.commit(&edits, &b("c"), 1, &b("+0000")).unwrap();
    let head = store.find(b"HEAD").unwrap();
    assert_eq!(store.peel(&head, &objects()), Ok(b(COMMIT)));
}

#[test]
fn symbolic_cycle_fails() {
    let mut store = Store::new(None);
    store.commit(&vec![sym("refs/heads/a", "refs/heads/b"), sym("refs/heads/b", "refs/heads/a")], &b("c"), 1, &b("+0000")).unwrap();
    let a = store.find(b"refs/heads/a").unwrap();
    assert_eq!(store.peel(&a, &objects()), Err(RefError::PeelCycle));
    let mut dangling = Store::new(None);
    dangling.commit(&vec![sym("HEAD", "refs/heads/none")], &b("c"), 1, &b("+0000")).unwrap();
    let h = dangling.find(b"HEAD").unwrap();
    assert_eq!(dangling.deref(&h), Err(RefError::NotFound));
}

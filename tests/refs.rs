use refstore::error::RefError;
use refstore::lock::lock_order;
use refstore::name::{is_private, is_valid_name, resolve, Area};
use refstore::store::{Store, Target};
use refstore::txn::{Change, Expected, RefEdit};

fn b(s: &str) -> Vec<u8> {
    s.as_bytes().to_vec()
}

fn update(name: &str, expected: Expected, id: &str) -> RefEdit {
    RefEdit {
        name: b(name),
        change: Change::Update { expected, new: Target::Peeled(b(id)) },
        message: b("update"),
    }
}

fn symbolic(name: &str, to: &str) -> RefEdit {
    RefEdit {
        name: b(name),
        change: Change::Update { expected: Expected::Any, new: Target::Symbolic(b(to)) },
        message: b("symref"),
    }
}

fn peeled_id(t: Result<Target, RefError>) -> Vec<u8> {
    match t {
        Ok(Target::Peeled(id)) => id,
        _ => panic!("expected a peeled reference"),
    }
}

const NEW_ID: &str = "134385f6d781b7e97062102c6a483440bfda2a03";
const OTHER_ID: &str = "22222222222222222262102c6a483440bfda2a03";
const THIRD_ID: &str = "3333333333333333333333333333333333333333";
const NULL_ID: &str = "0000000000000000000000000000000000000000";

#[test]
fn main() {
    let mut store = Store::new(None);
    let edits = vec![
        update("main-worktree/refs/heads/new", Expected::MustNotExist, NEW_ID),
        update("worktrees/w1/refs/worktree/private", Expected::MustNotExist, OTHER_ID),
    ];
    let locs = store.commit(&edits, &b("committer"), 1, &b("+0000")).unwrap();
    assert_eq!(locs.len(), 2);

    assert_eq!(peeled_id(store.find(b"refs/heads/new")), b(NEW_ID), "prefixed refs are written into the correct place");
    let log = store.reflog(&locs[0]);
    assert_eq!(log.len(), 1);
    assert_eq!(log[0].new_oid, b(NEW_ID));

    assert_eq!(
        store.find_at(&locs[1]).map(|t| match t {
            Target::Peeled(id) => id,
            Target::Symbolic(n) => n,
        }),
        Some(b(OTHER_ID)),
        "private worktree refs are written into the correct place"
    );
    let log = store.reflog(&locs[1]);
    assert_eq!(log.len(), 1);
    assert_eq!(log[0].new_oid, b(OTHER_ID));

    store.pack();
    assert_eq!(store.find_packed(b"refs/heads/new"), Some(b(NEW_ID)), "ref can be found without prefix");
    assert_eq!(store.find_packed(b"main-worktree/refs/heads/new"), Some(b(NEW_ID)), "ref can be found with prefix");
    assert_eq!(store.find_packed(b"worktrees/w1/refs/worktree/private"), None, "worktree private refs are never packed");
    assert!(store.packed.iter().all(|p| p.name != b("refs/worktree/private")));
}

#[test]
fn names_are_validated() {
    assert!(is_valid_name(b"refs/heads/main"));
    assert!(is_valid_name(b"HEAD"));
    assert!(!is_valid_name(b""));
    assert!(!is_valid_name(b"refs//heads"));
    assert!(!is_valid_name(b"refs/heads/"));
    assert!(!is_valid_name(b"/refs"));
    assert!(!is_valid_name(b"refs/../x"));
    assert!(!is_valid_name(b"refs/a\x01b"));
}

#[test]
fn private_names() {
    assert!(is_private(b"HEAD"));
    assert!(is_private(b"refs/bisect/bad"));
    assert!(is_private(b"refs/worktree/x"));
    assert!(!is_private(b"refs/heads/main"));
    assert!(!is_private(b"HEADS"));
}

#[test]
fn resolver_rules() {
    let main = resolve(b"main-worktree/refs/heads/x", &None).unwrap();
    assert!(matches!(main.area, Area::Common));
    assert_eq!(main.name, b("refs/heads/x"));

    let wt = resolve(b"worktrees/w1/refs/bisect/bad", &None).unwrap();
    assert!(matches!(&wt.area, Area::Linked(id) if *id == b("w1")));
    assert_eq!(wt.name, b("refs/bisect/bad"));

    let shared = resolve(b"worktrees/w1/refs/heads/w1", &None).unwrap();
    assert!(matches!(shared.area, Area::Common));
    assert_eq!(shared.name, b("refs/heads/w1"));

    let local = resolve(b"HEAD", &Some(b("w2"))).unwrap();
    assert!(matches!(&local.area, Area::Linked(id) if *id == b("w2")));

    assert!(resolve(b"refs//x", &None).is_none());
}

#[test]
fn round_trip_on_fresh_name() {
    let mut store = Store::new(None);
    store.commit(&vec![update("refs/heads/x", Expected::MustNotExist, NEW_ID)], &b("c"), 7, &b("+0000")).unwrap();
    assert_eq!(peeled_id(store.find(b"refs/heads/x")), b(NEW_ID));
}

#[test]
fn reflog_lines_chain() {
    let mut store = Store::new(None);
    store.commit(&vec![update("refs/heads/x", Expected::MustNotExist, NEW_ID)], &b("c"), 1, &b("+0000")).unwrap();
    store.commit(&vec![update("refs/heads/x", Expected::MustExist, OTHER_ID)], &b("c"), 2, &b("+0000")).unwrap();
    let locs = store.commit(&vec![update("refs/heads/x", Expected::Any, THIRD_ID)], &b("c"), 3, &b("+0000")).unwrap();
    let log = store.reflog(&locs[0]);
    assert_eq!(log.len(), 3);
    assert_eq!(log[0].old_oid, b(NULL_ID));
    for i in 0..2 {
        assert_eq!(log[i + 1].old_oid, log[i].new_oid);
    }
    assert_eq!(log[2].new_oid, b(THIRD_ID));
    assert_eq!(log[2].time, 3);
}

#[test]
fn failed_precondition_changes_nothing() {
    let mut store = Store::new(None);
    store.commit(&vec![update("refs/heads/a", Expected::MustNotExist, NEW_ID)], &b("c"), 1, &b("+0000")).unwrap();
    let batch = vec![
        update("refs/heads/b", Expected::MustNotExist, OTHER_ID),
        update("refs/heads/a", Expected::MustNotExist, OTHER_ID),
    ];
    assert_eq!(store.commit(&batch, &b("c"), 2, &b("+0000")).err(), Some(RefError::PreconditionFailed));
    assert_eq!(store.find(b"refs/heads/b").err(), Some(RefError::NotFound));
    assert_eq!(peeled_id(store.find(b"refs/heads/a")), b(NEW_ID));
    assert_eq!(store.loose.len(), 1);
    assert_eq!(store.logs.len(), 1);
}

#[test]
fn match_precondition() {
    let mut store = Store::new(None);
    store.commit(&vec![update("refs/heads/a", Expected::Any, NEW_ID)], &b("c"), 1, &b("+0000")).unwrap();
    let wrong = Expected::MustExistAndMatch(Target::Peeled(b(OTHER_ID)));
    assert_eq!(
        store.commit(&vec![update("refs/heads/a", wrong, THIRD_ID)], &b("c"), 2, &b("+0000")).err(),
        Some(RefError::PreconditionFailed)
    );
    let right = Expected::MustExistAndMatch(Target::Peeled(b(NEW_ID)));
    assert!(store.commit(&vec![update("refs/heads/a", right, THIRD_ID)], &b("c"), 3, &b("+0000")).is_ok());
    assert_eq!(peeled_id(store.find(b"refs/heads/a")), b(THIRD_ID));
    assert_eq!(
        store.commit(&vec![update("refs/heads/none", Expected::MustExist, THIRD_ID)], &b("c"), 4, &b("+0000")).err(),
        Some(RefError::PreconditionFailed)
    );
}

#[test]
fn invalid_name_fails_batch() {
    let mut store = Store::new(None);
    let batch = vec![update("refs/heads/ok", Expected::Any, NEW_ID), update("refs/heads/", Expected::Any, NEW_ID)];
    assert_eq!(store.commit(&batch, &b("c"), 1, &b("+0000")).err(), Some(RefError::NameInvalid));
    assert_eq!(store.find(b"refs/heads/ok").err(), Some(RefError::NotFound));
    assert_eq!(store.find(b"refs//ok").err(), Some(RefError::NameInvalid));
}

#[test]
fn tampered_reflog_is_reported() {
    let mut store = Store::new(None);
    let locs = store.commit(&vec![update("refs/heads/a", Expected::Any, NEW_ID)], &b("c"), 1, &b("+0000")).unwrap();
    store.logs[0].entry.new_oid = b(OTHER_ID);
    assert_eq!(
        store.commit(&vec![update("refs/heads/a", Expected::Any, THIRD_ID)], &b("c"), 2, &b("+0000")).err(),
        Some(RefError::ReflogCorrupt)
    );
    assert_eq!(store.reflog(&locs[0]).len(), 1);
}

#[test]
fn delete_removes_and_logs() {
    let mut store = Store::new(None);
    let locs = store.commit(&vec![update("refs/heads/a", Expected::Any, NEW_ID)], &b("c"), 1, &b("+0000")).unwrap();
    store.pack();
    let del = RefEdit { name: b("refs/heads/a"), change: Change::Delete { expected: Expected::MustExist }, message: b("gone") };
    store.commit(&vec![del], &b("c"), 2, &b("+0000")).unwrap();
    assert_eq!(store.find(b"refs/heads/a").err(), Some(RefError::NotFound));
    let log = store.reflog(&locs[0]);
    assert_eq!(log.len(), 2);
    assert_eq!(log[1].old_oid, b(NEW_ID));
    assert_eq!(log[1].new_oid, b(NULL_ID));
    store.pack();
    assert_eq!(store.find_packed(b"refs/heads/a"), None);
}

#[test]
fn loose_shadows_packed_value() {
    let mut store = Store::new(None);
    store.commit(&vec![update("refs/heads/a", Expected::Any, OTHER_ID)], &b("c"), 1, &b("+0000")).unwrap();
    store.pack();
    store.commit(&vec![update("refs/heads/a", Expected::Any, NEW_ID)], &b("c"), 2, &b("+0000")).unwrap();
    assert_eq!(store.find_packed(b"refs/heads/a"), Some(b(OTHER_ID)));
    assert_eq!(peeled_id(store.find(b"refs/heads/a")), b(NEW_ID));
}

#[test]
fn packing_skips_private_even_in_main() {
    let mut store = Store::new(None);
    store.commit(
        &vec![update("refs/bisect/bad", Expected::Any, NEW_ID), update("refs/heads/x", Expected::Any, OTHER_ID), symbolic("HEAD", "refs/heads/x")],
        &b("c"),
        1,
        &b("+0000"),
    )
    .unwrap();
    store.pack();
    assert_eq!(store.packed.len(), 1);
    assert_eq!(store.packed[0].name, b("refs/heads/x"));
    assert_eq!(peeled_id(store.find(b"refs/bisect/bad")), b(NEW_ID));
}

#[test]
fn namespace_views() {
    let mut main = Store::new(None);
    main.commit(&vec![update("HEAD", Expected::Any, NEW_ID)], &b("c"), 1, &b("+0000")).unwrap();
    assert_eq!(peeled_id(main.find(b"HEAD")), peeled_id(main.find(b"main-worktree/HEAD")));

    let mut linked = Store::new(Some(b("w1")));
    linked.loose = std::mem::take(&mut main.loose);
    linked.commit(&vec![update("HEAD", Expected::Any, OTHER_ID)], &b("c"), 2, &b("+0000")).unwrap();
    assert_eq!(peeled_id(linked.find(b"HEAD")), b(OTHER_ID));
    assert_eq!(peeled_id(linked.find(b"main-worktree/HEAD")), b(NEW_ID));
    assert_eq!(peeled_id(linked.find(b"worktrees/w1/HEAD")), b(OTHER_ID));
}

#[test]
fn packed_table_is_sorted_and_unique() {
    let mut store = Store::new(None);
    store.commit(&vec![update("refs/tags/z", Expected::Any, NEW_ID), update("refs/heads/b", Expected::Any, OTHER_ID)], &b("c"), 1, &b("+0000")).unwrap();
    store.commit(&vec![update("refs/heads/a", Expected::Any, THIRD_ID), update("refs/heads/b", Expected::Any, NEW_ID)], &b("c"), 2, &b("+0000")).unwrap();
    store.pack();
    let names: Vec<Vec<u8>> = store.packed.iter().map(|p| p.name.clone()).collect();
    assert_eq!(names, vec![b("refs/heads/a"), b("refs/heads/b"), b("refs/tags/z")]);
    assert_eq!(store.find_packed(b"refs/heads/b"), Some(b(NEW_ID)));
}

#[test]
fn locks_are_taken_in_path_order() {
    let locs = vec![
        resolve(b"refs/heads/z", &None).unwrap(),
        resolve(b"worktrees/w1/HEAD", &None).unwrap(),
        resolve(b"HEAD", &None).unwrap(),
        resolve(b"main-worktree/refs/heads/z", &None).unwrap(),
        resolve(b"refs/heads/a", &Some(b("w2"))).unwrap(),
    ];
    let order = lock_order(&locs);
    assert_eq!(order, vec![b("HEAD"), b("refs/heads/a"), b("refs/heads/z"), b("worktrees/w1/HEAD")]);
}

use refstore::name::resolve;
use refstore::peel::{Object, ObjectKind};
use refstore::store::{Store, Target};
use refstore::txn::{Change, Expected, RefEdit};

const C0: &str = "0c0c0c0c0c0c0c0c0c0c0c0c0c0c0c0c0c0c0c0c";
const C1: &str = "1c1c1c1c1c1c1c1c1c1c1c1c1c1c1c1c1c1c1c1c";
const C2: &str = "2c2c2c2c2c2c2c2c2c2c2c2c2c2c2c2c2c2c2c2c";

fn b(s: &str) -> Vec<u8> {
    s.as_bytes().to_vec()
}

fn set(name: &str, t: Target) -> RefEdit {
    RefEdit { name: b(name), change: Change::Update { expected: Expected::Any, new: t }, message: b("setup") }
}

fn objects() -> Vec<Object> {
    [C0, C1, C2].iter().map(|id| Object { id: b(id), kind: ObjectKind::Commit, data: b("tree t\n") }).collect()
}

/// A main worktree on `main` (at C2), a linked worktree `w1` on branch
/// `w1` (at C1) and a detached linked worktree `w-detached` (at C0), each
/// with a bisect ref at its HEAD; written from the main worktree and then
/// seen from `current`.
fn fixture(packed: bool, current: Option<Vec<u8>>) -> Store {
    let mut store = Store::new(None);
    let edits = vec![
        set("refs/heads/main", Target::Peeled(b(C2))),
        set("HEAD", Target::Symbolic(b("refs/heads/main"))),
        set("refs/bisect/bad", Target::Peeled(b(C2))),
        set("refs/heads/w1", Target::Peeled(b(C1))),
        set("worktrees/w1/HEAD", Target::Symbolic(b("refs/heads/w1"))),
        set("worktrees/w1/refs/bisect/bad", Target::Peeled(b(C1))),
        set("worktrees/w-detached/HEAD", Target::Peeled(b(C0))),
        set("worktrees/w-detached/refs/bisect/bad", Target::Peeled(b(C0))),
    ];
    store.commit(&edits, &b("a <a@b>"), 1, &b("+0000")).unwrap();
    if packed {
        store.pack();
    }
    store.current = current;
    store
}

fn peel(store: &Store, name: &str) -> Vec<u8> {
    let t = store.find(name.as_bytes()).unwrap();
    store.peel(&t, &objects()).unwrap()
}

fn assert_reflog(store: &Store, a: &str, b_: &str) {
    let la = store.reflog(&resolve(a.as_bytes(), &store.current).unwrap());
    let lb = store.reflog(&resolve(b_.as_bytes(), &store.current).unwrap());
    assert_eq!(la.len(), lb.len());
    for (x, y) in la.iter().zip(lb.iter()) {
        assert_eq!(x.new_oid, y.new_oid);
        assert_eq!(x.old_oid, y.old_oid);
    }
}

#[test]
fn linked_read_only() {
    for packed in [false, true] {
        let store = fixture(packed, Some(b("w1")));

        let w1_head_id = peel(&store, "HEAD");
        let head_id = peel(&store, "main-worktree/HEAD");
        assert_ne!(w1_head_id, head_id, "access to main worktree from linked worktree");
        assert_reflog(&store, "HEAD", "worktrees/w1/HEAD");
        assert_eq!(
            head_id,
            peel(&store, "main-worktree/refs/bisect/bad"),
            "main worktree private branch is accessible and points to its head"
        );
        assert_eq!(peel(&store, "refs/bisect/bad"), w1_head_id, "this worktrees bisect branch points to its head");
        assert_eq!(
            peel(&store, "worktrees/w-detached/refs/bisect/bad"),
            peel(&store, "worktrees/w-detached/HEAD"),
            "the detached worktree's bisect branch points to its head"
        );
        assert_eq!(w1_head_id, peel(&store, "worktrees/w1/HEAD"), "access ourselves with worktrees prefix works (HEAD)");
        assert_reflog(&store, "refs/heads/w1", "main-worktree/refs/heads/w1");
        assert_reflog(&store, "refs/heads/w1", "worktrees/w1/refs/heads/w1");
        assert_eq!(
            w1_head_id,
            peel(&store, "worktrees/w1/refs/heads/w1"),
            "access ourselves with worktrees prefix works (branch)"
        );
        assert_ne!(w1_head_id, peel(&store, "worktrees/w-detached/HEAD"), "both point to different ids");
    }
}

#[test]
fn main_read_only() {
    for packed in [false, true] {
        let store = fixture(packed, None);

        let head_id = peel(&store, "HEAD");
        assert_eq!(
            head_id,
            peel(&store, "main-worktree/HEAD"),
            "main-worktree prefix in pseudorefs from main worktree just works"
        );
        assert_reflog(&store, "HEAD", "main-worktree/HEAD");
        assert_eq!(
            peel(&store, "refs/heads/main"),
            peel(&store, "main-worktree/refs/heads/main"),
            "main-worktree prefix in pseudorefs from main worktree just works"
        );
        assert_reflog(&store, "refs/heads/main", "main-worktree/refs/heads/main");
        assert_eq!(peel(&store, "refs/bisect/bad"), head_id, "bisect is worktree-private");

        let w1_main_id = peel(&store, "refs/heads/w1");
        assert_ne!(w1_main_id, head_id, "w1 is checked out at previous commit");

        let w1_head_id = peel(&store, "worktrees/w1/HEAD");
        assert_eq!(w1_head_id, w1_main_id, "worktree head points to the branch");
        assert_eq!(peel(&store, "worktrees/w1/refs/bisect/bad"), w1_main_id, "linked worktree bisect points to its head");
        assert_eq!(w1_head_id, peel(&store, "worktrees/w1/refs/heads/w1"), "worktree branch can be accessed with refs notation too");
        let wd_head_id = peel(&store, "worktrees/w-detached/HEAD");
        assert_ne!(wd_head_id, w1_main_id, "both worktrees are in different locations");
        assert_eq!(
            peel(&store, "worktrees/w-detached/refs/bisect/bad"),
            wd_head_id,
            "detached worktree bisect is at the same location as its HEAD"
        );
        assert_ne!(w1_head_id, head_id, "access from main to worktree with respective prefix");
    }
}

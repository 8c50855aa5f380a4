use vstd::prelude::*;

use crate::name::{
    has_prefix, head_name, main_worktree_prefix, private_name, resolve_spec, valid_name,
    worktrees_prefix, SpecLocation,
};
use crate::store::{
    find_spec, log_of, loose_record, packed_id, packed_value, SpecEntry, SpecLogRecord,
    SpecStore, SpecTarget,
};
use crate::peel::{deref_spec, lookup, peel_object_spec, tag_target, ObjectKind, SpecObject};
use crate::txn::{apply_edit, logged_oid, null_oid, run, SpecEdit, SpecExpected};

verus! {

/// Each reflog line starts where the one before it ended.
pub open spec fn continuous(log: Seq<SpecEntry>) -> bool {
    forall|i: int| 0 <= i < log.len() - 1 ==> (#[trigger] log[i + 1]).old_oid == log[i].new_oid
}

proof fn lemma_log_of_push(l: Seq<SpecLogRecord>, r: SpecLogRecord, loc: SpecLocation)
    ensures
        log_of(l.push(r), loc) == if r.loc == loc {
            log_of(l, loc).push(r.entry)
        } else {
            log_of(l, loc)
        },
{
    assert(l.push(r).drop_last() =~= l);
}

/// A successful transaction keeps every reflog continuous: the old id of
/// each line it appends is the new id of the line before it.
pub proof fn reflog_continuity(
    s: SpecStore,
    edits: Seq<SpecEdit>,
    committer: Seq<u8>,
    time: u64,
    tz: Seq<u8>,
    loc: SpecLocation,
)
    requires
        continuous(log_of(s.logs, loc)),
        run(s, edits, committer, time, tz) is Ok,
    ensures
        continuous(log_of(run(s, edits, committer, time, tz)->Ok_0.logs, loc)),
    decreases edits.len(),
{
    if edits.len() > 0 {
        reflog_continuity(s, edits.drop_last(), committer, time, tz, loc);
        let s2 = run(s, edits.drop_last(), committer, time, tz)->Ok_0;
        let e = edits.last();
        let l = resolve_spec(e.name, s2.current)->Some_0;
        let s3 = apply_edit(s2, e, committer, time, tz)->Ok_0;
        assert(s3.logs == s2.logs.push(s3.logs.last()));
        lemma_log_of_push(s2.logs, s3.logs.last(), loc);
        let old_log = log_of(s2.logs, loc);
        let new_log = log_of(s3.logs, loc);
        if l == loc {
            assert forall|i: int| 0 <= i < new_log.len() - 1 implies (#[trigger] new_log[i + 1]).old_oid
                == new_log[i].new_oid by {
                if i + 1 < old_log.len() {
                    assert(old_log[i + 1] == new_log[i + 1]);
                }
            }
        }
    }
}

/// Writing a peeled id to a name that does not exist, with `MustNotExist`,
/// succeeds where the name is valid and its reflog ends at the null id (or
/// is empty), and reading the name back then gives that id.
pub proof fn round_trip(
    s: SpecStore,
    name: Seq<u8>,
    id: Seq<u8>,
    message: Seq<u8>,
    committer: Seq<u8>,
    time: u64,
    tz: Seq<u8>,
)
    requires
        resolve_spec(name, s.current) is Some,
        find_spec(s, resolve_spec(name, s.current)->Some_0) is None,
    ensures
        ({
            let edits = seq![
                SpecEdit {
                    name,
                    expected: SpecExpected::MustNotExist,
                    new: Some(SpecTarget::Peeled(id)),
                    message,
                },
            ];
            let log = log_of(s.logs, resolve_spec(name, s.current)->Some_0);
            &&& (log.len() == 0 || log.last().new_oid == null_oid()) ==> run(
                s,
                edits,
                committer,
                time,
                tz,
            ) is Ok
            &&& run(s, edits, committer, time, tz) is Ok ==> find_spec(
                run(s, edits, committer, time, tz)->Ok_0,
                resolve_spec(name, s.current)->Some_0,
            ) == Some(SpecTarget::Peeled(id))
        }),
{
    let edits = seq![
        SpecEdit {
            name,
            expected: SpecExpected::MustNotExist,
            new: Some(SpecTarget::Peeled(id)),
            message,
        },
    ];
    assert(edits.drop_last() =~= Seq::<SpecEdit>::empty());
    let loc = resolve_spec(name, s.current)->Some_0;
    assert(logged_oid(None) == null_oid());
    assert(run(s, edits.drop_last(), committer, time, tz) == Ok::<SpecStore, crate::error::RefError>(s));
    assert(run(s, edits, committer, time, tz) == apply_edit(s, edits[0], committer, time, tz));
    if run(s, edits, committer, time, tz) is Ok {
        let s2 = run(s, edits, committer, time, tz)->Ok_0;
        assert(s2.loose.drop_last() =~= s.loose);
        assert(s2.loose.last().loc == loc);
    }
}

/// A loose value shadows the packed table.
pub proof fn loose_shadows_packed(s: SpecStore, loc: SpecLocation, a: SpecTarget)
    requires
        loose_record(s.loose, loc) == Some(Some(a)),
    ensures
        find_spec(s, loc) == Some(a),
{
}

/// A packed table written from a store never holds a name that is private
/// to a worktree, whatever the store holds under that name.
pub proof fn private_never_packed(s: SpecStore, packed: Seq<crate::store::SpecPacked>, n: Seq<u8>)
    requires
        forall|m: Seq<u8>| #[trigger] packed_id(packed, m) == packed_value(s, m),
        private_name(n),
    ensures
        packed_id(packed, n) is None,
{
    assert(packed_id(packed, n) == packed_value(s, n));
}

/// After packing, every lookup gives what it gave before.
pub proof fn packing_keeps_lookups(s: SpecStore, packed: Seq<crate::store::SpecPacked>, loc: SpecLocation)
    requires
        forall|n: Seq<u8>| #[trigger] packed_id(packed, n) == packed_value(s, n),
    ensures
        find_spec(SpecStore { packed, ..s }, loc) == find_spec(s, loc),
{
    assert(packed_id(packed, loc.name) == packed_value(s, loc.name));
}

proof fn lemma_prefixed_valid(n: Seq<u8>)
    requires
        valid_name(n),
    ensures
        valid_name(main_worktree_prefix() + n),
        has_prefix(main_worktree_prefix() + n, main_worktree_prefix()),
        (main_worktree_prefix() + n).subrange(14, (main_worktree_prefix() + n).len() as int) == n,
{
    let p = main_worktree_prefix();
    let m = p + n;
    assert(m.subrange(0, 14) =~= p);
    assert(m.subrange(14, m.len() as int) =~= n);
    assert forall|i: int| 0 <= i < m.len() implies !crate::name::is_control(#[trigger] m[i]) by {
        if i >= 14 {
            assert(m[i] == n[i - 14]);
        }
    }
    assert forall|i: int| 0 <= i < m.len() - 1 implies !(#[trigger] m[i] == 47u8 && m[i + 1] == 47u8) by {
        if i >= 14 {
            assert(m[i] == n[i - 14]);
            assert(m[i + 1] == n[i + 1 - 14]);
        } else if i == 13 {
            assert(m[i + 1] == n[0]);
        }
    }
    assert forall|i: int| 0 <= i < m.len() - 1 implies !(#[trigger] m[i] == 46u8 && m[i + 1] == 46u8) by {
        if i >= 14 {
            assert(m[i] == n[i - 14]);
            assert(m[i + 1] == n[i + 1 - 14]);
        }
    }
    assert(m[m.len() - 1] == n[n.len() - 1]);
}

proof fn lemma_private_unprefixed(n: Seq<u8>)
    requires
        private_name(n),
    ensures
        !has_prefix(n, main_worktree_prefix()),
        !has_prefix(n, worktrees_prefix()),
{
    if n == head_name() {
        assert(n[0] == 72u8);
    } else if has_prefix(n, crate::name::bisect_prefix()) {
        assert(n.subrange(0, 12)[0] == n[0]);
        assert(n[0] == 114u8);
    } else {
        assert(n.subrange(0, 14)[0] == n[0]);
        assert(n[0] == 114u8);
    }
    if has_prefix(n, main_worktree_prefix()) {
        assert(n.subrange(0, 14)[0] == n[0]);
    }
    if has_prefix(n, worktrees_prefix()) {
        assert(n.subrange(0, 10)[0] == n[0]);
    }
}

/// From the main worktree a private name (such as `HEAD`) and the same
/// name under `main-worktree/` resolve to one place; from a linked
/// worktree they resolve to different places.
#[verifier::rlimit(40)]
pub proof fn namespace_equivalence(n: Seq<u8>, id: Seq<u8>)
    requires
        valid_name(n),
        private_name(n),
    ensures
        resolve_spec(main_worktree_prefix() + n, None) == resolve_spec(n, None),
        resolve_spec(main_worktree_prefix() + n, Some(id)) != resolve_spec(n, Some(id)),
{
    lemma_prefixed_valid(n);
    lemma_private_unprefixed(n);
}

/// Where `id` starts a chain of exactly `k` annotated tags that ends at a
/// non-tag object, that object's id.
pub open spec fn tag_chain(objs: Seq<SpecObject>, id: Seq<u8>, k: nat) -> Option<Seq<u8>>
    decreases k,
{
    match lookup(objs, id) {
        None => None,
        Some(o) => if k == 0 {
            if o.kind != ObjectKind::Tag {
                Some(id)
            } else {
                None
            }
        } else if o.kind == ObjectKind::Tag {
            match tag_target(o.data) {
                Some(t) => tag_chain(objs, t, (k - 1) as nat),
                None => None,
            }
        } else {
            None
        },
    }
}

/// A chain of `k` nested annotated tags peels to the object at its end in
/// `k + 1` lookups, given room for that many.
pub proof fn tag_chain_peels(objs: Seq<SpecObject>, id: Seq<u8>, k: nat, fuel: nat)
    requires
        tag_chain(objs, id, k) is Some,
        k < fuel,
    ensures
        peel_object_spec(objs, id, fuel) == Ok::<(Seq<u8>, nat), crate::error::RefError>(
            (tag_chain(objs, id, k)->Some_0, k + 1),
        ),
    decreases k,
{
    if k > 0 {
        let t = tag_target(lookup(objs, id)->Some_0.data)->Some_0;
        tag_chain_peels(objs, t, (k - 1) as nat, (fuel - 1) as nat);
    }
}

/// Symbolic references that only ever point at one another (a cycle of
/// any length, a reference that points at itself) fail to peel with a
/// cycle error, whatever the hop budget.
pub proof fn symbolic_cycle_fails(s: SpecStore, names: Set<Seq<u8>>, a: Seq<u8>, fuel: nat)
    requires
        names.contains(a),
        forall|n: Seq<u8>|
            #[trigger] names.contains(n) ==> resolve_spec(n, s.current) is Some && (find_spec(
                s,
                resolve_spec(n, s.current)->Some_0,
            ) matches Some(SpecTarget::Symbolic(m)) && names.contains(m)),
    ensures
        deref_spec(s, SpecTarget::Symbolic(a), fuel) == Err::<Seq<u8>, crate::error::RefError>(
            crate::error::RefError::PeelCycle,
        ),
    decreases fuel,
{
    if fuel > 0 {
        let m = find_spec(s, resolve_spec(a, s.current)->Some_0)->Some_0->Symbolic_0;
        symbolic_cycle_fails(s, names, m, (fuel - 1) as nat);
    }
}

} // verus!

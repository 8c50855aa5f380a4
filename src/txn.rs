use vstd::prelude::*;

use crate::error::RefError;
use crate::name::{resolve, resolve_spec, Location};
use crate::store::{
    copy_bytes, copy_location, copy_target, find_spec, loc_eq, log_of, opt_target, LogRecord, LooseRecord,
    ReflogEntry, SpecEntry, SpecLogRecord, SpecLoose, SpecStore, SpecTarget, Store, Target,
};

verus! {

/// What an edit expects the reference to hold before it is applied.
pub enum Expected {
    Any,
    MustNotExist,
    MustExist,
    MustExistAndMatch(Target),
}

pub enum SpecExpected {
    Any,
    MustNotExist,
    MustExist,
    MustExistAndMatch(SpecTarget),
}

impl View for Expected {
    type V = SpecExpected;

    open spec fn view(&self) -> SpecExpected {
        match self {
            Expected::Any => SpecExpected::Any,
            Expected::MustNotExist => SpecExpected::MustNotExist,
            Expected::MustExist => SpecExpected::MustExist,
            Expected::MustExistAndMatch(t) => SpecExpected::MustExistAndMatch(t@),
        }
    }
}

/// The change one edit makes.
pub enum Change {
    Update { expected: Expected, new: Target },
    Delete { expected: Expected },
}

/// One edit of a transaction; `message` goes into the reflog line.
pub struct RefEdit {
    pub name: Vec<u8>,
    pub change: Change,
    pub message: Vec<u8>,
}

pub struct SpecEdit {
    pub name: Seq<u8>,
    pub expected: SpecExpected,
    pub new: Option<SpecTarget>,
    pub message: Seq<u8>,
}

impl View for RefEdit {
    type V = SpecEdit;

    open spec fn view(&self) -> SpecEdit {
        match &self.change {
            Change::Update { expected, new } => SpecEdit {
                name: self.name@,
                expected: expected@,
                new: Some(new@),
                message: self.message@,
            },
            Change::Delete { expected } => SpecEdit {
                name: self.name@,
                expected: expected@,
                new: None,
                message: self.message@,
            },
        }
    }
}

pub open spec fn expectation_holds(e: SpecExpected, cur: Option<SpecTarget>) -> bool {
    match e {
        SpecExpected::Any => true,
        SpecExpected::MustNotExist => cur is None,
        SpecExpected::MustExist => cur is Some,
        SpecExpected::MustExistAndMatch(t) => cur == Some(t),
    }
}

/// The id that stands for "no object" in reflog lines.
pub open spec fn null_oid() -> Seq<u8> {
    Seq::new(40, |i: int| 48u8)
}

/// The id a reflog line records for a value: the object id of a peeled
/// target, the null id otherwise.
pub open spec fn logged_oid(t: Option<SpecTarget>) -> Seq<u8> {
    match t {
        Some(SpecTarget::Peeled(id)) => id,
        _ => null_oid(),
    }
}

/// Applies one edit to the state that the edits before it left.
pub open spec fn apply_edit(s: SpecStore, e: SpecEdit, committer: Seq<u8>, time: u64, tz: Seq<u8>) -> Result<
    SpecStore,
    RefError,
> {
    match resolve_spec(e.name, s.current) {
        None => Err(RefError::NameInvalid),
        Some(loc) => {
            let cur = find_spec(s, loc);
            let log = log_of(s.logs, loc);
            if !expectation_holds(e.expected, cur) {
                Err(RefError::PreconditionFailed)
            } else if log.len() > 0 && log.last().new_oid != logged_oid(cur) {
                Err(RefError::ReflogCorrupt)
            } else {
                let entry = SpecEntry {
                    old_oid: logged_oid(cur),
                    new_oid: logged_oid(e.new),
                    committer,
                    time,
                    tz,
                    message: e.message,
                };
                Ok(
                    SpecStore {
                        loose: s.loose.push(SpecLoose { loc, target: e.new }),
                        logs: s.logs.push(SpecLogRecord { loc, entry }),
                        ..s
                    },
                )
            }
        },
    }
}

/// The outcome of a whole batch: the first failing edit fails it all.
pub open spec fn run(s: SpecStore, edits: Seq<SpecEdit>, committer: Seq<u8>, time: u64, tz: Seq<u8>) -> Result<
    SpecStore,
    RefError,
>
    decreases edits.len(),
{
    if edits.len() == 0 {
        Ok(s)
    } else {
        match run(s, edits.drop_last(), committer, time, tz) {
            Err(e) => Err(e),
            Ok(s2) => apply_edit(s2, edits.last(), committer, time, tz),
        }
    }
}

pub open spec fn edits_view(v: Seq<RefEdit>) -> Seq<SpecEdit> {
    v.map_values(|e: RefEdit| e@)
}

pub fn make_null_oid() -> (r: Vec<u8>)
    ensures
        r@ == null_oid(),
{
    let mut r: Vec<u8> = Vec::new();
    let mut i: usize = 0;
    while i < 40
        invariant
            i <= 40,
            r@ == Seq::new(i as nat, |k: int| 48u8),
        decreases 40 - i,
    {
        r.push(48);
        i += 1;
        assert(r@ =~= Seq::new(i as nat, |k: int| 48u8));
    }
    r
}

fn oid_for(t: &Option<Target>) -> (r: Vec<u8>)
    ensures
        r@ == logged_oid(opt_target(*t)),
{
    match t {
        Some(Target::Peeled(id)) => copy_bytes(id),
        _ => make_null_oid(),
    }
}

fn holds(e: &Expected, cur: &Option<Target>) -> (r: bool)
    ensures
        r == expectation_holds(e@, opt_target(*cur)),
{
    match e {
        Expected::Any => true,
        Expected::MustNotExist => cur.is_none(),
        Expected::MustExist => cur.is_some(),
        Expected::MustExistAndMatch(t) => match cur {
            None => false,
            Some(c) => targets_eq(c, t),
        },
    }
}

pub fn targets_eq(a: &Target, b: &Target) -> (r: bool)
    ensures
        r == (a@ == b@),
{
    match (a, b) {
        (Target::Peeled(x), Target::Peeled(y)) => crate::store::bytes_eq(x.as_slice(), y.as_slice()),
        (Target::Symbolic(x), Target::Symbolic(y)) => crate::store::bytes_eq(x.as_slice(), y.as_slice()),
        _ => false,
    }
}

impl Store {
    /// The last reflog line of a place, if it has any.
    pub fn last_log(&self, loc: &Location) -> (r: Option<&ReflogEntry>)
        ensures
            match r {
                None => log_of(self@.logs, loc@).len() == 0,
                Some(e) => log_of(self@.logs, loc@).len() > 0 && e@ == log_of(self@.logs, loc@).last(),
            },
    {
        let ghost l = self@.logs;
        let mut i: usize = self.logs.len();
        assert(l.take(i as int) =~= l);
        while i > 0
            invariant
                i <= self.logs@.len(),
                l == self@.logs,
                log_of(l, loc@) == log_of(l.take(i as int), loc@),
            decreases i,
        {
            assert(l.take(i as int).drop_last() =~= l.take(i - 1));
            let rec = &self.logs[i - 1];
            assert(rec@ == l.take(i as int).last());
            if loc_eq(&rec.loc, loc) {
                return Some(&rec.entry);
            }
            i -= 1;
        }
        assert(l.take(0) =~= Seq::<SpecLogRecord>::empty());
        None
    }

    /// The reflog of a place, oldest line first.
    pub fn reflog(&self, loc: &Location) -> (r: Vec<ReflogEntry>)
        ensures
            r@.map_values(|e: ReflogEntry| e@) == log_of(self@.logs, loc@),
    {
        let ghost l = self@.logs;
        let mut out: Vec<ReflogEntry> = Vec::new();
        let mut i: usize = 0;
        assert(out@.map_values(|e: ReflogEntry| e@) =~= log_of(l.take(0), loc@));
        while i < self.logs.len()
            invariant
                i <= self.logs@.len(),
                l == self@.logs,
                out@.map_values(|e: ReflogEntry| e@) == log_of(l.take(i as int), loc@),
            decreases self.logs@.len() - i,
        {
            assert(l.take(i + 1).drop_last() =~= l.take(i as int));
            let rec = &self.logs[i];
            assert(rec@ == l.take(i + 1).last());
            if loc_eq(&rec.loc, loc) {
                let e = &rec.entry;
                out.push(
                    ReflogEntry {
                        old_oid: copy_bytes(&e.old_oid),
                        new_oid: copy_bytes(&e.new_oid),
                        committer: copy_bytes(&e.committer),
                        time: e.time,
                        tz: copy_bytes(&e.tz),
                        message: copy_bytes(&e.message),
                    },
                );
            }
            assert(out@.map_values(|e: ReflogEntry| e@) =~= log_of(l.take(i + 1), loc@));
            i += 1;
        }
        assert(l.take(self.logs@.len() as int) =~= l);
        out
    }

    /// Applies a batch of edits as one: either every edit is applied, in
    /// order, each with its reflog line, or none is and the error of the
    /// first edit that failed is returned. On success the resolved place of
    /// each edit is returned.
    pub fn commit(&mut self, edits: &Vec<RefEdit>, committer: &Vec<u8>, time: u64, tz: &Vec<u8>) -> (r: Result<
        Vec<Location>,
        RefError,
    >)
        ensures
            r is Ok ==> {
                &&& run(old(self)@, edits_view(edits@), committer@, time, tz@) == Ok::<SpecStore, RefError>(
                    final(self)@,
                )
                &&& r->Ok_0@.len() == edits@.len()
                &&& forall|i: int|
                    0 <= i < edits@.len() ==> resolve_spec(
                        #[trigger] edits@[i].name@,
                        old(self)@.current,
                    ) == Some(r->Ok_0@[i]@)
            },
            r is Err ==> {
                &&& run(old(self)@, edits_view(edits@), committer@, time, tz@) == Err::<
                    SpecStore,
                    RefError,
                >(r->Err_0)
                &&& final(self)@ == old(self)@
            },
    {
        let ghost s0 = self@;
        let ghost ev = edits_view(edits@);
        let n_loose = self.loose.len();
        let n_logs = self.logs.len();
        let mut locs: Vec<Location> = Vec::new();
        let mut i: usize = 0;
        while i < edits.len()
            invariant
                0 <= i <= edits@.len(),
                ev == edits_view(edits@),
                s0 == old(self)@,
                n_loose <= self.loose@.len(),
                n_logs <= self.logs@.len(),
                self@.loose.subrange(0, n_loose as int) == s0.loose,
                self@.logs.subrange(0, n_logs as int) == s0.logs,
                s0.loose.len() == n_loose,
                s0.logs.len() == n_logs,
                self@.current == s0.current,
                self@.packed == s0.packed,
                run(s0, ev.take(i as int), committer@, time, tz@) == Ok::<SpecStore, RefError>(self@),
                locs@.len() == i,
                forall|j: int|
                    0 <= j < i ==> resolve_spec(#[trigger] edits@[j].name@, s0.current) == Some(
                        locs@[j]@,
                    ),
            decreases edits@.len() - i,
        {
            let edit = &edits[i];
            assert(ev.take(i + 1).drop_last() =~= ev.take(i as int));
            assert(ev.take(i + 1).last() == edit@);
            let ghost pre = self@;
            let outcome = self.apply_one(edit, committer, time, tz);
            match outcome {
                Err(e) => {
                    self.loose.truncate(n_loose);
                    self.logs.truncate(n_logs);
                    proof {
                        assert(self@.loose =~= s0.loose);
                        assert(self@.logs =~= s0.logs);
                        assert(run(s0, ev.take(i + 1), committer@, time, tz@) == Err::<SpecStore, RefError>(e));
                        lemma_run_fails_later(s0, ev, committer@, time, tz@, i + 1);
                        assert(run(s0, ev, committer@, time, tz@) == Err::<SpecStore, RefError>(e));
                    }
                    return Err(e);
                },
                Ok(loc) => {
                    proof {
                        assert(run(s0, ev.take(i + 1), committer@, time, tz@) == Ok::<SpecStore, RefError>(self@));
                        assert(self@.loose.subrange(0, n_loose as int) =~= s0.loose);
                        assert(self@.logs.subrange(0, n_logs as int) =~= s0.logs);
                    }
                    locs.push(loc);
                },
            }
            i += 1;
        }
        assert(ev.take(edits@.len() as int) =~= ev);
        Ok(locs)
    }

    /// One step of `commit`.
    fn apply_one(&mut self, edit: &RefEdit, committer: &Vec<u8>, time: u64, tz: &Vec<u8>) -> (r: Result<
        Location,
        RefError,
    >)
        ensures
            match r {
                Ok(loc) => {
                    &&& apply_edit(old(self)@, edit@, committer@, time, tz@) == Ok::<
                        SpecStore,
                        RefError,
                    >(final(self)@)
                    &&& resolve_spec(edit@.name, old(self)@.current) == Some(loc@)
                    &&& final(self).loose@.len() == old(self).loose@.len() + 1
                    &&& final(self).logs@.len() == old(self).logs@.len() + 1
                    &&& final(self)@.loose.drop_last() == old(self)@.loose
                    &&& final(self)@.logs.drop_last() == old(self)@.logs
                },
                Err(e) => {
                    &&& apply_edit(old(self)@, edit@, committer@, time, tz@) == Err::<
                        SpecStore,
                        RefError,
                    >(e)
                    &&& final(self)@ == old(self)@
                    &&& final(self).loose@.len() == old(self).loose@.len()
                    &&& final(self).logs@.len() == old(self).logs@.len()
                },
            },
    {
        let loc = match resolve(edit.name.as_slice(), &self.current) {
            None => return Err(RefError::NameInvalid),
            Some(loc) => loc,
        };
        let cur = self.find_at(&loc);
        let (expected, new) = match &edit.change {
            Change::Update { expected, new } => (expected, Some(copy_target(new))),
            Change::Delete { expected } => (expected, None),
        };
        if !holds(expected, &cur) {
            return Err(RefError::PreconditionFailed);
        }
        let old_oid = oid_for(&cur);
        match self.last_log(&loc) {
            Some(last) => {
                if !crate::store::bytes_eq(last.new_oid.as_slice(), old_oid.as_slice()) {
                    return Err(RefError::ReflogCorrupt);
                }
            },
            None => {},
        }
        let entry = ReflogEntry {
            old_oid,
            new_oid: oid_for(&new),
            committer: copy_bytes(committer),
            time,
            tz: copy_bytes(tz),
            message: copy_bytes(&edit.message),
        };
        let ghost s = self@;
        self.loose.push(LooseRecord { loc: copy_location(&loc), target: new });
        self.logs.push(LogRecord { loc: copy_location(&loc), entry });
        proof {
            assert(self@.loose =~= s.loose.push(self@.loose.last()));
            assert(self@.logs =~= s.logs.push(self@.logs.last()));
            assert(self@.loose.drop_last() =~= s.loose);
            assert(self@.logs.drop_last() =~= s.logs);
        }
        Ok(loc)
    }
}

/// Once a prefix of the batch fails, the whole batch fails the same way.
proof fn lemma_run_fails_later(s: SpecStore, ev: Seq<SpecEdit>, c: Seq<u8>, t: u64, z: Seq<u8>, k: int)
    requires
        0 <= k <= ev.len(),
        run(s, ev.take(k), c, t, z) is Err,
    ensures
        run(s, ev, c, t, z) == run(s, ev.take(k), c, t, z),
    decreases ev.len() - k,
{
    if k < ev.len() {
        assert(ev.take(k + 1).drop_last() =~= ev.take(k));
        lemma_run_fails_later(s, ev, c, t, z, k + 1);
    } else {
        assert(ev.take(k) =~= ev);
    }
}

} // verus!

use vstd::prelude::*;

use crate::error::RefError;
use crate::tree::{lex_lt, name_lt};
use crate::name::{
    copy_range, is_private, opt_view, private_name, resolve, resolve_spec, Area, Location,
    SpecArea, SpecLocation,
};

verus! {

/// What a reference points at: an object id (as hex text) or another
/// reference's name.
pub enum Target {
    Peeled(Vec<u8>),
    Symbolic(Vec<u8>),
}

pub enum SpecTarget {
    Peeled(Seq<u8>),
    Symbolic(Seq<u8>),
}

impl View for Target {
    type V = SpecTarget;

    open spec fn view(&self) -> SpecTarget {
        match self {
            Target::Peeled(id) => SpecTarget::Peeled(id@),
            Target::Symbolic(n) => SpecTarget::Symbolic(n@),
        }
    }
}

pub open spec fn opt_target(t: Option<Target>) -> Option<SpecTarget> {
    match t {
        None => None,
        Some(t) => Some(t@),
    }
}

/// One write to the loose layer: the place and the value written there, or
/// `None` where the loose file was removed.
pub struct LooseRecord {
    pub loc: Location,
    pub target: Option<Target>,
}

pub struct SpecLoose {
    pub loc: SpecLocation,
    pub target: Option<SpecTarget>,
}

impl View for LooseRecord {
    type V = SpecLoose;

    open spec fn view(&self) -> SpecLoose {
        SpecLoose { loc: self.loc@, target: opt_target(self.target) }
    }
}

/// One entry of the packed-refs table: a name, its id and, for an
/// annotated tag, the id it peels to.
pub struct PackedRef {
    pub name: Vec<u8>,
    pub id: Vec<u8>,
    pub peeled: Option<Vec<u8>>,
}

pub struct SpecPacked {
    pub name: Seq<u8>,
    pub id: Seq<u8>,
    pub peeled: Option<Seq<u8>>,
}

impl View for PackedRef {
    type V = SpecPacked;

    open spec fn view(&self) -> SpecPacked {
        SpecPacked { name: self.name@, id: self.id@, peeled: opt_view(self.peeled) }
    }
}

/// One reflog line: the ids before and after, who made the change
/// (name and email), when (seconds since the epoch, and the time zone
/// offset as text such as `+0200`), and why.
pub struct ReflogEntry {
    pub old_oid: Vec<u8>,
    pub new_oid: Vec<u8>,
    pub committer: Vec<u8>,
    pub time: u64,
    pub tz: Vec<u8>,
    pub message: Vec<u8>,
}

pub struct SpecEntry {
    pub old_oid: Seq<u8>,
    pub new_oid: Seq<u8>,
    pub committer: Seq<u8>,
    pub time: u64,
    pub tz: Seq<u8>,
    pub message: Seq<u8>,
}

impl View for ReflogEntry {
    type V = SpecEntry;

    open spec fn view(&self) -> SpecEntry {
        SpecEntry {
            old_oid: self.old_oid@,
            new_oid: self.new_oid@,
            committer: self.committer@,
            time: self.time,
            tz: self.tz@,
            message: self.message@,
        }
    }
}

/// A reflog line together with the reference it belongs to.
pub struct LogRecord {
    pub loc: Location,
    pub entry: ReflogEntry,
}

pub struct SpecLogRecord {
    pub loc: SpecLocation,
    pub entry: SpecEntry,
}

impl View for LogRecord {
    type V = SpecLogRecord;

    open spec fn view(&self) -> SpecLogRecord {
        SpecLogRecord { loc: self.loc@, entry: self.entry@ }
    }
}

/// The reference store as seen from one worktree. The loose layer and the
/// reflogs are journals in write order: for each place the last record
/// counts. The packed table is a snapshot that only `pack` replaces.
pub struct Store {
    /// `None` for the main worktree, else the id of the linked worktree.
    pub current: Option<Vec<u8>>,
    pub loose: Vec<LooseRecord>,
    pub packed: Vec<PackedRef>,
    pub logs: Vec<LogRecord>,
}

pub struct SpecStore {
    pub current: Option<Seq<u8>>,
    pub loose: Seq<SpecLoose>,
    pub packed: Seq<SpecPacked>,
    pub logs: Seq<SpecLogRecord>,
}

impl View for Store {
    type V = SpecStore;

    open spec fn view(&self) -> SpecStore {
        SpecStore {
            current: opt_view(self.current),
            loose: self.loose@.map_values(|r: LooseRecord| r@),
            packed: self.packed@.map_values(|p: PackedRef| p@),
            logs: self.logs@.map_values(|l: LogRecord| l@),
        }
    }
}

/// The latest loose record for `loc`: `Some(None)` where it was removed,
/// `None` where the loose layer never held it.
pub open spec fn loose_record(s: Seq<SpecLoose>, loc: SpecLocation) -> Option<Option<SpecTarget>>
    decreases s.len(),
{
    if s.len() == 0 {
        None
    } else if s.last().loc == loc {
        Some(s.last().target)
    } else {
        loose_record(s.drop_last(), loc)
    }
}

/// The id the packed table gives to `n`.
pub open spec fn packed_id(p: Seq<SpecPacked>, n: Seq<u8>) -> Option<Seq<u8>>
    decreases p.len(),
{
    if p.len() == 0 {
        None
    } else if p.last().name == n {
        Some(p.last().id)
    } else {
        packed_id(p.drop_last(), n)
    }
}

/// The reflog of one place, oldest line first.
pub open spec fn log_of(l: Seq<SpecLogRecord>, loc: SpecLocation) -> Seq<SpecEntry>
    decreases l.len(),
{
    if l.len() == 0 {
        Seq::empty()
    } else if l.last().loc == loc {
        log_of(l.drop_last(), loc).push(l.last().entry)
    } else {
        log_of(l.drop_last(), loc)
    }
}

/// The value stored at `loc`: loose first; a shared, non-private name
/// that the loose layer never held falls back to the packed table.
pub open spec fn find_spec(s: SpecStore, loc: SpecLocation) -> Option<SpecTarget> {
    match loose_record(s.loose, loc) {
        Some(t) => t,
        None => {
            if loc.area == SpecArea::Common && !private_name(loc.name) {
                match packed_id(s.packed, loc.name) {
                    Some(id) => Some(SpecTarget::Peeled(id)),
                    None => None,
                }
            } else {
                None
            }
        },
    }
}

/// Byte-wise equality.
pub fn bytes_eq(a: &[u8], b: &[u8]) -> (r: bool)
    ensures
        r == (a@ == b@),
{
    if a.len() != b.len() {
        return false;
    }
    let mut i: usize = 0;
    while i < a.len()
        invariant
            a@.len() == b@.len(),
            0 <= i <= a@.len(),
            forall|j: int| 0 <= j < i ==> a@[j] == b@[j],
        decreases a@.len() - i,
    {
        if a[i] != b[i] {
            return false;
        }
        i += 1;
    }
    assert(a@ =~= b@);
    true
}

pub fn loc_eq(a: &Location, b: &Location) -> (r: bool)
    ensures
        r == (a@ == b@),
{
    let same_area = match (&a.area, &b.area) {
        (Area::Common, Area::Common) => true,
        (Area::Linked(x), Area::Linked(y)) => bytes_eq(x.as_slice(), y.as_slice()),
        _ => false,
    };
    same_area && bytes_eq(a.name.as_slice(), b.name.as_slice())
}

pub fn copy_bytes(v: &Vec<u8>) -> (r: Vec<u8>)
    ensures
        r@ == v@,
{
    let r = copy_range(v.as_slice(), 0, v.len());
    assert(r@ =~= v@);
    r
}

pub fn copy_target(t: &Target) -> (r: Target)
    ensures
        r@ == t@,
{
    match t {
        Target::Peeled(id) => Target::Peeled(copy_bytes(id)),
        Target::Symbolic(n) => Target::Symbolic(copy_bytes(n)),
    }
}

pub fn copy_location(l: &Location) -> (r: Location)
    ensures
        r@ == l@,
{
    let area = match &l.area {
        Area::Common => Area::Common,
        Area::Linked(id) => Area::Linked(copy_bytes(id)),
    };
    Location { area, name: copy_bytes(&l.name) }
}

impl Store {
    /// A store with nothing in it, seen from worktree `current`.
    pub fn new(current: Option<Vec<u8>>) -> (r: Store)
        ensures
            r@.current == opt_view(current),
            r@.loose.len() == 0,
            r@.packed.len() == 0,
            r@.logs.len() == 0,
    {
        let r = Store { current, loose: Vec::new(), packed: Vec::new(), logs: Vec::new() };
        assert(r@.loose =~= Seq::<SpecLoose>::empty());
        assert(r@.packed =~= Seq::<SpecPacked>::empty());
        assert(r@.logs =~= Seq::<SpecLogRecord>::empty());
        r
    }

    /// The value stored at a resolved place.
    pub fn find_at(&self, loc: &Location) -> (r: Option<Target>)
        ensures
            opt_target(r) == find_spec(self@, loc@),
    {
        let ghost s = self@.loose;
        let mut i: usize = self.loose.len();
        assert(s.take(i as int) =~= s);
        while i > 0
            invariant
                i <= self.loose@.len(),
                s == self@.loose,
                loose_record(s, loc@) == loose_record(s.take(i as int), loc@),
            decreases i,
        {
            assert(s.take(i as int).drop_last() =~= s.take(i - 1));
            let rec = &self.loose[i - 1];
            assert(rec@ == s.take(i as int).last());
            if loc_eq(&rec.loc, loc) {
                return match &rec.target {
                    None => None,
                    Some(t) => Some(copy_target(t)),
                };
            }
            i -= 1;
        }
        assert(s.take(0) =~= Seq::<SpecLoose>::empty());
        let shared = match &loc.area {
            Area::Common => true,
            Area::Linked(_) => false,
        };
        if !shared || is_private(loc.name.as_slice()) {
            return None;
        }
        let ghost p = self@.packed;
        let mut j: usize = self.packed.len();
        assert(p.take(j as int) =~= p);
        while j > 0
            invariant
                j <= self.packed@.len(),
                p == self@.packed,
                loose_record(self@.loose, loc@) is None,
                loc@.area == SpecArea::Common,
                !private_name(loc@.name),
                packed_id(p, loc@.name) == packed_id(p.take(j as int), loc@.name),
            decreases j,
        {
            assert(p.take(j as int).drop_last() =~= p.take(j - 1));
            let e = &self.packed[j - 1];
            assert(e@ == p.take(j as int).last());
            if bytes_eq(e.name.as_slice(), loc.name.as_slice()) {
                return Some(Target::Peeled(copy_bytes(&e.id)));
            }
            j -= 1;
        }
        assert(p.take(0) =~= Seq::<SpecPacked>::empty());
        None
    }

    /// The id that the packed table alone gives a name, as seen from this
    /// store's worktree; names private to a worktree are never there.
    pub fn find_packed(&self, name: &[u8]) -> (r: Option<Vec<u8>>)
        ensures
            match resolve_spec(name@, self@.current) {
                Some(loc) => if loc.area == SpecArea::Common && !private_name(loc.name) {
                    opt_view(r) == packed_id(self@.packed, loc.name)
                } else {
                    r is None
                },
                None => r is None,
            },
    {
        let loc = match resolve(name, &self.current) {
            None => return None,
            Some(loc) => loc,
        };
        let shared = match &loc.area {
            Area::Common => true,
            Area::Linked(_) => false,
        };
        if !shared || is_private(loc.name.as_slice()) {
            return None;
        }
        let ghost p = self@.packed;
        let mut j: usize = self.packed.len();
        assert(p.take(j as int) =~= p);
        while j > 0
            invariant
                j <= self.packed@.len(),
                p == self@.packed,
                packed_id(p, loc@.name) == packed_id(p.take(j as int), loc@.name),
                resolve_spec(name@, self@.current) == Some(loc@),
                loc@.area == SpecArea::Common,
                !private_name(loc@.name),
            decreases j,
        {
            assert(p.take(j as int).drop_last() =~= p.take(j - 1));
            let e = &self.packed[j - 1];
            assert(e@ == p.take(j as int).last());
            if bytes_eq(e.name.as_slice(), loc.name.as_slice()) {
                return Some(copy_bytes(&e.id));
            }
            j -= 1;
        }
        assert(p.take(0) =~= Seq::<SpecPacked>::empty());
        None
    }

    /// Looks a name up as seen from this store's worktree.
    pub fn find(&self, name: &[u8]) -> (r: Result<Target, RefError>)
        ensures
            match resolve_spec(name@, self@.current) {
                None => r == Err::<Target, RefError>(RefError::NameInvalid),
                Some(loc) => match find_spec(self@, loc) {
                    None => r == Err::<Target, RefError>(RefError::NotFound),
                    Some(t) => r is Ok && r->Ok_0@ == t,
                },
            },
    {
        match resolve(name, &self.current) {
            None => Err(RefError::NameInvalid),
            Some(loc) => match self.find_at(&loc) {
                None => Err(RefError::NotFound),
                Some(t) => Ok(t),
            },
        }
    }
}


/// What packing records for `n`: the peeled id that the shared store gives
/// it, and nothing for a name private to a worktree.
pub open spec fn packed_value(s: SpecStore, n: Seq<u8>) -> Option<Seq<u8>> {
    if private_name(n) {
        None
    } else {
        match find_spec(s, SpecLocation { area: SpecArea::Common, name: n }) {
            Some(SpecTarget::Peeled(id)) => Some(id),
            _ => None,
        }
    }
}

pub open spec fn packed_view(v: Seq<PackedRef>) -> Seq<SpecPacked> {
    v.map_values(|p: PackedRef| p@)
}

proof fn lemma_packed_id_some(p: Seq<SpecPacked>, n: Seq<u8>)
    requires
        packed_id(p, n) is Some,
    ensures
        exists|j: int| 0 <= j < p.len() && (#[trigger] p[j]).name == n,
    decreases p.len(),
{
    if p.last().name == n {
        assert(p[p.len() - 1].name == n);
    } else {
        lemma_packed_id_some(p.drop_last(), n);
        let j = choose|j: int| 0 <= j < p.len() - 1 && (#[trigger] p.drop_last()[j]).name == n;
        assert(p[j] == p.drop_last()[j]);
    }
}

proof fn lemma_loose_record_some(l: Seq<SpecLoose>, loc: SpecLocation)
    requires
        loose_record(l, loc) is Some,
    ensures
        exists|j: int| 0 <= j < l.len() && (#[trigger] l[j]).loc == loc,
    decreases l.len(),
{
    if l.last().loc == loc {
        assert(l[l.len() - 1].loc == loc);
    } else {
        lemma_loose_record_some(l.drop_last(), loc);
        let j = choose|j: int| 0 <= j < l.len() - 1 && (#[trigger] l.drop_last()[j]).loc == loc;
        assert(l[j] == l.drop_last()[j]);
    }
}

impl Store {
    fn pack_one(&self, out: &mut Vec<PackedRef>, name: &Vec<u8>)
        requires
            packed_id(packed_view(old(out)@), name@) is None || packed_id(packed_view(old(out)@), name@)
                == packed_value(self@, name@),
        ensures
            forall|n: Seq<u8>|
                #![trigger packed_id(packed_view(final(out)@), n)]
                packed_id(packed_view(final(out)@), n) == if n == name@ {
                    packed_value(self@, n)
                } else {
                    packed_id(packed_view(old(out)@), n)
                },
    {
        let ghost o = packed_view(out@);
        let loc = Location { area: Area::Common, name: copy_bytes(name) };
        if !is_private(name.as_slice()) {
            match self.find_at(&loc) {
                Some(Target::Peeled(id)) => {
                    out.push(PackedRef { name: copy_bytes(name), id, peeled: None });
                    assert(packed_view(out@) =~= o.push(out@.last()@));
                    assert(packed_view(out@).drop_last() =~= o);
                    return;
                },
                _ => {},
            }
        }
    }

    /// Writes a new packed table that holds every shared, peeled
    /// reference as `find` sees it, and never a worktree-private name. The
    /// loose layer and the reflogs stay as they are.
    pub fn pack(&mut self)
        ensures
            final(self)@.current == old(self)@.current,
            final(self)@.loose == old(self)@.loose,
            final(self)@.logs == old(self)@.logs,
            forall|n: Seq<u8>| #[trigger] packed_id(final(self)@.packed, n) == packed_value(old(self)@, n),
            strictly_sorted(final(self)@.packed),
    {
        let ghost s = self@;
        let mut out: Vec<PackedRef> = Vec::new();
        assert(packed_view(out@) =~= Seq::<SpecPacked>::empty());
        let mut i: usize = 0;
        while i < self.packed.len()
            invariant
                0 <= i <= self.packed@.len(),
                s == self@,
                forall|n: Seq<u8>|
                    #![trigger packed_id(packed_view(out@), n)]
                    packed_id(packed_view(out@), n) == if exists|j: int|
                        0 <= j < i && (#[trigger] s.packed[j]).name == n {
                        packed_value(s, n)
                    } else {
                        None
                    },
            decreases self.packed@.len() - i,
        {
            let ghost prev = out@;
            let ghost m = self.packed[i as int].name@;
            assert(s.packed[i as int].name == m);
            self.pack_one(&mut out, &self.packed[i].name);
            assert forall|n: Seq<u8>|
                #![trigger packed_id(packed_view(out@), n)]
                packed_id(packed_view(out@), n) == if exists|j: int|
                    0 <= j < i + 1 && (#[trigger] s.packed[j]).name == n {
                    packed_value(s, n)
                } else {
                    None
                } by {
                if n != m {
                    if exists|j: int| 0 <= j < i + 1 && (#[trigger] s.packed[j]).name == n {
                        let j = choose|j: int| 0 <= j < i + 1 && (#[trigger] s.packed[j]).name == n;
                        assert(j < i);
                    }
                    assert(packed_id(packed_view(prev), n) == packed_id(packed_view(out@), n));
                }
            }
            i += 1;
        }
        let mut k: usize = 0;
        while k < self.loose.len()
            invariant
                0 <= k <= self.loose@.len(),
                s == self@,
                forall|n: Seq<u8>|
                    #![trigger packed_id(packed_view(out@), n)]
                    packed_id(packed_view(out@), n) == if (exists|j: int|
                        0 <= j < s.packed.len() && (#[trigger] s.packed[j]).name == n) || (exists|j: int|
                        0 <= j < k && (#[trigger] s.loose[j]).loc == (SpecLocation { area: SpecArea::Common, name: n })) {
                        packed_value(s, n)
                    } else {
                        None
                    },
            decreases self.loose@.len() - k,
        {
            let ghost prev = out@;
            let rec = &self.loose[k];
            assert(s.loose[k as int] == rec@);
            match &rec.loc.area {
                Area::Common => {
                    let ghost m = rec.loc.name@;
                    self.pack_one(&mut out, &rec.loc.name);
                    assert forall|n: Seq<u8>|
                        #![trigger packed_id(packed_view(out@), n)]
                        packed_id(packed_view(out@), n) == if (exists|j: int|
                            0 <= j < s.packed.len() && (#[trigger] s.packed[j]).name == n) || (exists|j: int|
                            0 <= j < k + 1 && (#[trigger] s.loose[j]).loc == (SpecLocation { area: SpecArea::Common, name: n })) {
                            packed_value(s, n)
                        } else {
                            None
                        } by {
                        if n != m {
                            if exists|j: int| 0 <= j < k + 1 && (#[trigger] s.loose[j]).loc == (SpecLocation { area: SpecArea::Common, name: n }) {
                                let j = choose|j: int| 0 <= j < k + 1 && (#[trigger] s.loose[j]).loc == (SpecLocation { area: SpecArea::Common, name: n });
                                assert(j < k);
                            }
                            assert(packed_id(packed_view(prev), n) == packed_id(packed_view(out@), n));
                        } else {
                            assert(s.loose[k as int].loc == (SpecLocation { area: SpecArea::Common, name: n }));
                        }
                    }
                },
                Area::Linked(_) => {
                    assert forall|n: Seq<u8>|
                        #![trigger packed_id(packed_view(out@), n)]
                        packed_id(packed_view(out@), n) == if (exists|j: int|
                            0 <= j < s.packed.len() && (#[trigger] s.packed[j]).name == n) || (exists|j: int|
                            0 <= j < k + 1 && (#[trigger] s.loose[j]).loc == (SpecLocation { area: SpecArea::Common, name: n })) {
                            packed_value(s, n)
                        } else {
                            None
                        } by {
                        if exists|j: int| 0 <= j < k + 1 && (#[trigger] s.loose[j]).loc == (SpecLocation { area: SpecArea::Common, name: n }) {
                            let j = choose|j: int| 0 <= j < k + 1 && (#[trigger] s.loose[j]).loc == (SpecLocation { area: SpecArea::Common, name: n });
                            assert(j < k);
                        }
                    }
                },
            }
            k += 1;
        }
        assert forall|n: Seq<u8>| #[trigger] packed_id(packed_view(out@), n) == packed_value(s, n) by {
            let loc = SpecLocation { area: SpecArea::Common, name: n };
            if packed_value(s, n) is Some {
                if loose_record(s.loose, loc) is Some {
                    lemma_loose_record_some(s.loose, loc);
                } else {
                    lemma_packed_id_some(s.packed, n);
                }
            }
        }
        self.packed = sort_table(out);
    }
}

/// Names strictly ascending: sorted, and no name twice.
pub open spec fn strictly_sorted(p: Seq<SpecPacked>) -> bool {
    forall|a: int, b: int| 0 <= a < b < p.len() ==> lex_lt(#[trigger] p[a].name, #[trigger] p[b].name)
}

pub proof fn lemma_lex_irreflexive(a: Seq<u8>)
    ensures
        !lex_lt(a, a),
    decreases a.len(),
{
    if a.len() > 0 {
        lemma_lex_irreflexive(a.drop_first());
    }
}

pub proof fn lemma_lex_transitive(a: Seq<u8>, b: Seq<u8>, c: Seq<u8>)
    requires
        lex_lt(a, b),
        lex_lt(b, c),
    ensures
        lex_lt(a, c),
    decreases a.len(),
{
    if a.len() > 0 && b.len() > 0 && c.len() > 0 && a[0] == b[0] && b[0] == c[0] {
        lemma_lex_transitive(a.drop_first(), b.drop_first(), c.drop_first());
    }
}

pub proof fn lemma_lex_total(a: Seq<u8>, b: Seq<u8>)
    requires
        a != b,
        !lex_lt(a, b),
    ensures
        lex_lt(b, a),
    decreases a.len(),
{
    if a.len() > 0 && b.len() > 0 && a[0] == b[0] {
        if a.drop_first() == b.drop_first() {
            assert(a =~= seq![a[0]] + a.drop_first());
            assert(b =~= seq![b[0]] + b.drop_first());
        }
        lemma_lex_total(a.drop_first(), b.drop_first());
    } else if a.len() == 0 && b.len() == 0 {
        assert(a =~= b);
    }
}

/// In a table with strictly ascending names, the id of a name is that of
/// the one entry that carries it.
proof fn lemma_sorted_lookup(p: Seq<SpecPacked>, n: Seq<u8>)
    requires
        strictly_sorted(p),
    ensures
        forall|j: int| 0 <= j < p.len() && (#[trigger] p[j]).name == n ==> packed_id(p, n) == Some(p[j].id),
        (forall|j: int| 0 <= j < p.len() ==> (#[trigger] p[j]).name != n) ==> packed_id(p, n) is None,
    decreases p.len(),
{
    if p.len() > 0 {
        let q = p.drop_last();
        assert(strictly_sorted(q)) by {
            assert forall|a: int, b: int| 0 <= a < b < q.len() implies lex_lt(#[trigger] q[a].name, #[trigger] q[b].name) by {
                assert(q[a] == p[a] && q[b] == p[b]);
            }
        }
        lemma_sorted_lookup(q, n);
        assert forall|j: int| 0 <= j < p.len() && (#[trigger] p[j]).name == n implies packed_id(p, n) == Some(p[j].id) by {
            if j < p.len() - 1 {
                assert(lex_lt(p[j].name, p[p.len() - 1].name));
                if p.last().name == n {
                    lemma_lex_irreflexive(n);
                }
                assert(q[j] == p[j]);
            }
        }
        if forall|j: int| 0 <= j < p.len() ==> (#[trigger] p[j]).name != n {
            assert(p[p.len() - 1].name != n);
            assert forall|j: int| 0 <= j < q.len() implies (#[trigger] q[j]).name != n by {
                assert(q[j] == p[j]);
            }
        }
    }
}

/// Orders a table by name and keeps one entry per name: the last one,
/// which is the one that lookups already saw.
pub fn sort_table(table: Vec<PackedRef>) -> (r: Vec<PackedRef>)
    ensures
        strictly_sorted(packed_view(r@)),
        forall|n: Seq<u8>| #[trigger] packed_id(packed_view(r@), n) == packed_id(packed_view(table@), n),
{
    let ghost tv = packed_view(table@);
    let mut out: Vec<PackedRef> = Vec::new();
    let mut rest = table;
    assert(packed_view(rest@) =~= tv.subrange(0, tv.len() as int));
    assert(packed_view(out@) =~= Seq::<SpecPacked>::empty());
    let mut i: usize = 0;
    let n_all = rest.len();
    while rest.len() > 0
        invariant
            n_all == tv.len(),
            i + rest@.len() == n_all,
            packed_view(rest@) == tv.subrange(i as int, n_all as int),
            strictly_sorted(packed_view(out@)),
            forall|n: Seq<u8>| #[trigger] packed_id(packed_view(out@), n) == packed_id(tv.take(i as int), n),
        decreases rest@.len(),
    {
        let ghost rv = packed_view(rest@);
        let ghost old_rest = rest@;
        let e = rest.remove(0);
        assert(e@ == rv[0]);
        assert(e@ == tv[i as int]);
        assert forall|j: int| 0 <= j < rest@.len() implies (#[trigger] packed_view(rest@)[j]) == tv.subrange(i + 1, n_all as int)[j] by {
            assert(rest@[j] == old_rest[j + 1]);
            assert(rv[j + 1] == tv[i + 1 + j]);
        }
        assert(packed_view(rest@) =~= tv.subrange(i + 1, n_all as int));
        let ghost ov = packed_view(out@);
        let ghost ev = e@;
        let mut k: usize = 0;
        while k < out.len() && name_lt(&out[k].name, &e.name)
            invariant
                k <= out@.len(),
                ov == packed_view(out@),
                ev == e@,
                forall|j: int| 0 <= j < k ==> lex_lt((#[trigger] ov[j]).name, ev.name),
            decreases out@.len() - k,
        {
            k += 1;
        }
        let same = k < out.len() && crate::store::bytes_eq(out[k].name.as_slice(), e.name.as_slice());
        if same {
            out.set(k, e);
        } else {
            out.insert(k, e);
        }
        proof {
            let nv = packed_view(out@);
            if same {
                assert(nv =~= ov.update(k as int, ev));
            } else {
                assert(nv =~= ov.insert(k as int, ev));
                if k < ov.len() {
                    lemma_lex_total(ov[k as int].name, ev.name);
                }
            }
            assert(strictly_sorted(nv)) by {
                assert forall|a: int, b: int| 0 <= a < b < nv.len() implies lex_lt(#[trigger] nv[a].name, #[trigger] nv[b].name) by {
                    if same {
                        if a == k && b > k {
                            assert(lex_lt(ov[a].name, ov[b].name));
                        } else if b == k && a < k {
                            assert(lex_lt(ov[a].name, ev.name));
                        }
                    } else {
                        if a < k && b == k {
                        } else if a == k && b > k {
                            assert(nv[b] == ov[b - 1]);
                            if b - 1 > k {
                                assert(lex_lt(ov[k as int].name, ov[b - 1].name));
                                lemma_lex_transitive(ev.name, ov[k as int].name, ov[b - 1].name);
                            }
                        } else if a < k && b > k {
                            assert(nv[a] == ov[a] && nv[b] == ov[b - 1]);
                        } else if a > k {
                            assert(nv[a] == ov[a - 1] && nv[b] == ov[b - 1]);
                        }
                    }
                }
            }
            assert(tv.take(i + 1).drop_last() =~= tv.take(i as int));
            assert(tv.take(i + 1).last() == ev);
            assert forall|n: Seq<u8>| #[trigger] packed_id(nv, n) == packed_id(tv.take(i + 1), n) by {
                lemma_sorted_lookup(nv, n);
                lemma_sorted_lookup(ov, n);
                if n == ev.name {
                    assert(nv[k as int] == ev);
                } else {
                    assert(packed_id(ov, n) == packed_id(tv.take(i as int), n));
                    if exists|j: int| 0 <= j < ov.len() && (#[trigger] ov[j]).name == n {
                        let j = choose|j: int| 0 <= j < ov.len() && (#[trigger] ov[j]).name == n;
                        if same {
                            assert(j != k);
                            assert(nv[j] == ov[j]);
                        } else if j < k {
                            assert(nv[j] == ov[j]);
                        } else {
                            assert(nv[j + 1] == ov[j]);
                        }
                    } else {
                        assert forall|j: int| 0 <= j < nv.len() implies (#[trigger] nv[j]).name != n by {
                            if same {
                                if j != k {
                                    assert(nv[j] == ov[j]);
                                }
                            } else if j < k {
                                assert(nv[j] == ov[j]);
                            } else if j > k {
                                assert(nv[j] == ov[j - 1]);
                            }
                        }
                    }
                }
            }
        }
        i += 1;
    }
    assert(tv.take(n_all as int) =~= tv);
    out
}

} // verus!

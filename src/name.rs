use vstd::prelude::*;

verus! {

/// A byte that may never appear in a reference name.
pub open spec fn is_control(b: u8) -> bool {
    b < 0x20 || b == 0x7f
}

/// A full reference name: non-empty, slash-separated, without empty
/// components, without `..`, without control characters and without a
/// leading or trailing slash.
pub open spec fn valid_name(s: Seq<u8>) -> bool {
    &&& s.len() > 0
    &&& s[0] != 47u8
    &&& s[s.len() - 1] != 47u8
    &&& forall|i: int| 0 <= i < s.len() ==> !is_control(#[trigger] s[i])
    &&& forall|i: int|
        0 <= i < s.len() - 1 ==> !(#[trigger] s[i] == 47u8 && s[i + 1] == 47u8)
    &&& forall|i: int|
        0 <= i < s.len() - 1 ==> !(#[trigger] s[i] == 46u8 && s[i + 1] == 46u8)
}

/// Checks the structural rules of a full reference name.
pub fn is_valid_name(s: &[u8]) -> (r: bool)
    ensures
        r == valid_name(s@),
{
    let n = s.len();
    if n == 0 || s[0] == 47u8 || s[n - 1] == 47u8 {
        return false;
    }
    let mut i: usize = 0;
    while i < n
        invariant
            n == s@.len(),
            0 <= i <= n,
            forall|j: int| 0 <= j < i ==> !is_control(#[trigger] s@[j]),
            forall|j: int| 0 <= j < i && j < n - 1 ==> !(#[trigger] s@[j] == 47u8 && s@[j + 1] == 47u8),
            forall|j: int| 0 <= j < i && j < n - 1 ==> !(#[trigger] s@[j] == 46u8 && s@[j + 1] == 46u8),
        decreases n - i,
    {
        let b = s[i];
        if b < 0x20 || b == 0x7f {
            assert(is_control(s@[i as int]));
            return false;
        }
        if i + 1 < n {
            let c = s[i + 1];
            if (b == 47u8 && c == 47u8) || (b == 46u8 && c == 46u8) {
                return false;
            }
        }
        i += 1;
    }
    true
}

/// Whether `p` is a prefix of `s`.
pub open spec fn has_prefix(s: Seq<u8>, p: Seq<u8>) -> bool {
    p.len() <= s.len() && s.subrange(0, p.len() as int) == p
}

/// Tests whether `p` is a prefix of `s`.
pub fn starts_with(s: &[u8], p: &[u8]) -> (r: bool)
    ensures
        r == has_prefix(s@, p@),
{
    if p.len() > s.len() {
        return false;
    }
    let mut i: usize = 0;
    while i < p.len()
        invariant
            p@.len() <= s@.len(),
            0 <= i <= p@.len(),
            forall|j: int| 0 <= j < i ==> s@[j] == p@[j],
        decreases p@.len() - i,
    {
        if s[i] != p[i] {
            assert(s@.subrange(0, p@.len() as int)[i as int] != p@[i as int]);
            return false;
        }
        i += 1;
    }
    assert(s@.subrange(0, p@.len() as int) =~= p@);
    true
}

pub open spec fn head_name() -> Seq<u8> {
    seq![72u8, 69, 65, 68]
}

pub open spec fn bisect_prefix() -> Seq<u8> {
    seq![114u8, 101, 102, 115, 47, 98, 105, 115, 101, 99, 116, 47]
}

pub open spec fn worktree_refs_prefix() -> Seq<u8> {
    seq![114u8, 101, 102, 115, 47, 119, 111, 114, 107, 116, 114, 101, 101, 47]
}

pub open spec fn main_worktree_prefix() -> Seq<u8> {
    seq![109u8, 97, 105, 110, 45, 119, 111, 114, 107, 116, 114, 101, 101, 47]
}

pub open spec fn worktrees_prefix() -> Seq<u8> {
    seq![119u8, 111, 114, 107, 116, 114, 101, 101, 115, 47]
}

/// Names that each worktree keeps for itself: `HEAD`, `refs/bisect/*`
/// and `refs/worktree/*`.
pub open spec fn private_name(n: Seq<u8>) -> bool {
    n == head_name() || has_prefix(n, bisect_prefix()) || has_prefix(n, worktree_refs_prefix())
}

/// Tests whether a name is private to a worktree.
pub fn is_private(n: &[u8]) -> (r: bool)
    ensures
        r == private_name(n@),
{
    let head: [u8; 4] = [72, 69, 65, 68];
    let bisect: [u8; 12] = [114, 101, 102, 115, 47, 98, 105, 115, 101, 99, 116, 47];
    let wt: [u8; 14] = [114, 101, 102, 115, 47, 119, 111, 114, 107, 116, 114, 101, 101, 47];
    assert(head@ =~= head_name());
    assert(bisect@ =~= bisect_prefix());
    assert(wt@ =~= worktree_refs_prefix());
    let is_head = n.len() == 4 && starts_with(n, head.as_slice());
    if is_head {
        assert(n@ =~= n@.subrange(0, 4));
    }
    proof {
        if !is_head && n@ == head_name() {
            assert(n@.subrange(0, 4) =~= n@);
        }
    }
    is_head || starts_with(n, bisect.as_slice()) || starts_with(n, wt.as_slice())
}

/// Where a reference file lives: in the directory shared by all worktrees
/// (which is also the main worktree's own), or in the private directory of
/// the linked worktree with the given id.
pub enum Area {
    Common,
    Linked(Vec<u8>),
}

pub enum SpecArea {
    Common,
    Linked(Seq<u8>),
}

impl View for Area {
    type V = SpecArea;

    open spec fn view(&self) -> SpecArea {
        match self {
            Area::Common => SpecArea::Common,
            Area::Linked(id) => SpecArea::Linked(id@),
        }
    }
}

/// The canonical storage place of a reference: an area and the name
/// within it.
pub struct Location {
    pub area: Area,
    pub name: Vec<u8>,
}

pub struct SpecLocation {
    pub area: SpecArea,
    pub name: Seq<u8>,
}

impl View for Location {
    type V = SpecLocation;

    open spec fn view(&self) -> SpecLocation {
        SpecLocation { area: self.area@, name: self.name@ }
    }
}

/// The first index at or after `i` that holds byte `b`, or the length.
pub open spec fn first_from(s: Seq<u8>, b: u8, i: int) -> int
    decreases s.len() - i,
{
    if i >= s.len() {
        s.len() as int
    } else if s[i] == b {
        i
    } else {
        first_from(s, b, i + 1)
    }
}

/// The search never goes back before where it started.
pub proof fn lemma_first_from_ge(s: Seq<u8>, b: u8, i: int)
    requires
        0 <= i <= s.len(),
    ensures
        first_from(s, b, i) >= i,
    decreases s.len() - i,
{
    if i < s.len() && s[i] != b {
        lemma_first_from_ge(s, b, i + 1);
    }
}

/// How a requested name is resolved from the worktree `current`
/// (`None` for the main worktree, else the linked worktree's id).
pub open spec fn resolve_spec(n: Seq<u8>, current: Option<Seq<u8>>) -> Option<SpecLocation> {
    if !valid_name(n) {
        None
    } else if has_prefix(n, main_worktree_prefix()) {
        Some(SpecLocation { area: SpecArea::Common, name: n.subrange(14, n.len() as int) })
    } else if has_prefix(n, worktrees_prefix()) && first_from(n, 47u8, 10) < n.len() {
        let k = first_from(n, 47u8, 10);
        let id = n.subrange(10, k);
        let rest = n.subrange(k + 1, n.len() as int);
        if private_name(rest) {
            Some(SpecLocation { area: SpecArea::Linked(id), name: rest })
        } else {
            Some(SpecLocation { area: SpecArea::Common, name: rest })
        }
    } else if private_name(n) {
        match current {
            None => Some(SpecLocation { area: SpecArea::Common, name: n }),
            Some(id) => Some(SpecLocation { area: SpecArea::Linked(id), name: n }),
        }
    } else {
        Some(SpecLocation { area: SpecArea::Common, name: n })
    }
}

pub open spec fn opt_view(o: Option<Vec<u8>>) -> Option<Seq<u8>> {
    match o {
        None => None,
        Some(v) => Some(v@),
    }
}

/// A fresh vector holding `s[lo..hi]`.
pub fn copy_range(s: &[u8], lo: usize, hi: usize) -> (r: Vec<u8>)
    requires
        lo <= hi <= s@.len(),
    ensures
        r@ == s@.subrange(lo as int, hi as int),
{
    let mut r: Vec<u8> = Vec::new();
    let mut i: usize = lo;
    while i < hi
        invariant
            lo <= i <= hi <= s@.len(),
            r@ == s@.subrange(lo as int, i as int),
        decreases hi - i,
    {
        r.push(s[i]);
        i += 1;
        assert(r@ =~= s@.subrange(lo as int, i as int));
    }
    r
}

/// Maps a requested name, seen from worktree `current` (`None` for
/// the main worktree), into the place where the reference is stored.
/// Performs no I/O; fails only on a malformed name.
pub fn resolve(n: &[u8], current: &Option<Vec<u8>>) -> (r: Option<Location>)
    ensures
        match r {
            None => resolve_spec(n@, opt_view(*current)) is None,
            Some(loc) => resolve_spec(n@, opt_view(*current)) == Some(loc@),
        },
{
    if !is_valid_name(n) {
        return None;
    }
    let mw: [u8; 14] = [109, 97, 105, 110, 45, 119, 111, 114, 107, 116, 114, 101, 101, 47];
    let wts: [u8; 10] = [119, 111, 114, 107, 116, 114, 101, 101, 115, 47];
    assert(mw@ =~= main_worktree_prefix());
    assert(wts@ =~= worktrees_prefix());
    if starts_with(n, mw.as_slice()) {
        let rest = copy_range(n, 14, n.len());
        return Some(Location { area: Area::Common, name: rest });
    }
    if starts_with(n, wts.as_slice()) {
        let mut k: usize = 10;
        while k < n.len() && n[k] != 47
            invariant
                10 <= k <= n@.len(),
                first_from(n@, 47u8, 10) == first_from(n@, 47u8, k as int),
            decreases n@.len() - k,
        {
            k += 1;
        }
        if k < n.len() {
            let id = copy_range(n, 10, k);
            let rest = copy_range(n, k + 1, n.len());
            if is_private(rest.as_slice()) {
                return Some(Location { area: Area::Linked(id), name: rest });
            } else {
                return Some(Location { area: Area::Common, name: rest });
            }
        }
    }
    let name = copy_range(n, 0, n.len());
    assert(name@ =~= n@);
    if is_private(n) {
        match current {
            None => Some(Location { area: Area::Common, name }),
            Some(id) => Some(Location { area: Area::Linked(id.clone()), name }),
        }
    } else {
        Some(Location { area: Area::Common, name })
    }
}

} // verus!

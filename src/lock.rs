use vstd::prelude::*;

use crate::name::{worktrees_prefix, Area, Location, SpecArea, SpecLocation};
use crate::store::{bytes_eq, copy_bytes, lemma_lex_total, lemma_lex_transitive};
use crate::tree::{lex_lt, name_lt};

verus! {

/// The path of a place relative to the common directory: the name itself,
/// or `worktrees/<id>/<name>` for a linked worktree's private area.
pub open spec fn canonical_path(l: SpecLocation) -> Seq<u8> {
    match l.area {
        SpecArea::Common => l.name,
        SpecArea::Linked(id) => worktrees_prefix() + id + seq![47u8] + l.name,
    }
}

pub fn path_of(l: &Location) -> (r: Vec<u8>)
    ensures
        r@ == canonical_path(l@),
{
    match &l.area {
        Area::Common => copy_bytes(&l.name),
        Area::Linked(id) => {
            let mut out: Vec<u8> = Vec::new();
            let wts: [u8; 10] = [119, 111, 114, 107, 116, 114, 101, 101, 115, 47];
            assert(wts@ =~= worktrees_prefix());
            let mut i: usize = 0;
            while i < 10
                invariant
                    i <= 10,
                    wts@ == worktrees_prefix(),
                    out@ == wts@.subrange(0, i as int),
                decreases 10 - i,
            {
                out.push(wts[i]);
                i += 1;
                assert(out@ =~= wts@.subrange(0, i as int));
            }
            let mut j: usize = 0;
            while j < id.len()
                invariant
                    j <= id@.len(),
                    out@ == worktrees_prefix() + id@.subrange(0, j as int),
                decreases id@.len() - j,
            {
                out.push(id[j]);
                j += 1;
                assert(out@ =~= worktrees_prefix() + id@.subrange(0, j as int));
            }
            out.push(47);
            let mut k: usize = 0;
            assert(out@ =~= worktrees_prefix() + id@ + seq![47u8] + l.name@.subrange(0, 0));
            while k < l.name.len()
                invariant
                    k <= l.name@.len(),
                    out@ == worktrees_prefix() + id@ + seq![47u8] + l.name@.subrange(0, k as int),
                decreases l.name@.len() - k,
            {
                out.push(l.name[k]);
                k += 1;
                assert(out@ =~= worktrees_prefix() + id@ + seq![47u8] + l.name@.subrange(0, k as int));
            }
            assert(l.name@.subrange(0, l.name@.len() as int) =~= l.name@);
            out
        },
    }
}

pub open spec fn strictly_ascending(p: Seq<Seq<u8>>) -> bool {
    forall|a: int, b: int| 0 <= a < b < p.len() ==> lex_lt(#[trigger] p[a], #[trigger] p[b])
}

pub open spec fn holds_path(v: Seq<Seq<u8>>, p: Seq<u8>) -> bool {
    exists|j: int| 0 <= j < v.len() && v[j] == p
}

/// Whether one of the first `n` places has path `p`.
pub open spec fn touches(locs: Seq<Location>, n: int, p: Seq<u8>) -> bool {
    exists|m: int| 0 <= m < n && canonical_path(#[trigger] locs[m]@) == p
}

pub open spec fn vec_views(v: Seq<Vec<u8>>) -> Seq<Seq<u8>> {
    v.map_values(|x: Vec<u8>| x@)
}

/// The order in which a transaction takes its locks: the canonical path of
/// every place it touches, each once, in ascending byte order, so that two
/// transactions that touch common places take their locks in one order.
pub fn lock_order(locs: &Vec<Location>) -> (r: Vec<Vec<u8>>)
    ensures
        strictly_ascending(vec_views(r@)),
        forall|p: Seq<u8>|
            #![trigger holds_path(vec_views(r@), p)]
            #![trigger touches(locs@, locs@.len() as int, p)]
            holds_path(vec_views(r@), p) == touches(locs@, locs@.len() as int, p),
{
    let mut out: Vec<Vec<u8>> = Vec::new();
    let mut i: usize = 0;
    assert(vec_views(out@) =~= Seq::<Seq<u8>>::empty());
    while i < locs.len()
        invariant
            i <= locs@.len(),
            strictly_ascending(vec_views(out@)),
            forall|p: Seq<u8>|
                #![trigger holds_path(vec_views(out@), p)]
                #![trigger touches(locs@, i as int, p)]
                holds_path(vec_views(out@), p) == touches(locs@, i as int, p),
        decreases locs@.len() - i,
    {
        let path = path_of(&locs[i]);
        let ghost ov = vec_views(out@);
        let ghost pv = path@;
        let mut k: usize = 0;
        while k < out.len() && name_lt(&out[k], &path)
            invariant
                k <= out@.len(),
                ov == vec_views(out@),
                pv == path@,
                forall|j: int| 0 <= j < k ==> lex_lt(#[trigger] ov[j], pv),
            decreases out@.len() - k,
        {
            k += 1;
        }
        let same = k < out.len() && bytes_eq(out[k].as_slice(), path.as_slice());
        if !same {
            out.insert(k, path);
        }
        proof {
            let nv = vec_views(out@);
            assert(canonical_path(locs@[i as int]@) == pv);
            if same {
                assert(nv =~= ov);
                assert(ov[k as int] == pv);
            } else {
                assert(nv =~= ov.insert(k as int, pv));
                if k < ov.len() {
                    lemma_lex_total(ov[k as int], pv);
                }
                assert forall|a: int, b: int| 0 <= a < b < nv.len() implies lex_lt(#[trigger] nv[a], #[trigger] nv[b]) by {
                    if a < k && b == k {
                    } else if a == k && b > k {
                        assert(nv[b] == ov[b - 1]);
                        if b - 1 > k {
                            assert(lex_lt(ov[k as int], ov[b - 1]));
                            lemma_lex_transitive(pv, ov[k as int], ov[b - 1]);
                        }
                    } else if a < k && b > k {
                        assert(nv[a] == ov[a] && nv[b] == ov[b - 1]);
                    } else if a > k {
                        assert(nv[a] == ov[a - 1] && nv[b] == ov[b - 1]);
                    }
                }
            }
            assert forall|p: Seq<u8>|
                #![trigger holds_path(nv, p)]
                #![trigger touches(locs@, i + 1, p)]
                holds_path(nv, p) == touches(locs@, i + 1, p) by {
                if touches(locs@, i + 1, p) {
                    let m = choose|m: int| 0 <= m < i + 1 && canonical_path(#[trigger] locs@[m]@) == p;
                    if m < i {
                        assert(touches(locs@, i as int, p));
                        assert(holds_path(ov, p));
                        let j = choose|j: int| 0 <= j < ov.len() && ov[j] == p;
                        if same || j < k {
                            assert(nv[j] == p);
                        } else {
                            assert(nv[j + 1] == p);
                        }
                    } else {
                        assert(nv[k as int] == p);
                    }
                }
                if holds_path(nv, p) {
                    let j = choose|j: int| 0 <= j < nv.len() && nv[j] == p;
                    if same {
                        if j == k {
                            assert(canonical_path(locs@[i as int]@) == p);
                        } else {
                            assert(ov[j] == p);
                            assert(holds_path(ov, p));
                            assert(touches(locs@, i as int, p));
                            let m = choose|m: int| 0 <= m < i && canonical_path(#[trigger] locs@[m]@) == p;
                            assert(canonical_path(locs@[m]@) == p);
                        }
                    } else if j == k {
                        assert(canonical_path(locs@[i as int]@) == p);
                    } else {
                        if j < k {
                            assert(ov[j] == p);
                        } else {
                            assert(ov[j - 1] == p);
                        }
                        assert(holds_path(ov, p));
                        assert(touches(locs@, i as int, p));
                        let m = choose|m: int| 0 <= m < i && canonical_path(#[trigger] locs@[m]@) == p;
                        assert(canonical_path(locs@[m]@) == p);
                    }
                }
            }
        }
        i += 1;
    }
    out
}

} // verus!

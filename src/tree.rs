use vstd::prelude::*;

use crate::name::{copy_range, first_from};

verus! {

/// One node of the cached tree extension: a directory's path component,
/// the number of index entries it covers, its tree id and its subtrees.
pub struct Tree {
    pub id: Vec<u8>,
    pub num_entries: u32,
    pub name: Vec<u8>,
    pub children: Vec<Tree>,
}

pub struct SpecTree {
    pub id: Seq<u8>,
    pub num_entries: u32,
    pub name: Seq<u8>,
    pub children: Seq<SpecTree>,
}

pub open spec fn tree_view(t: Tree) -> SpecTree
    decreases t,
{
    SpecTree {
        id: t.id@,
        num_entries: t.num_entries,
        name: t.name@,
        children: Seq::new(
            t.children@.len(),
            |i: int|
                if 0 <= i < t.children@.len() {
                    tree_view(t.children@[i])
                } else {
                    SpecTree { id: Seq::empty(), num_entries: 0, name: Seq::empty(), children: Seq::empty() }
                },
        ),
    }
}


pub open spec fn views(v: Seq<Tree>) -> Seq<SpecTree> {
    v.map_values(|t: Tree| tree_view(t))
}

/// Splits at the first `b`: the bytes before it and those after it.
pub open spec fn split_at_byte(d: Seq<u8>, b: u8) -> Option<(Seq<u8>, Seq<u8>)> {
    let k = first_from(d, b, 0);
    if 0 <= k < d.len() {
        Some((d.subrange(0, k), d.subrange(k + 1, d.len() as int)))
    } else {
        None
    }
}

pub open spec fn is_digit(b: u8) -> bool {
    48 <= b <= 57
}

/// How many decimal digits stand at `d[i..]`.
pub open spec fn digit_run(d: Seq<u8>, i: int) -> nat
    decreases d.len() - i,
{
    if i < 0 || i >= d.len() || !is_digit(d[i]) {
        0
    } else {
        1 + digit_run(d, i + 1)
    }
}

/// The value of a string of decimal digits.
pub open spec fn decimal(d: Seq<u8>) -> nat
    decreases d.len(),
{
    if d.len() == 0 {
        0
    } else {
        decimal(d.drop_last()) * 10 + (d.last() - 48) as nat
    }
}

/// What `atoi` reads as a `u64` at the start of `d`: an optional sign, then
/// the longest run of digits after it; nothing where neither a sign nor a
/// digit is there, or where the value does not fit. After a `-` only zero
/// fits.
pub open spec fn atoi_spec(d: Seq<u8>) -> Option<u64> {
    let signed = d.len() > 0 && (d[0] == 43u8 || d[0] == 45u8);
    let o: int = if signed { 1 } else { 0 };
    let k = digit_run(d, o);
    if o + k == 0 {
        None
    } else {
        let v = decimal(d.subrange(o, o + k));
        if signed && d[0] == 45u8 {
            if v == 0 {
                Some(0)
            } else {
                None
            }
        } else if v <= u64::MAX {
            Some(v as u64)
        } else {
            None
        }
    }
}

/// Relies on `atoi::atoi::<u64>`: it reads an optional sign and the digits
/// after it, checks each step for overflow (for an unsigned type, a
/// subtraction below zero too), and gives `None` where that fails or where
/// nothing was read.
#[verifier::external_body]
pub(crate) fn atoi_u64(text: &[u8]) -> (r: Option<u64>)
    ensures
        r == atoi_spec(text@),
{
    atoi::atoi::<u64>(text)
}

/// A count field: the number at its start, where it fits in `max`.
pub open spec fn count_field(d: Seq<u8>, max: nat) -> Option<nat> {
    match atoi_spec(d) {
        Some(v) => if v <= max {
            Some(v as nat)
        } else {
            None
        },
        None => None,
    }
}

/// Byte-wise lexicographic order.
pub open spec fn lex_lt(a: Seq<u8>, b: Seq<u8>) -> bool
    decreases a.len(),
{
    if b.len() == 0 {
        false
    } else if a.len() == 0 {
        true
    } else if a[0] != b[0] {
        a[0] < b[0]
    } else {
        lex_lt(a.drop_first(), b.drop_first())
    }
}

/// Where a node named `n` goes among `s[j..]`: before the first one not
/// ordered before it.
pub open spec fn insert_pos(s: Seq<SpecTree>, n: Seq<u8>, j: int) -> int
    decreases s.len() - j,
{
    if j < 0 || j >= s.len() {
        s.len() as int
    } else if lex_lt(s[j].name, n) {
        insert_pos(s, n, j + 1)
    } else {
        j
    }
}

/// Orders nodes by name, inserting each in turn.
pub open spec fn sort_by_name(s: Seq<SpecTree>) -> Seq<SpecTree>
    decreases s.len(),
{
    if s.len() == 0 {
        s
    } else {
        let rest = sort_by_name(s.drop_last());
        rest.insert(insert_pos(rest, s.last().name, 0), s.last())
    }
}

pub open spec fn has_adjacent_dup(s: Seq<SpecTree>) -> bool {
    exists|i: int| 0 <= i < s.len() - 1 && (#[trigger] s[i]).name == s[i + 1].name
}

/// A node from its fields and its subtrees as read: the subtrees ordered
/// by name, and no node where two share a name.
pub open spec fn finish_node(path: Seq<u8>, ne: nat, id: Seq<u8>, r: Option<(Seq<SpecTree>, Seq<u8>)>) -> Option<(SpecTree, Seq<u8>)> {
    match r {
        None => None,
        Some((kids, rest)) => {
            let sorted = sort_by_name(kids);
            if has_adjacent_dup(sorted) {
                None
            } else {
                Some((SpecTree { id, num_entries: ne as u32, name: path, children: sorted }, rest))
            }
        },
    }
}

/// One node and what follows it: `<path>\0<entries> <subtrees>\n<id>`, then
/// its subtrees. The subtrees come out ordered by name; two with one name
/// make the node invalid. `fuel` bounds the nesting depth.
pub open spec fn parse_tree(d: Seq<u8>, hl: nat, fuel: nat) -> Option<(SpecTree, Seq<u8>)>
    decreases fuel, 1nat, 0nat,
{
    match split_at_byte(d, 0u8) {
        None => None,
        Some((path, d1)) => match split_at_byte(d1, 32u8) {
            None => None,
            Some((ec, d2)) => match count_field(ec, u32::MAX as nat) {
                None => None,
                Some(ne) => match split_at_byte(d2, 10u8) {
                    None => None,
                    Some((sc, d3)) => match count_field(sc, u64::MAX as nat) {
                        None => None,
                        Some(c) => if d3.len() < hl {
                            None
                        } else {
                            finish_node(
                                path,
                                ne,
                                d3.subrange(0, hl as int),
                                parse_children(d3.subrange(hl as int, d3.len() as int), hl, c, fuel),
                            )
                        },
                    },
                },
            },
        },
    }
}

/// `c` nodes one after the other, in the order read.
pub open spec fn parse_children(d: Seq<u8>, hl: nat, c: nat, fuel: nat) -> Option<(Seq<SpecTree>, Seq<u8>)>
    decreases fuel, 0nat, c,
{
    if c == 0 {
        Some((Seq::empty(), d))
    } else if fuel == 0 {
        None
    } else {
        match parse_tree(d, hl, (fuel - 1) as nat) {
            None => None,
            Some((t, r1)) => match parse_children(r1, hl, (c - 1) as nat, fuel) {
                None => None,
                Some((ts, r2)) => Some((seq![t] + ts, r2)),
            },
        }
    }
}

/// A whole tree extension: one node that takes up all of `d`.
pub open spec fn decode_spec(d: Seq<u8>, hl: nat) -> Option<SpecTree> {
    match parse_tree(d, hl, d.len()) {
        Some((t, rest)) => if rest.len() == 0 {
            Some(t)
        } else {
            None
        },
        None => None,
    }
}

pub fn split_pos(data: &[u8], pos: usize, b: u8) -> (r: Option<usize>)
    requires
        pos <= data@.len(),
    ensures
        r is None ==> split_at_byte(data@.subrange(pos as int, data@.len() as int), b) is None,
        r is Some ==> pos <= r->Some_0 < data@.len(),
        r is Some ==> split_at_byte(data@.subrange(pos as int, data@.len() as int), b) == Some(
            (
                data@.subrange(pos as int, r->Some_0 as int),
                data@.subrange(r->Some_0 + 1, data@.len() as int),
            ),
        ),
{
    let ghost sub = data@.subrange(pos as int, data@.len() as int);
    let mut k: usize = pos;
    while k < data.len() && data[k] != b
        invariant
            pos <= k <= data@.len(),
            sub == data@.subrange(pos as int, data@.len() as int),
            first_from(sub, b, 0) == first_from(sub, b, k - pos),
        decreases data@.len() - k,
    {
        assert(sub[k - pos] == data@[k as int]);
        k += 1;
    }
    if k < data.len() {
        assert(sub[k - pos] == data@[k as int]);
        assert(sub.subrange(0, k - pos) =~= data@.subrange(pos as int, k as int));
        assert(sub.subrange(k - pos + 1, sub.len() as int) =~= data@.subrange(k + 1, data@.len() as int));
        Some(k)
    } else {
        None
    }
}

fn count_at(data: &[u8], lo: usize, hi: usize, max: u64) -> (r: Option<u64>)
    requires
        lo <= hi <= data@.len(),
    ensures
        match r {
            None => count_field(data@.subrange(lo as int, hi as int), max as nat) is None,
            Some(v) => count_field(data@.subrange(lo as int, hi as int), max as nat) == Some(v as nat),
        },
{
    let field = copy_range(data, lo, hi);
    match atoi_u64(field.as_slice()) {
        None => None,
        Some(v) => if v <= max {
            Some(v)
        } else {
            None
        },
    }
}

pub fn name_lt(a: &Vec<u8>, b: &Vec<u8>) -> (r: bool)
    ensures
        r == lex_lt(a@, b@),
{
    let mut i: usize = 0;
    assert(a@.subrange(0, a@.len() as int) =~= a@);
    assert(b@.subrange(0, b@.len() as int) =~= b@);
    while i < a.len() && i < b.len() && a[i] == b[i]
        invariant
            i <= a@.len(),
            i <= b@.len(),
            lex_lt(a@, b@) == lex_lt(a@.subrange(i as int, a@.len() as int), b@.subrange(i as int, b@.len() as int)),
        decreases a@.len() - i,
    {
        assert(a@.subrange(i + 1, a@.len() as int) =~= a@.subrange(i as int, a@.len() as int).drop_first());
        assert(b@.subrange(i + 1, b@.len() as int) =~= b@.subrange(i as int, b@.len() as int).drop_first());
        i += 1;
    }
    let ghost sa = a@.subrange(i as int, a@.len() as int);
    let ghost sb = b@.subrange(i as int, b@.len() as int);
    if i == b.len() {
        assert(sb.len() == 0);
        false
    } else if i == a.len() {
        assert(sa.len() == 0);
        true
    } else {
        assert(sa[0] == a@[i as int] && sb[0] == b@[i as int]);
        a[i] < b[i]
    }
}

fn insert_by_name(sorted: &mut Vec<Tree>, t: Tree)
    ensures
        views(final(sorted)@) == views(old(sorted)@).insert(
            insert_pos(views(old(sorted)@), tree_view(t).name, 0),
            tree_view(t),
        ),
{
    let ghost v = views(sorted@);
    let mut j: usize = 0;
    while j < sorted.len() && name_lt(&sorted[j].name, &t.name)
        invariant
            j <= sorted@.len(),
            v == views(sorted@),
            insert_pos(v, t.name@, 0) == insert_pos(v, t.name@, j as int),
        decreases sorted@.len() - j,
    {
        j += 1;
    }
    let ghost tv = tree_view(t);
    sorted.insert(j, t);
    assert(views(sorted@) =~= v.insert(j as int, tv));
}

fn has_dup_names(s: &Vec<Tree>) -> (r: bool)
    ensures
        r == has_adjacent_dup(views(s@)),
{
    let ghost v = views(s@);
    let mut i: usize = 0;
    while s.len() > 0 && i < s.len() - 1
        invariant
            v == views(s@),
            forall|j: int| 0 <= j < i && j < v.len() - 1 ==> (#[trigger] v[j]).name != v[j + 1].name,
        decreases s@.len() - i,
    {
        if crate::store::bytes_eq(s[i].name.as_slice(), s[i + 1].name.as_slice()) {
            assert(v[i as int].name == v[i + 1].name);
            return true;
        }
        i += 1;
    }
    false
}

pub open spec fn prepend_all(k: Seq<SpecTree>, r: Option<(Seq<SpecTree>, Seq<u8>)>) -> Option<(Seq<SpecTree>, Seq<u8>)> {
    match r {
        None => None,
        Some((ts, rest)) => Some((k + ts, rest)),
    }
}

/// Reads one node at `data[pos..]`, with its subtrees, and where it ends.
pub fn one_recursive(data: &[u8], pos: usize, hash_len: usize, fuel: usize) -> (r: Option<(Tree, usize)>)
    requires
        pos <= data@.len(),
    ensures
        match r {
            None => parse_tree(data@.subrange(pos as int, data@.len() as int), hash_len as nat, fuel as nat) is None,
            Some((t, end)) => pos <= end <= data@.len() && parse_tree(
                data@.subrange(pos as int, data@.len() as int),
                hash_len as nat,
                fuel as nat,
            ) == Some((tree_view(t), data@.subrange(end as int, data@.len() as int))),
        },
    decreases fuel,
{
    let ghost d = data@.subrange(pos as int, data@.len() as int);
    let ghost len = data@.len() as int;
    let n = data.len();
    let k0 = match split_pos(data, pos, 0) {
        None => return None,
        Some(k) => k,
    };
    let k1 = match split_pos(data, k0 + 1, 32) {
        None => return None,
        Some(k) => k,
    };
    let ne = match count_at(data, k0 + 1, k1, 0xffff_ffff) {
        None => return None,
        Some(v) => v,
    };
    let k2 = match split_pos(data, k1 + 1, 10) {
        None => return None,
        Some(k) => k,
    };
    let c = match count_at(data, k1 + 1, k2, 0xffff_ffff_ffff_ffff) {
        None => return None,
        Some(v) => v,
    };
    if data.len() - (k2 + 1) < hash_len {
        return None;
    }
    let id = copy_range(data, k2 + 1, k2 + 1 + hash_len);
    let path = copy_range(data, pos, k0);
    let ghost d3 = data@.subrange(k2 + 1, len);
    assert(d3.subrange(0, hash_len as int) =~= data@.subrange(k2 + 1, k2 + 1 + hash_len));
    assert(d3.subrange(hash_len as int, d3.len() as int) =~= data@.subrange(k2 + 1 + hash_len, len));
    let ghost d4 = data@.subrange(k2 + 1 + hash_len, len);
    proof {
        let d1 = data@.subrange(k0 + 1, len);
        let d2 = data@.subrange(k1 + 1, len);
        assert(d.subrange(0, (k0 - pos) as int) =~= path@);
        assert(parse_tree(d, hash_len as nat, fuel as nat) == finish_node(path@, ne as nat, id@, parse_children(d4, hash_len as nat, c as nat, fuel as nat)));
    }
    let mut p: usize = k2 + 1 + hash_len;
    let mut sorted: Vec<Tree> = Vec::new();
    let ghost mut kids: Seq<SpecTree> = Seq::empty();
    let mut i: u64 = 0;
    assert(kids + Seq::<SpecTree>::empty() =~= Seq::<SpecTree>::empty());
    assert(views(sorted@) =~= Seq::<SpecTree>::empty());
    proof {
        let r = parse_children(d4, hash_len as nat, c as nat, fuel as nat);
        if r is Some {
            assert(kids + r->Some_0.0 =~= r->Some_0.0);
        }
    }
    while i < c
        invariant
            k2 + 1 + hash_len <= p <= data@.len(),
            i <= c,
            kids.len() == i,
            views(sorted@) == sort_by_name(kids),
            parse_children(d4, hash_len as nat, c as nat, fuel as nat) == prepend_all(
                kids,
                parse_children(data@.subrange(p as int, len), hash_len as nat, (c - i) as nat, fuel as nat),
            ),
            len == data@.len(),
            d4 == data@.subrange(k2 + 1 + hash_len, len),
            d == data@.subrange(pos as int, len),
            parse_tree(d, hash_len as nat, fuel as nat) == finish_node(path@, ne as nat, id@, parse_children(d4, hash_len as nat, c as nat, fuel as nat)),
        decreases c - i,
    {
        if fuel == 0 {
            return None;
        }
        let ghost cur = data@.subrange(p as int, len);
        match one_recursive(data, p, hash_len, fuel - 1) {
            None => return None,
            Some((t, end)) => {
                let ghost tv = tree_view(t);
                let ghost rest = parse_children(data@.subrange(end as int, len), hash_len as nat, (c - i - 1) as nat, fuel as nat);
                proof {
                    if rest is Some {
                        assert(kids + (seq![tv] + rest->Some_0.0) =~= kids.push(tv) + rest->Some_0.0);
                    }
                    assert(kids.push(tv).drop_last() =~= kids);
                }
                insert_by_name(&mut sorted, t);
                proof {
                    kids = kids.push(tv);
                }
                p = end;
            },
        }
        i += 1;
    }
    assert(kids + Seq::<SpecTree>::empty() =~= kids);
    if has_dup_names(&sorted) {
        return None;
    }
    let t = Tree { id, num_entries: ne as u32, name: path, children: sorted };
    assert(tree_view(t).children =~= views(t.children@));
    Some((t, p))
}

#[verifier::external_type_specification]
#[verifier::external_body]
pub struct ExHashKind(git_hash::Kind);

/// Relies on `git_hash::Kind::len_in_bytes`: the one kind, SHA-1, takes 20
/// bytes.
pub assume_specification[ git_hash::Kind::len_in_bytes ](k: &git_hash::Kind) -> (r: usize)
    ensures
        r == 20,
;

/// Decodes a cached tree extension whose ids are hashes of `object_hash`:
/// one node with its subtrees, which must take up all of `data`.
pub fn decode(data: &[u8], object_hash: git_hash::Kind) -> (r: Option<Tree>)
    ensures
        match r {
            None => decode_spec(data@, 20) is None,
            Some(t) => decode_spec(data@, 20) == Some(tree_view(t)),
        },
{
    let hash_len = object_hash.len_in_bytes();
    assert(data@.subrange(0, data@.len() as int) =~= data@);
    match one_recursive(data, 0, hash_len, data.len()) {
        None => None,
        Some((t, end)) => if end == data.len() {
            Some(t)
        } else {
            None
        },
    }
}

} // verus!

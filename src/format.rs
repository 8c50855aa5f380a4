use vstd::prelude::*;

use crate::error::RefError;
use crate::name::{
    copy_range, first_from, has_prefix, is_control, is_valid_name, lemma_first_from_ge,
    starts_with, valid_name,
};
use crate::store::{packed_view, PackedRef, ReflogEntry, SpecEntry, SpecPacked, SpecTarget, Target};
use crate::tree::{atoi_spec, atoi_u64, decimal, digit_run, is_digit, split_at_byte, split_pos};

verus! {

/// A lowercase hexadecimal digit.
pub open spec fn is_hex(b: u8) -> bool {
    (48 <= b <= 57) || (97 <= b <= 102)
}

/// An object id as text: 40 (SHA-1) or 64 (SHA-256) lowercase hex digits.
pub open spec fn valid_id(s: Seq<u8>) -> bool {
    (s.len() == 40 || s.len() == 64) && forall|i: int| 0 <= i < s.len() ==> is_hex(#[trigger] s[i])
}

pub fn is_valid_id(s: &[u8]) -> (r: bool)
    ensures
        r == valid_id(s@),
{
    if s.len() != 40 && s.len() != 64 {
        return false;
    }
    let mut i: usize = 0;
    while i < s.len()
        invariant
            i <= s@.len(),
            forall|j: int| 0 <= j < i ==> is_hex(#[trigger] s@[j]),
        decreases s@.len() - i,
    {
        let c = s[i];
        if !((48 <= c && c <= 57) || (97 <= c && c <= 102)) {
            assert(!is_hex(s@[i as int]));
            return false;
        }
        i += 1;
    }
    true
}

/// `ref: `, which starts a symbolic loose file.
pub open spec fn symref_prefix() -> Seq<u8> {
    seq![114u8, 101, 102, 58, 32]
}

/// A target that a loose file can hold.
pub open spec fn valid_target(t: SpecTarget) -> bool {
    match t {
        SpecTarget::Peeled(id) => valid_id(id),
        SpecTarget::Symbolic(n) => valid_name(n),
    }
}

/// The text of a loose reference file.
pub open spec fn loose_text(t: SpecTarget) -> Seq<u8> {
    match t {
        SpecTarget::Peeled(id) => id.push(10u8),
        SpecTarget::Symbolic(n) => symref_prefix() + n.push(10u8),
    }
}

/// What a loose reference file holds: an id and a newline, or `ref: `, a
/// name and a newline; anything else holds no target.
pub open spec fn parse_loose_spec(c: Seq<u8>) -> Option<SpecTarget> {
    if c.len() == 0 || c.last() != 10u8 {
        None
    } else {
        let body = c.drop_last();
        if has_prefix(body, symref_prefix()) {
            let n = body.subrange(5, body.len() as int);
            if valid_name(n) {
                Some(SpecTarget::Symbolic(n))
            } else {
                None
            }
        } else if valid_id(body) {
            Some(SpecTarget::Peeled(body))
        } else {
            None
        }
    }
}

/// Reads the content of a loose reference file.
pub fn parse_loose(c: &[u8]) -> (r: Option<Target>)
    ensures
        match r {
            None => parse_loose_spec(c@) is None,
            Some(t) => parse_loose_spec(c@) == Some(t@),
        },
{
    if c.len() == 0 || c[c.len() - 1] != 10 {
        return None;
    }
    let body = copy_range(c, 0, c.len() - 1);
    assert(body@ =~= c@.drop_last());
    let prefix: [u8; 5] = [114, 101, 102, 58, 32];
    assert(prefix@ =~= symref_prefix());
    if starts_with(body.as_slice(), prefix.as_slice()) {
        let n = copy_range(body.as_slice(), 5, body.len());
        if is_valid_name(n.as_slice()) {
            Some(Target::Symbolic(n))
        } else {
            None
        }
    } else if is_valid_id(body.as_slice()) {
        Some(Target::Peeled(body))
    } else {
        None
    }
}

fn append(out: &mut Vec<u8>, s: &[u8])
    ensures
        final(out)@ == old(out)@ + s@,
{
    let mut i: usize = 0;
    while i < s.len()
        invariant
            i <= s@.len(),
            out@ == old(out)@ + s@.subrange(0, i as int),
        decreases s@.len() - i,
    {
        out.push(s[i]);
        i += 1;
        assert(out@ =~= old(out)@ + s@.subrange(0, i as int));
    }
    assert(s@.subrange(0, s@.len() as int) =~= s@);
}

/// The content of a loose reference file for `t`.
pub fn loose_content(t: &Target) -> (r: Vec<u8>)
    ensures
        r@ == loose_text(t@),
{
    let mut out: Vec<u8> = Vec::new();
    match t {
        Target::Peeled(id) => {
            append(&mut out, id.as_slice());
        },
        Target::Symbolic(n) => {
            let prefix: [u8; 5] = [114, 101, 102, 58, 32];
            append(&mut out, prefix.as_slice());
            append(&mut out, n.as_slice());
            assert(prefix@ =~= symref_prefix());
        },
    }
    out.push(10);
    proof {
        match t@ {
            SpecTarget::Peeled(id) => {
                assert(out@ =~= id.push(10u8));
            },
            SpecTarget::Symbolic(n) => {
                assert(out@ =~= symref_prefix() + n.push(10u8));
            },
        }
    }
    out
}

/// Writing a valid target to a loose file and reading it back gives the
/// target.
pub proof fn loose_round_trip(t: SpecTarget)
    requires
        valid_target(t),
    ensures
        parse_loose_spec(loose_text(t)) == Some(t),
{
    let c = loose_text(t);
    match t {
        SpecTarget::Peeled(id) => {
            assert(c.drop_last() =~= id);
            if has_prefix(id, symref_prefix()) {
                assert(id.subrange(0, 5)[0] == id[0]);
                assert(is_hex(id[0]));
            }
        },
        SpecTarget::Symbolic(n) => {
            let body = c.drop_last();
            assert(body =~= symref_prefix() + n);
            assert(body.subrange(0, 5) =~= symref_prefix());
            assert(body.subrange(5, body.len() as int) =~= n);
        },
    }
}

/// One `<id> <name>` line of a packed-refs file.
pub open spec fn parse_ref_line(line: Seq<u8>) -> Option<(Seq<u8>, Seq<u8>)> {
    match split_at_byte(line, 32u8) {
        None => None,
        Some((id, name)) => if valid_id(id) && valid_name(name) {
            Some((id, name))
        } else {
            None
        },
    }
}

/// The entry at the start of `c`: an entry line, and the `^<id>` line after
/// it if there is one; with what follows.
pub open spec fn entry_at(c: Seq<u8>) -> Option<(SpecPacked, Seq<u8>)> {
    match split_at_byte(c, 10u8) {
        None => None,
        Some((line, rest)) => match parse_ref_line(line) {
            None => None,
            Some((id, name)) => if rest.len() > 0 && rest[0] == 94u8 {
                match split_at_byte(rest, 10u8) {
                    None => None,
                    Some((pl, rest2)) => {
                        let peeled = pl.subrange(1, pl.len() as int);
                        if pl.len() >= 1 && valid_id(peeled) {
                            Some((SpecPacked { name, id, peeled: Some(peeled) }, rest2))
                        } else {
                            None
                        }
                    },
                }
            } else {
                Some((SpecPacked { name, id, peeled: None }, rest))
            },
        },
    }
}

/// The entries of a packed-refs file after its header. A line that is no
/// entry, a `^<id>` line that follows no entry, or a last line without a
/// newline makes the file corrupt.
pub open spec fn parse_packed_lines(c: Seq<u8>) -> Option<Seq<SpecPacked>>
    decreases c.len(),
{
    if c.len() == 0 {
        Some(Seq::empty())
    } else {
        match entry_at(c) {
            None => None,
            Some((e, rest)) => if rest.len() < c.len() {
                match parse_packed_lines(rest) {
                    None => None,
                    Some(es) => Some(seq![e] + es),
                }
            } else {
                None
            },
        }
    }
}

fn entry_from(c: &[u8], p: usize) -> (r: Result<(PackedRef, usize), RefError>)
    requires
        p < c@.len(),
    ensures
        match r {
            Ok((e, q)) => p < q <= c@.len() && entry_at(c@.subrange(p as int, c@.len() as int)) == Some(
                (e@, c@.subrange(q as int, c@.len() as int)),
            ),
            Err(e) => e == RefError::PackedRefsCorrupt && entry_at(c@.subrange(p as int, c@.len() as int)) is None,
        },
{
    let len = c.len();
    let k = match split_pos(c, p, 10) {
        None => return Err(RefError::PackedRefsCorrupt),
        Some(k) => k,
    };
    let line = copy_range(c, p, k);
    assert(line@.subrange(0, line@.len() as int) =~= line@);
    let sp = match split_pos(line.as_slice(), 0, 32) {
        None => return Err(RefError::PackedRefsCorrupt),
        Some(sp) => sp,
    };
    let id = copy_range(line.as_slice(), 0, sp);
    let name = copy_range(line.as_slice(), sp + 1, line.len());
    if !is_valid_id(id.as_slice()) || !is_valid_name(name.as_slice()) {
        return Err(RefError::PackedRefsCorrupt);
    }
    let ghost rest = c@.subrange(k + 1, len as int);
    if k + 1 < len && c[k + 1] == 94 {
        assert(rest[0] == c@[k + 1]);
        let k2 = match split_pos(c, k + 1, 10) {
            None => return Err(RefError::PackedRefsCorrupt),
            Some(k2) => k2,
        };
        proof {
            let sub = c@.subrange(k + 1, len as int);
            assert(sub[0] == 94u8);
            lemma_first_from_ge(sub, 10u8, 1);
        }
        let peeled = copy_range(c, k + 2, k2);
        assert(peeled@ =~= c@.subrange(k + 1, k2 as int).subrange(1, (k2 - k - 1) as int));
        if !is_valid_id(peeled.as_slice()) {
            return Err(RefError::PackedRefsCorrupt);
        }
        Ok((PackedRef { name, id, peeled: Some(peeled) }, k2 + 1))
    } else {
        Ok((PackedRef { name, id, peeled: None }, k + 1))
    }
}

/// A packed-refs file: an optional first line that starts with `#`, then
/// the entry lines.
pub open spec fn parse_packed_spec(c: Seq<u8>) -> Option<Seq<SpecPacked>> {
    if c.len() > 0 && c[0] == 35u8 {
        match split_at_byte(c, 10u8) {
            None => None,
            Some((_, rest)) => parse_packed_lines(rest),
        }
    } else {
        parse_packed_lines(c)
    }
}

/// Reads the entries of a packed-refs file, in file order.
pub fn parse_packed(c: &[u8]) -> (r: Result<Vec<PackedRef>, RefError>)
    ensures
        match r {
            Ok(v) => parse_packed_spec(c@) == Some(packed_view(v@)),
            Err(e) => e == RefError::PackedRefsCorrupt && parse_packed_spec(c@) is None,
        },
{
    let len = c.len();
    let mut p: usize = 0;
    if len > 0 && c[0] == 35 {
        match split_pos(c, 0, 10) {
            None => {
                assert(c@.subrange(0, len as int) =~= c@);
                return Err(RefError::PackedRefsCorrupt);
            },
            Some(k) => {
                assert(c@.subrange(0, len as int) =~= c@);
                p = k + 1;
            },
        }
    } else {
        assert(c@.subrange(0, len as int) =~= c@);
    }
    let ghost body = c@.subrange(p as int, len as int);
    let mut out: Vec<PackedRef> = Vec::new();
    assert(packed_view(out@) + Seq::<SpecPacked>::empty() =~= Seq::<SpecPacked>::empty());
    proof {
        if parse_packed_lines(body) is Some {
            assert(packed_view(out@) + parse_packed_lines(body)->Some_0 =~= parse_packed_lines(body)->Some_0);
        }
    }
    while p < len
        invariant
            p <= len,
            len == c@.len(),
            parse_packed_spec(c@) == parse_packed_lines(body),
            parse_packed_lines(body) == match parse_packed_lines(c@.subrange(p as int, len as int)) {
                None => None,
                Some(es) => Some(packed_view(out@) + es),
            },
        decreases len - p,
    {
        let (e, q) = match entry_from(c, p) {
            Err(err) => return Err(err),
            Ok(x) => x,
        };
        let ghost ev = e@;
        let ghost prev = packed_view(out@);
        out.push(e);
        proof {
            assert(packed_view(out@) =~= prev.push(ev));
            let tail = parse_packed_lines(c@.subrange(q as int, len as int));
            if tail is Some {
                assert(prev + (seq![ev] + tail->Some_0) =~= prev.push(ev) + tail->Some_0);
            }
        }
        p = q;
    }
    assert(c@.subrange(len as int, len as int) =~= Seq::<u8>::empty());
    assert(packed_view(out@) + Seq::<SpecPacked>::empty() =~= packed_view(out@));
    Ok(out)
}

/// The header line that a packed-refs file starts with.
pub open spec fn packed_header() -> Seq<u8> {
    seq![
        35u8, 32, 112, 97, 99, 107, 45, 114, 101, 102, 115, 32, 119, 105, 116, 104, 58, 32, 112,
        101, 101, 108, 101, 100, 32, 102, 117, 108, 108, 121, 45, 112, 101, 101, 108, 101, 100,
        32, 115, 111, 114, 116, 101, 100, 32, 10,
    ]
}

/// The text of one entry: its line and, for a tag, its `^<id>` line.
pub open spec fn entry_text(e: SpecPacked) -> Seq<u8> {
    let line = e.id + seq![32u8] + e.name + seq![10u8];
    match e.peeled {
        None => line,
        Some(p) => line + seq![94u8] + p + seq![10u8],
    }
}

pub open spec fn entries_text(es: Seq<SpecPacked>) -> Seq<u8>
    decreases es.len(),
{
    if es.len() == 0 {
        Seq::empty()
    } else {
        entry_text(es[0]) + entries_text(es.drop_first())
    }
}

/// An entry that a packed-refs file can hold.
pub open spec fn valid_entry(e: SpecPacked) -> bool {
    valid_id(e.id) && valid_name(e.name) && match e.peeled {
        None => true,
        Some(p) => valid_id(p),
    }
}

/// The content of a packed-refs file for `table`, in table order.
pub fn packed_content(table: &Vec<PackedRef>) -> (r: Vec<u8>)
    ensures
        r@ == packed_header() + entries_text(packed_view(table@)),
{
    let header: [u8; 46] = [
        35, 32, 112, 97, 99, 107, 45, 114, 101, 102, 115, 32, 119, 105, 116, 104, 58, 32, 112,
        101, 101, 108, 101, 100, 32, 102, 117, 108, 108, 121, 45, 112, 101, 101, 108, 101, 100,
        32, 115, 111, 114, 116, 101, 100, 32, 10,
    ];
    assert(header@ =~= packed_header());
    let ghost es = packed_view(table@);
    let mut out: Vec<u8> = Vec::new();
    append(&mut out, header.as_slice());
    assert(out@ =~= packed_header());
    assert(es.subrange(0, es.len() as int) =~= es);
    let mut i: usize = 0;
    while i < table.len()
        invariant
            i <= table@.len(),
            es == packed_view(table@),
            out@ + entries_text(es.subrange(i as int, es.len() as int)) == packed_header() + entries_text(es),
        decreases table@.len() - i,
    {
        let e = &table[i];
        let ghost ev = e@;
        let ghost before = out@;
        append(&mut out, e.id.as_slice());
        out.push(32);
        append(&mut out, e.name.as_slice());
        out.push(10);
        match &e.peeled {
            None => {},
            Some(p) => {
                out.push(94);
                append(&mut out, p.as_slice());
                out.push(10);
            },
        }
        proof {
            assert(out@ =~= before + entry_text(ev));
            let tail = es.subrange(i as int, es.len() as int);
            assert(tail[0] == ev);
            assert(tail.drop_first() =~= es.subrange(i + 1, es.len() as int));
            assert(before + entries_text(tail) =~= out@ + entries_text(es.subrange(i + 1, es.len() as int)));
        }
        i += 1;
    }
    assert(es.subrange(i as int, es.len() as int) =~= Seq::<SpecPacked>::empty());
    assert(out@ + Seq::<u8>::empty() =~= out@);
    out
}

proof fn lemma_first_at(s: Seq<u8>, b: u8, i: int, j: int)
    requires
        0 <= i <= j < s.len(),
        s[j] == b,
        forall|k: int| i <= k < j ==> s[k] != b,
    ensures
        first_from(s, b, i) == j,
    decreases j - i,
{
    if i < j {
        lemma_first_at(s, b, i + 1, j);
    }
}

proof fn lemma_split_concat(x: Seq<u8>, b: u8, y: Seq<u8>)
    requires
        forall|k: int| 0 <= k < x.len() ==> x[k] != b,
    ensures
        split_at_byte(x + seq![b] + y, b) == Some((x, y)),
{
    let s = x + seq![b] + y;
    assert forall|k: int| 0 <= k < x.len() implies s[k] != b by {
        assert(s[k] == x[k]);
    }
    lemma_first_at(s, b, 0, x.len() as int);
    assert(s.subrange(0, x.len() as int) =~= x);
    assert(s.subrange(x.len() as int + 1, s.len() as int) =~= y);
}

proof fn lemma_entry_at(e: SpecPacked, rest: Seq<u8>)
    requires
        valid_entry(e),
        rest.len() == 0 || rest[0] != 94u8,
    ensures
        entry_at(entry_text(e) + rest) == Some((e, rest)),
{
    let line = e.id + seq![32u8] + e.name;
    let after = match e.peeled {
        None => rest,
        Some(p) => seq![94u8] + p + seq![10u8] + rest,
    };
    assert(entry_text(e) + rest =~= line + seq![10u8] + after);
    assert forall|k: int| 0 <= k < line.len() implies line[k] != 10u8 by {
        if k < e.id.len() {
            assert(is_hex(e.id[k]));
        } else if k > e.id.len() {
            assert(line[k] == e.name[k - e.id.len() - 1]);
            assert(!is_control(e.name[k - e.id.len() - 1]));
        }
    }
    lemma_split_concat(line, 10u8, after);
    assert forall|k: int| 0 <= k < e.id.len() implies e.id[k] != 32u8 by {
        assert(is_hex(e.id[k]));
    }
    lemma_split_concat(e.id, 32u8, e.name);
    match e.peeled {
        None => {},
        Some(p) => {
            let pl = seq![94u8] + p;
            assert(seq![94u8] + p + seq![10u8] + rest =~= pl + seq![10u8] + rest);
            assert forall|k: int| 0 <= k < pl.len() implies pl[k] != 10u8 by {
                if k > 0 {
                    assert(pl[k] == p[k - 1]);
                    assert(is_hex(p[k - 1]));
                }
            }
            lemma_split_concat(pl, 10u8, rest);
            assert(pl.subrange(1, pl.len() as int) =~= p);
        },
    }
}

proof fn lemma_lines_round_trip(es: Seq<SpecPacked>)
    requires
        forall|i: int| 0 <= i < es.len() ==> valid_entry(#[trigger] es[i]),
    ensures
        parse_packed_lines(entries_text(es)) == Some(es),
    decreases es.len(),
{
    if es.len() > 0 {
        let tail = es.drop_first();
        assert forall|i: int| 0 <= i < tail.len() implies valid_entry(#[trigger] tail[i]) by {
            assert(tail[i] == es[i + 1]);
        }
        lemma_lines_round_trip(tail);
        let rest = entries_text(tail);
        if tail.len() > 0 {
            assert(valid_entry(es[1]));
            assert(rest =~= entry_text(tail[0]) + entries_text(tail.drop_first()));
            assert(rest[0] == tail[0].id[0]);
            assert(is_hex(tail[0].id[0]));
        }
        lemma_entry_at(es[0], rest);
        assert(entry_text(es[0]).len() > 0);
        assert(seq![es[0]] + tail =~= es);
    } else {
        assert(entries_text(es) =~= Seq::<u8>::empty());
    }
}

/// Writing a table of valid entries to a packed-refs file and reading the
/// file back gives the same entries, in the same order.
pub proof fn packed_round_trip(es: Seq<SpecPacked>)
    requires
        forall|i: int| 0 <= i < es.len() ==> valid_entry(#[trigger] es[i]),
    ensures
        parse_packed_spec(packed_header() + entries_text(es)) == Some(es),
{
    let body = entries_text(es);
    let h = packed_header().drop_last();
    assert(packed_header() + body =~= h + seq![10u8] + body);
    assert forall|k: int| 0 <= k < h.len() implies h[k] != 10u8 by {}
    lemma_split_concat(h, 10u8, body);
    lemma_lines_round_trip(es);
}

/// The decimal digits of `n`, without leading zeros.
pub open spec fn digits_of(n: nat) -> Seq<u8>
    decreases n,
{
    if n < 10 {
        seq![(48 + n) as u8]
    } else {
        digits_of(n / 10).push((48 + n % 10) as u8)
    }
}

fn write_decimal(out: &mut Vec<u8>, n: u64)
    ensures
        final(out)@ == old(out)@ + digits_of(n as nat),
    decreases n,
{
    if n < 10 {
        out.push(48 + n as u8);
        assert(final(out)@ =~= old(out)@ + digits_of(n as nat));
    } else {
        write_decimal(out, n / 10);
        out.push(48 + (n % 10) as u8);
        assert(out@ =~= old(out)@ + digits_of(n as nat));
    }
}

/// One line of a reflog file:
/// `<old> <new> <name> <email> <seconds> <tz>\t<message>\n`.
pub open spec fn reflog_text(e: SpecEntry) -> Seq<u8> {
    e.old_oid + seq![32u8] + e.new_oid + seq![32u8] + e.committer + seq![32u8] + digits_of(
        e.time as nat,
    ) + seq![32u8] + e.tz + seq![9u8] + e.message + seq![10u8]
}

/// Writes one reflog line.
pub fn reflog_line(e: &ReflogEntry) -> (r: Vec<u8>)
    ensures
        r@ == reflog_text(e@),
{
    let mut out: Vec<u8> = Vec::new();
    append(&mut out, e.old_oid.as_slice());
    out.push(32);
    append(&mut out, e.new_oid.as_slice());
    out.push(32);
    append(&mut out, e.committer.as_slice());
    out.push(32);
    write_decimal(&mut out, e.time);
    out.push(32);
    append(&mut out, e.tz.as_slice());
    out.push(9);
    append(&mut out, e.message.as_slice());
    out.push(10);
    assert(out@ =~= reflog_text(e@));
    out
}

/// The last index at or before `j` that holds `b`, or -1.
pub open spec fn last_from(s: Seq<u8>, b: u8, j: int) -> int
    decreases j + 1,
{
    if j < 0 {
        -1
    } else if j < s.len() && s[j] == b {
        j
    } else {
        last_from(s, b, j - 1)
    }
}

/// Splits at the last `b`.
pub open spec fn split_at_last(d: Seq<u8>, b: u8) -> Option<(Seq<u8>, Seq<u8>)> {
    let k = last_from(d, b, d.len() - 1);
    if 0 <= k < d.len() {
        Some((d.subrange(0, k), d.subrange(k + 1, d.len() as int)))
    } else {
        None
    }
}

/// The seconds field: digits only, and a value that fits in 64 bits.
pub open spec fn seconds_field(d: Seq<u8>) -> Option<u64> {
    if d.len() > 0 && digit_run(d, 0) == d.len() {
        atoi_spec(d)
    } else {
        None
    }
}

/// What one reflog line (with its newline) holds.
pub open spec fn parse_reflog_spec(line: Seq<u8>) -> Option<SpecEntry> {
    if line.len() == 0 || line.last() != 10u8 {
        None
    } else {
        match split_at_byte(line.drop_last(), 32u8) {
            None => None,
            Some((old_oid, r1)) => match split_at_byte(r1, 32u8) {
                None => None,
                Some((new_oid, r2)) => match split_at_byte(r2, 9u8) {
                    None => None,
                    Some((sig, message)) => match split_at_last(sig, 32u8) {
                        None => None,
                        Some((s1, tz)) => match split_at_last(s1, 32u8) {
                            None => None,
                            Some((committer, secs)) => match seconds_field(secs) {
                                None => None,
                                Some(time) => if valid_id(old_oid) && valid_id(new_oid) {
                                    Some(SpecEntry { old_oid, new_oid, committer, time, tz, message })
                                } else {
                                    None
                                },
                            },
                        },
                    },
                },
            },
        }
    }
}

fn split_last(d: &[u8], b: u8) -> (r: Option<(Vec<u8>, Vec<u8>)>)
    ensures
        match r {
            None => split_at_last(d@, b) is None,
            Some((x, y)) => split_at_last(d@, b) == Some((x@, y@)),
        },
{
    let mut j: usize = d.len();
    assert(last_from(d@, b, d@.len() - 1) == last_from(d@, b, j - 1));
    while j > 0 && d[j - 1] != b
        invariant
            j <= d@.len(),
            last_from(d@, b, d@.len() - 1) == last_from(d@, b, j - 1),
        decreases j,
    {
        j -= 1;
    }
    if j == 0 {
        return None;
    }
    Some((copy_range(d, 0, j - 1), copy_range(d, j, d.len())))
}

fn split_first(d: &[u8], b: u8) -> (r: Option<(Vec<u8>, Vec<u8>)>)
    ensures
        match r {
            None => split_at_byte(d@, b) is None,
            Some((x, y)) => split_at_byte(d@, b) == Some((x@, y@)),
        },
{
    assert(d@.subrange(0, d@.len() as int) =~= d@);
    let n = d.len();
    match split_pos(d, 0, b) {
        None => None,
        Some(k) => Some((copy_range(d, 0, k), copy_range(d, k + 1, d.len()))),
    }
}

fn seconds(d: &[u8]) -> (r: Option<u64>)
    ensures
        r == seconds_field(d@),
{
    if d.len() == 0 {
        return None;
    }
    let mut i: usize = 0;
    while i < d.len()
        invariant
            i <= d@.len(),
            digit_run(d@, 0) == i + digit_run(d@, i as int),
            forall|j: int| 0 <= j < i ==> is_digit(#[trigger] d@[j]),
        decreases d@.len() - i,
    {
        if !(48 <= d[i] && d[i] <= 57) {
            assert(digit_run(d@, i as int) == 0);
            return None;
        }
        i += 1;
    }
    assert(digit_run(d@, d@.len() as int) == 0);
    assert(is_digit(d@[0]));
    atoi_u64(d)
}

/// Reads one reflog line, newline included.
pub fn parse_reflog_line(line: &[u8]) -> (r: Option<ReflogEntry>)
    ensures
        match r {
            None => parse_reflog_spec(line@) is None,
            Some(e) => parse_reflog_spec(line@) == Some(e@),
        },
{
    if line.len() == 0 || line[line.len() - 1] != 10 {
        return None;
    }
    let body = copy_range(line, 0, line.len() - 1);
    assert(body@ =~= line@.drop_last());
    let (old_oid, r1) = match split_first(body.as_slice(), 32) {
        None => return None,
        Some(x) => x,
    };
    let (new_oid, r2) = match split_first(r1.as_slice(), 32) {
        None => return None,
        Some(x) => x,
    };
    let (sig, message) = match split_first(r2.as_slice(), 9) {
        None => return None,
        Some(x) => x,
    };
    let (s1, tz) = match split_last(sig.as_slice(), 32) {
        None => return None,
        Some(x) => x,
    };
    let (committer, secs) = match split_last(s1.as_slice(), 32) {
        None => return None,
        Some(x) => x,
    };
    let time = match seconds(secs.as_slice()) {
        None => return None,
        Some(t) => t,
    };
    if !is_valid_id(old_oid.as_slice()) || !is_valid_id(new_oid.as_slice()) {
        return None;
    }
    Some(ReflogEntry { old_oid, new_oid, committer, time, tz, message })
}

proof fn lemma_digits(n: nat)
    ensures
        digits_of(n).len() > 0,
        forall|i: int| 0 <= i < digits_of(n).len() ==> is_digit(#[trigger] digits_of(n)[i]),
        decimal(digits_of(n)) == n,
    decreases n,
{
    if n >= 10 {
        lemma_digits(n / 10);
        let d = digits_of(n);
        assert(d.drop_last() =~= digits_of(n / 10));
        assert(forall|i: int| 0 <= i < d.len() - 1 ==> d[i] == digits_of(n / 10)[i]);
        assert(d.last() == (48 + n % 10) as u8);
        assert(d.last() - 48 == n % 10);
        assert(decimal(d) == decimal(digits_of(n / 10)) * 10 + n % 10);
        assert((n / 10) * 10 + n % 10 == n) by (nonlinear_arith);
    } else {
        let d = digits_of(n);
        assert(d.drop_last() =~= Seq::<u8>::empty());
        assert(d.last() - 48 == n);
        assert(decimal(d) == decimal(d.drop_last()) * 10 + n);
    }
}

proof fn lemma_digit_run_all(d: Seq<u8>, i: int)
    requires
        0 <= i <= d.len(),
        forall|j: int| 0 <= j < d.len() ==> is_digit(#[trigger] d[j]),
    ensures
        digit_run(d, i) == d.len() - i,
    decreases d.len() - i,
{
    if i < d.len() {
        lemma_digit_run_all(d, i + 1);
    }
}

proof fn lemma_seconds(n: u64)
    ensures
        seconds_field(digits_of(n as nat)) == Some(n),
        forall|i: int| 0 <= i < digits_of(n as nat).len() ==> #[trigger] digits_of(n as nat)[i] != 32u8,
{
    let d = digits_of(n as nat);
    lemma_digits(n as nat);
    lemma_digit_run_all(d, 0);
    assert(is_digit(d[0]));
    assert(d.subrange(0, d.len() as int) =~= d);
    assert forall|i: int| 0 <= i < d.len() implies #[trigger] d[i] != 32u8 by {
        assert(is_digit(d[i]));
    }
}

proof fn lemma_last_at(s: Seq<u8>, b: u8, k: int, j: int)
    requires
        0 <= k <= j < s.len(),
        s[k] == b,
        forall|m: int| k < m <= j ==> s[m] != b,
    ensures
        last_from(s, b, j) == k,
    decreases j - k,
{
    if j > k {
        lemma_last_at(s, b, k, j - 1);
    }
}

proof fn lemma_split_last_concat(x: Seq<u8>, b: u8, y: Seq<u8>)
    requires
        forall|m: int| 0 <= m < y.len() ==> y[m] != b,
    ensures
        split_at_last(x + seq![b] + y, b) == Some((x, y)),
{
    let s = x + seq![b] + y;
    assert forall|m: int| x.len() < m <= s.len() - 1 implies s[m] != b by {
        assert(s[m] == y[m - x.len() - 1]);
    }
    lemma_last_at(s, b, x.len() as int, s.len() - 1);
    assert(s.subrange(0, x.len() as int) =~= x);
    assert(s.subrange(x.len() as int + 1, s.len() as int) =~= y);
}

/// Writing a reflog entry as a line and reading the line back gives the
/// entry, where its ids are valid, its committer holds no tab and its time
/// zone no space or tab.
pub proof fn reflog_round_trip(e: SpecEntry)
    requires
        valid_id(e.old_oid),
        valid_id(e.new_oid),
        forall|i: int| 0 <= i < e.committer.len() ==> #[trigger] e.committer[i] != 9u8,
        forall|i: int| 0 <= i < e.tz.len() ==> #[trigger] e.tz[i] != 9u8 && e.tz[i] != 32u8,
    ensures
        parse_reflog_spec(reflog_text(e)) == Some(e),
{
    let digits = digits_of(e.time as nat);
    lemma_seconds(e.time);
    lemma_digits(e.time as nat);
    let s1 = e.committer + seq![32u8] + digits;
    let sig = s1 + seq![32u8] + e.tz;
    let r2 = sig + seq![9u8] + e.message;
    let r1 = e.new_oid + seq![32u8] + r2;
    let body = e.old_oid + seq![32u8] + r1;
    assert(reflog_text(e) =~= body.push(10u8));
    assert(reflog_text(e).drop_last() =~= body);
    assert forall|i: int| 0 <= i < e.old_oid.len() implies e.old_oid[i] != 32u8 by {
        assert(is_hex(e.old_oid[i]));
    }
    lemma_split_concat(e.old_oid, 32u8, r1);
    assert forall|i: int| 0 <= i < e.new_oid.len() implies e.new_oid[i] != 32u8 by {
        assert(is_hex(e.new_oid[i]));
    }
    lemma_split_concat(e.new_oid, 32u8, r2);
    assert forall|i: int| 0 <= i < sig.len() implies sig[i] != 9u8 by {
        if i < e.committer.len() {
            assert(sig[i] == e.committer[i]);
        } else if i > e.committer.len() && i < s1.len() {
            assert(sig[i] == digits[i - e.committer.len() - 1]);
            assert(is_digit(digits[i - e.committer.len() - 1]));
        } else if i > s1.len() {
            assert(sig[i] == e.tz[i - s1.len() - 1]);
        }
    }
    lemma_split_concat(sig, 9u8, e.message);
    lemma_split_last_concat(s1, 32u8, e.tz);
    lemma_split_last_concat(e.committer, 32u8, digits);
}

} // verus!

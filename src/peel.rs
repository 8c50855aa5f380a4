use vstd::prelude::*;

use crate::error::RefError;
use crate::name::{copy_range, resolve, resolve_spec};
use crate::store::{bytes_eq, copy_bytes, find_spec, SpecStore, SpecTarget, Store, Target};

verus! {

/// The most symbolic hops that peeling follows before it reports a cycle.
pub const MAX_SYMBOLIC_HOPS: usize = 5;

#[derive(Debug, Clone, Copy, PartialEq, Eq, Structural)]
pub enum ObjectKind {
    Commit,
    Tree,
    Blob,
    Tag,
}

/// What the object store answers for one id: its kind and its bytes.
pub struct Object {
    pub id: Vec<u8>,
    pub kind: ObjectKind,
    pub data: Vec<u8>,
}

pub struct SpecObject {
    pub id: Seq<u8>,
    pub kind: ObjectKind,
    pub data: Seq<u8>,
}

impl View for Object {
    type V = SpecObject;

    open spec fn view(&self) -> SpecObject {
        SpecObject { id: self.id@, kind: self.kind, data: self.data@ }
    }
}

pub open spec fn objects_view(v: Seq<Object>) -> Seq<SpecObject> {
    v.map_values(|o: Object| o@)
}

/// The object that the table gives for `id` (the last entry for it).
pub open spec fn lookup(objs: Seq<SpecObject>, id: Seq<u8>) -> Option<SpecObject>
    decreases objs.len(),
{
    if objs.len() == 0 {
        None
    } else if objs.last().id == id {
        Some(objs.last())
    } else {
        lookup(objs.drop_last(), id)
    }
}

pub open spec fn tag_object_prefix() -> Seq<u8> {
    seq![111u8, 98, 106, 101, 99, 116, 32]
}

/// The id that an annotated tag points at: its body starts with
/// `object <40 hex digits>\n`.
pub open spec fn tag_target(data: Seq<u8>) -> Option<Seq<u8>> {
    if data.len() >= 48 && data.subrange(0, 7) == tag_object_prefix() && data[47] == 10u8 {
        Some(data.subrange(7, 47))
    } else {
        None
    }
}

/// Peels an object id through annotated tags: the first non-tag object's id
/// and the number of lookups made, or an error.
pub open spec fn peel_object_spec(objs: Seq<SpecObject>, id: Seq<u8>, fuel: nat) -> Result<(Seq<u8>, nat), RefError>
    decreases fuel,
{
    if fuel == 0 {
        Err(RefError::PeelCycle)
    } else {
        match lookup(objs, id) {
            None => Err(RefError::ObjectMissing),
            Some(o) => if o.kind != ObjectKind::Tag {
                Ok((id, 1))
            } else {
                match tag_target(o.data) {
                    None => Err(RefError::ObjectMissing),
                    Some(t) => match peel_object_spec(objs, t, (fuel - 1) as nat) {
                        Ok((f, c)) => Ok((f, c + 1)),
                        Err(e) => Err(e),
                    },
                }
            },
        }
    }
}

/// Follows symbolic targets, at most `fuel` hops, down to an object id.
pub open spec fn deref_spec(s: SpecStore, t: SpecTarget, fuel: nat) -> Result<Seq<u8>, RefError>
    decreases fuel,
{
    match t {
        SpecTarget::Peeled(id) => Ok(id),
        SpecTarget::Symbolic(n) => if fuel == 0 {
            Err(RefError::PeelCycle)
        } else {
            match resolve_spec(n, s.current) {
                None => Err(RefError::NameInvalid),
                Some(loc) => match find_spec(s, loc) {
                    None => Err(RefError::NotFound),
                    Some(t2) => deref_spec(s, t2, (fuel - 1) as nat),
                },
            }
        },
    }
}

/// The whole peel of a reference's target.
pub open spec fn peel_spec(s: SpecStore, t: SpecTarget, objs: Seq<SpecObject>) -> Result<(Seq<u8>, nat), RefError> {
    match deref_spec(s, t, MAX_SYMBOLIC_HOPS as nat) {
        Err(e) => Err(e),
        Ok(id) => peel_object_spec(objs, id, (objs.len() + 1) as nat),
    }
}

fn find_object(objs: &Vec<Object>, id: &Vec<u8>) -> (r: Option<usize>)
    ensures
        match r {
            None => lookup(objects_view(objs@), id@) is None,
            Some(i) => i < objs@.len() && lookup(objects_view(objs@), id@) == Some(objs@[i as int]@),
        },
{
    let ghost v = objects_view(objs@);
    let mut i: usize = objs.len();
    assert(v.take(i as int) =~= v);
    while i > 0
        invariant
            i <= objs@.len(),
            v == objects_view(objs@),
            lookup(v, id@) == lookup(v.take(i as int), id@),
        decreases i,
    {
        assert(v.take(i as int).drop_last() =~= v.take(i - 1));
        assert(objs[i - 1]@ == v.take(i as int).last());
        if bytes_eq(objs[i - 1].id.as_slice(), id.as_slice()) {
            return Some(i - 1);
        }
        i -= 1;
    }
    assert(v.take(0) =~= Seq::<SpecObject>::empty());
    None
}

fn parse_tag_target(data: &Vec<u8>) -> (r: Option<Vec<u8>>)
    ensures
        match r {
            None => tag_target(data@) is None,
            Some(t) => tag_target(data@) == Some(t@),
        },
{
    let prefix: [u8; 7] = [111, 98, 106, 101, 99, 116, 32];
    assert(prefix@ =~= tag_object_prefix());
    if data.len() < 48 || !crate::name::starts_with(data.as_slice(), prefix.as_slice()) || data[47] != 10 {
        return None;
    }
    Some(copy_range(data.as_slice(), 7, 47))
}

/// Peels an object id through annotated tags, returning the first non-tag
/// object's id and the number of lookups made.
pub fn peel_object(objs: &Vec<Object>, id: &Vec<u8>) -> (r: Result<(Vec<u8>, usize), RefError>)
    requires
        objs@.len() < usize::MAX,
    ensures
        match r {
            Ok((f, c)) => peel_object_spec(objects_view(objs@), id@, (objs@.len() + 1) as nat) == Ok::<(Seq<u8>, nat), RefError>((f@, c as nat)),
            Err(e) => peel_object_spec(objects_view(objs@), id@, (objs@.len() + 1) as nat) == Err::<(Seq<u8>, nat), RefError>(e),
        },
{
    let ghost v = objects_view(objs@);
    let ghost total = (objs@.len() + 1) as nat;
    let mut cur = copy_bytes(id);
    let mut steps: usize = 0;
    let fuel = objs.len() + 1;
    while steps < fuel
        invariant
            fuel == objs@.len() + 1,
            v == objects_view(objs@),
            total == fuel,
            steps <= fuel,
            peel_object_spec(v, id@, total) == match peel_object_spec(v, cur@, (total - steps) as nat) {
                Ok((f, c)) => Ok((f, (c + steps) as nat)),
                Err(e) => Err(e),
            },
        decreases fuel - steps,
    {
        match find_object(objs, &cur) {
            None => return Err(RefError::ObjectMissing),
            Some(i) => {
                let o = &objs[i];
                if o.kind != ObjectKind::Tag {
                    return Ok((cur, steps + 1));
                }
                match parse_tag_target(&o.data) {
                    None => return Err(RefError::ObjectMissing),
                    Some(t) => {
                        cur = t;
                        steps += 1;
                    },
                }
            },
        }
    }
    Err(RefError::PeelCycle)
}

impl Store {
    /// Follows symbolic targets (at most `MAX_SYMBOLIC_HOPS` of them) down to
    /// an object id.
    pub fn deref(&self, t: &Target) -> (r: Result<Vec<u8>, RefError>)
        ensures
            match r {
                Ok(id) => deref_spec(self@, t@, MAX_SYMBOLIC_HOPS as nat) == Ok::<Seq<u8>, RefError>(id@),
                Err(e) => deref_spec(self@, t@, MAX_SYMBOLIC_HOPS as nat) == Err::<Seq<u8>, RefError>(e),
            },
    {
        let mut cur = crate::store::copy_target(t);
        let mut hops: usize = 0;
        loop
            invariant
                hops <= MAX_SYMBOLIC_HOPS,
                deref_spec(self@, t@, MAX_SYMBOLIC_HOPS as nat) == deref_spec(self@, cur@, (MAX_SYMBOLIC_HOPS - hops) as nat),
            decreases MAX_SYMBOLIC_HOPS - hops,
        {
            let next = match &cur {
                Target::Peeled(id) => return Ok(copy_bytes(id)),
                Target::Symbolic(n) => {
                    if hops == MAX_SYMBOLIC_HOPS {
                        return Err(RefError::PeelCycle);
                    }
                    match resolve(n.as_slice(), &self.current) {
                        None => return Err(RefError::NameInvalid),
                        Some(loc) => match self.find_at(&loc) {
                            None => return Err(RefError::NotFound),
                            Some(t2) => t2,
                        },
                    }
                },
            };
            cur = next;
            hops += 1;
        }
    }

    /// Peels a reference's target: symbolic hops first, then annotated tags
    /// through the object table, down to the first non-tag object's id.
    pub fn peel(&self, t: &Target, objs: &Vec<Object>) -> (r: Result<Vec<u8>, RefError>)
        requires
            objs@.len() < usize::MAX,
        ensures
            match r {
                Ok(id) => peel_spec(self@, t@, objects_view(objs@)) is Ok && peel_spec(self@, t@, objects_view(objs@))->Ok_0.0 == id@,
                Err(e) => peel_spec(self@, t@, objects_view(objs@)) == Err::<(Seq<u8>, nat), RefError>(e),
            },
    {
        let id = self.deref(t)?;
        match peel_object(objs, &id) {
            Ok((f, _)) => Ok(f),
            Err(e) => Err(e),
        }
    }
}

} // verus!

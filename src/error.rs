use vstd::prelude::*;

verus! {

/// What can go wrong in the reference store.
#[derive(Debug, Clone, Copy, PartialEq, Eq, Structural)]
pub enum RefError {
    /// A name breaks the structural rules.
    NameInvalid,
    /// No reference of that name exists.
    NotFound,
    /// An edit's expected previous value does not hold.
    PreconditionFailed,
    /// A reflog's continuity was broken by someone else.
    ReflogCorrupt,
    /// The packed-refs text is malformed.
    PackedRefsCorrupt,
    /// Symbolic references form a cycle.
    PeelCycle,
    /// An object needed while peeling is not in the object store.
    ObjectMissing,
}

} // verus!

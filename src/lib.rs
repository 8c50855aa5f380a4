//! A transactional reference store: names that map to object ids or to
//! other names, shared between a main worktree and linked worktrees that
//! keep some names private, with a loose layer, a packed snapshot and
//! per-reference logs.

pub mod error;
pub mod format;
pub mod inflate;
pub mod laws;
pub mod lock;
pub mod name;
pub mod peel;
pub mod store;
pub mod tree;
pub mod txn;

//! Branches of a repository, grouped by the commit they point at, and the
//! questions a stacked-branch workflow asks of them: which branches follow
//! from a base, which lie on the way from a base to a head, which are
//! protected, and on which protected branch a head is built.
//!
//! The index itself is [`Branches`]. It consults a [`Repo`] for merge-bases
//! and for the history of a commit, and a matcher for the protection of a
//! branch name; it reads and writes no repository itself.

pub mod branches;
mod groups;
pub mod laws;
pub mod oid;
pub mod protect;
pub mod record;
pub mod relation;
pub mod repo;

pub use branches::{find_protected_base, Branches};
pub use repo::{Branch, Repo};

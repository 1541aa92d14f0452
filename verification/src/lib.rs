//! An in-memory role hierarchy manager for RBAC-style authorization.
//!
//! The manager keeps a directed graph of named principals (users and roles
//! are structurally identical) whose edges mean "inherits from".  It offers
//! link mutation, bounded-depth reachability, direct-neighbor enumeration
//! and reverse lookup, with optional tenant scoping through a `"::"`-separated
//! domain prefix and an optional name-matching predicate that expands a newly
//! materialized role's edges to every matching existing role.

pub mod hierarchy;
pub mod matching;
pub mod model;

pub use hierarchy::DefaultRoleManager;
pub use hierarchy::RbacError;
pub use hierarchy::Role;
pub use matching::Matcher;
pub use matching::SuffixMatcher;

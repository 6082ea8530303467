//! Exhaustive search for the longest schedules of rounds in which a fixed
//! population is split into groups and no two items ever share a group twice.
//!
//! Items are the numbers `0..n`. The conflict relation, a square matrix of
//! bits with one [`BitRow`] per item, says which pairs may not share a group.
//! Three enumerators build on each other:
//!
//! - [`potential_groups`] lists every group of a given size,
//! - [`single_assignment`] lists every round, a split of all items into
//!   groups of the sizes that [`group_sizes`] plans,
//! - [`make_assignments`] lists every schedule of rounds that no other
//!   schedule exceeds in length.
//!
//! Each of them returns its results in dictionary order, each result once,
//! and leaves the relation as it found it. What a result is, and that the
//! list holds exactly the results there are, is stated in the contracts and
//! proved.

pub mod bit_rows;
pub mod errors;
pub mod groups;
pub mod listing;
pub mod partition;
pub mod plan;
pub mod relation;
pub mod rounds;
pub mod schedules;

pub use bit_rows::BitRow;
pub use errors::ConfigError;
pub use groups::{potential_groups, Group};
pub use plan::group_sizes;
pub use rounds::{single_assignment, Round};
pub use schedules::{make_assignments, Assignment};

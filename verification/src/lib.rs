//! Immutable sets backed by a perfect-hash key table.
//!
//! A [`PhfSet`] answers membership and set-algebra queries; an
//! [`OrderedSet`] additionally remembers the order in which its elements
//! were defined. Both are built once from a [`KeyTable`] and never change
//! afterwards.

pub mod key;
pub mod table;
pub mod text;
pub mod set;
pub mod ordered_set;

pub use key::PhfEquiv;
pub use key::PhfHash;
pub use ordered_set::Iter;
pub use ordered_set::OrderedSet;
pub use set::Items;
pub use set::PhfSet;
pub use table::KeyTable;
pub use table::Keys;
pub use text::PhfText;

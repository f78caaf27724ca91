//! A catalog of shoe records kept in the host's stable memory: creation with
//! validation, lookup, sorted and paginated listing, search, owner-checked
//! update and delete, and likes.

pub mod types;
pub mod validate;
pub mod ordering;
pub mod codec;
pub mod store;
pub mod catalog;
pub mod laws;

pub use catalog::{validate_owner, ShoeCatalog};
pub use types::{Error, Invalid, Shoe, ShoePayload, ShoeSearchCriteria, SortKey};
pub use validate::{check_payload, is_url};

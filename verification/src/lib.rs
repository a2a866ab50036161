//! Backend library of a desktop application shell: it builds the catalog of
//! font family names that the UI layer may query, and keeps it in a
//! process-wide cache that is populated at most once.

pub mod order;
pub mod fonts;

//! Shared shopping lists with a linked pantry inventory: access control,
//! list and pantry bookkeeping, and the reconciliation between the two.
pub mod items;
pub mod laws;
pub mod lists;
pub mod pantry;
pub mod platform;
pub mod quantity;
pub mod rows;
pub mod store;
pub mod types;

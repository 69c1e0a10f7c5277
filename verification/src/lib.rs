//! A verified staging, conflict-detection, and reconciliation engine for
//! versioned inventory extensions.
//!
//! An *extension* is a versioned package of reference data (device
//! manufacturers, device categories, and devices) identified by a globally
//! unique ID. Extensions are accumulated in a staging set, classified against
//! the metadata of the extensions already loaded into the inventory store,
//! and then loaded, skipped, or reloaded according to an operator-selected
//! resolution policy. Shared entities claimed by several extensions are merged
//! by taking the union of their owning-extension sets; unloading an extension
//! deletes the entities it solely owns and revokes its ownership elsewhere.

pub mod conflicts;
pub mod ids;
pub mod laws;
pub mod manager;
pub mod models;
pub mod samples;
pub mod store;

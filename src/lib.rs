//! A filterable, collapsible tree view over a directory-shaped secret store.
pub mod order;
pub mod codec;
pub mod store;
pub mod rows;
pub mod backend;
pub mod session;

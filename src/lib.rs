//! Translation catalogs as a tree of dotted keys: flattening nested documents,
//! a sorted store of items, the key tree with completion and visibility, and
//! the scroll policy of the key list.
pub mod path;
pub mod sorted;
pub mod store;
pub mod document;
pub mod tree;
pub mod session;
pub mod viewport;
pub mod clipboard;
pub mod roundtrip;

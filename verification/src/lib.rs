//! Decoder for the WDB save-data container that stores a Crystarium, the
//! character-progression tree, and the grouping of its nodes by stage and role.

pub mod crystal;
pub mod crystal_page;
pub mod cursor;
pub mod endian;
pub mod error;
pub mod ordered;
pub mod partition;
pub mod query;
pub mod text;
pub mod view;

//! The object model: canonical encoding, addressing, the read and the write
//! path of the store, the snapshot builder, and what holds of them together.

pub mod blob;
pub mod commit;
pub mod laws;
pub mod object_base;
pub mod object_kind;
pub mod object_manager;
pub mod object_reader;
pub mod object_transformer;
pub mod object_writer;
pub mod order;
pub mod text;
pub mod tree;
pub mod utils;

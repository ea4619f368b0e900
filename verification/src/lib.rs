//! A small content-addressed version store: objects, trees, commits and refs,
//! laid out as byte formats with verified encoders and decoders.

pub mod hex;
pub mod bytes;
pub mod text;
pub mod objects;
pub mod commit;
pub mod order;
pub mod tree;
pub mod refs;
pub mod cat;

//! A content-addressed repository core: object codec, index codec, tree
//! composition, and reference resolution, with machine-checked contracts.

pub mod bytes;
pub mod diff;
pub mod hash;
pub mod index;
pub mod num;
pub mod objects;
pub mod rev;
pub mod tree;

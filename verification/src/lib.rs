//! Block sorting for a bzip2 compressor: the Burrows-Wheeler transform of a
//! block of bytes by two-stage induced sorting of its cyclic rotations.

pub mod lex;
pub mod rotation;
pub mod compare;
pub mod order;
pub mod sorting;
pub mod pending;
pub mod stype;
pub mod counting;
pub mod bstar;
pub mod bucket;
pub mod induce;
pub mod rotorder;
pub mod fill;
pub mod inverse;
pub mod bwt;

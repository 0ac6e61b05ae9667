//! The archive codec.
pub mod alphabet;
pub mod wire;
pub mod sparse;
pub mod spectral;
pub mod palette;
pub mod trajectory;
pub mod operator;
pub mod cursor;
pub mod parse;
pub mod readable;
pub mod block;
pub mod archive;
pub mod sizes;
pub mod layers;

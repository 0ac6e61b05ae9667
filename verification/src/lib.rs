//! A metagenerator compression engine: blocks are described by a compact
//! generating constant `K` and a branch log `V`, and every description is
//! expanded back to exactly the bytes it was made from.
pub mod words;
pub mod text;
pub mod order;
pub mod bitstream;
pub mod varint;
pub mod model;
pub mod fwht;
pub mod fold;
pub mod branch;
pub mod kernel;
pub mod codec;
pub mod keygen;
pub mod operator;
pub mod metagenerator;
pub mod window;
pub mod encoder;
pub mod decoder;
pub mod command;

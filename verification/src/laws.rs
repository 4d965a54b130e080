//! What the commands are for: properties of what they give and leave, and of
//! how several of them fit together, for all inputs.
pub mod bits;
pub mod commands;
pub mod containers;
pub mod evicting;
pub mod glob;
pub mod hashes;
pub mod keys;
pub mod lists;
pub mod memory;
pub mod numbers;
pub mod rows;
pub mod segments;
pub mod sorted;
pub mod streams;
pub mod strings;
pub mod tiering;
pub mod uses;

//! Discovery, identification and lifecycle rules for recorded game-clip folders.

pub mod appid;
pub mod cleanup;
pub mod grammar;
pub mod identity;
pub mod keyvalue;
pub mod naming;
pub mod order;
pub mod parts;
pub mod roots;
pub mod scan;
pub mod text;
pub mod timestamp;
pub mod tree;

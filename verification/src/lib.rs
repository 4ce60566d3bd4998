//! A compact pattern language for recognising structured text and extracting
//! named captures, with every function proved against its contract.

pub mod compile;
pub mod declaration;
pub mod engine;
pub mod index;
pub mod leaf;
pub mod matcher;
pub mod pattern;
pub mod requirements;
pub mod shape;
pub mod soundness;
pub mod structure;
pub mod value;

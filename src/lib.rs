//! Generates a base type definition and one specialised definition per declared
//! variant, keeping on each field only the attributes that target that definition.
//!
//! Token streams are modelled as flat sequences of plain tokens, where a
//! delimited group is written as an opening marker, its contents and a closing
//! marker.

pub mod token;
pub mod directive;
pub mod rewrite;
pub mod generate;
pub mod laws;



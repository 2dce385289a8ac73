//! A singly linked chain whose head cell is the list itself.

pub mod model;
pub mod node;

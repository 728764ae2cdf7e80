//! A singly linked list that grows at its tail, with indexed lookup and a
//! stable merge of two sorted lists.

pub mod list;
pub mod merging;
pub mod node;
pub mod stability;
pub mod text;

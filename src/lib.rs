//! A doubly linked list with constant-time pushes and pops at both ends,
//! verified against a sequence model of its contents.
pub mod dll;
pub mod laws;

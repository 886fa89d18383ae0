//! A jostle tree: a sequence of items of varying widths, packed end to end,
//! that supports insertion, resizing and removal anywhere, and drawing the
//! item found at any distance from the start; and an AVL tree that holds an
//! ordered set. Both trees are kept balanced.

mod hashing;
pub mod numeric;
pub mod spans;
pub mod branch;
pub mod jostletree;
pub mod order;
pub mod avltree;

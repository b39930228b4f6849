use vstd::prelude::*;

pub mod order;
pub mod common;
pub mod avl;
pub mod red_black;
pub mod layout;
pub mod input;

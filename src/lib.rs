pub mod bin_tree;
pub mod search;

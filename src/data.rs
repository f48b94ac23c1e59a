pub mod tree_item;

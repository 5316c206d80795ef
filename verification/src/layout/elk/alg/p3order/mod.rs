pub mod binary_indexed_tree;
pub mod crossings_counter;
pub mod layer_sweep;

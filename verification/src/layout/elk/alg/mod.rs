pub mod components;
pub mod compound;
pub mod graph;
pub mod high_degree;
pub mod hierarchical;
pub mod intermediate;
pub mod label_dummies;
pub mod label_sides;
pub mod layer_constraint;
pub mod long_edges;
pub mod network_simplex;
pub mod option_parse;
pub mod options;
pub mod p1_cycles;
pub mod p2_layers;
pub mod p3order;
pub mod p4nodes;
pub mod preserve_order;
pub mod random;

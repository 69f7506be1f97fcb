pub mod tensor;
pub mod graph;
pub mod layers;

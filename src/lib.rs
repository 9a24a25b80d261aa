pub mod collapse;
pub mod node;
pub mod order;
pub mod render;
pub mod tree;
pub mod value;
pub mod viewport;

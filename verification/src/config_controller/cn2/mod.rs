pub mod cn2;
pub mod resources;

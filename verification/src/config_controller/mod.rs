pub mod config_controller;
pub mod cli;
pub mod cn2;

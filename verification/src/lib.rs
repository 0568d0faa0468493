pub mod api;
pub mod keyed;
pub mod cache_controller;
pub mod config_controller;
pub mod config;

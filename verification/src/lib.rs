pub mod app;
pub mod config;
pub mod input;
pub mod text;
pub mod typing;

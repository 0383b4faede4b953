pub mod sorting;
pub mod text;
pub mod markdown;
pub mod config;
pub mod commands;

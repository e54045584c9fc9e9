pub mod args;
pub mod config;
pub mod error;
pub mod file_config;
pub mod prompt;
pub mod prompt_item;
pub mod strutil;
pub mod tmux;
pub mod utils;


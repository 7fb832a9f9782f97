//! Pick a git repository from the projects directory: find the
//! repositories, narrow them to the configured targets, put recently chosen
//! ones first, and remember the choice.

pub mod choice;
pub mod config;
pub mod fzf;
pub mod history;
pub mod repo;
pub mod text;

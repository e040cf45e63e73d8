//! Verified core of easyenv: the denylist and skip-list engine, `.env`
//! layering, the diff against what was previously set, the persisted state
//! token and the shell statements that apply a diff.

pub mod text;
pub mod keymap;
pub mod bytes;
pub mod state;
pub mod envmap;
pub mod diff;
pub mod merge;
pub mod dotenv;
pub mod paths;
pub mod config;
pub mod shell;
pub mod fastpath;
pub mod discover;
pub mod export;
pub mod cli;


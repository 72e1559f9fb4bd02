//! An intelligent terminal: its emulator, its sessions, its assistant, its
//! project scaffolds and its text user interface, as functions whose contracts
//! are proved.

pub mod ai;
pub mod changes;
pub mod diff;
pub mod export;
pub mod json;
pub mod paths;
pub mod project;
pub mod scaffold;
pub mod session;
pub mod table;
pub mod template;
pub mod terminal;
pub mod text;
pub mod time;
pub mod tui;
pub mod utils;

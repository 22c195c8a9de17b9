//! Core of an interactive command palette: a tree of named commands, a
//! ranked filter over a node's children, a navigation history stack, and
//! the decision logic that turns an executed command's output into either
//! a final value or a fresh sub-menu.

pub mod commands;
pub mod executor;
pub mod filter;
pub mod history;
pub mod loader;
pub mod mode;
pub mod palette;
pub mod text;

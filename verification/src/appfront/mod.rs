//! The user-interface toolkit.

pub mod component;
pub mod context;
pub mod generate;
pub mod json_ld;
pub mod openai_compat;
pub mod resource;
pub mod router;
pub mod shared;
pub mod signal;
pub mod static_tree;
pub mod store;
pub mod ui_tree;

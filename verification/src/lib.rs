//! Verified core of a terminal todo-list manager: task trees, project
//! storage logic, localisation lookup, text measuring and input handling.

pub mod todo;
pub mod storage;
pub mod text;
pub mod legacy;
pub mod projects;
pub mod commands;
pub mod editor;
pub mod i18n;
pub mod time;
pub mod cli;
pub mod progress;
pub mod session;
pub mod config;
pub mod panel;

//! The verified core of an interactive line selector for shell pipelines.
pub mod args;
pub mod draw;
pub mod find;
pub mod keys;
pub mod laws;
pub mod matching;
pub mod query;
pub mod ranking;
pub mod reader;
pub mod render;
pub mod schedule;
pub mod score;
pub mod search;
pub mod state;
pub mod store;
pub mod text;
pub mod utf8;

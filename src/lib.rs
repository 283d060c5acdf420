//! A line-addressed text editor engine: a byte buffer addressed by line
//! number, a small addressing language, and command dispatch.
pub mod buffer;
pub mod commands;
pub mod editor;
pub mod map;
pub mod text;

//! A key-value store over a red-black tree.
pub mod key;
pub mod tree;
pub mod db;
pub mod text;
pub mod command;
pub mod persistence;

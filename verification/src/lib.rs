//! Roomzin Identity Directory: the control-plane registry of the Roomzin platform.

pub mod api;
pub mod change;
pub mod codecs;
pub mod config;
pub mod effects;
pub mod error;
pub mod index;
pub mod keys;
pub mod laws;
pub mod model;
pub mod names;
pub mod order;
pub mod rebuild;
pub mod records;
pub mod registry;
pub mod segments;
pub mod state;
pub mod sweep;
pub mod table;
pub mod text;
pub mod tls;

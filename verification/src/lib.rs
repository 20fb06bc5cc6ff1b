//! Pharos: a phonebook directory for people and machines.

pub mod address;
pub mod client;
pub mod clock;
pub mod config;
pub mod console;
pub mod dispatch;
pub mod error;
pub mod exchange;
pub mod field_map;
pub mod file_storage;
pub mod laws;
pub mod ldap;
pub mod matching;
pub mod names;
pub mod numbers;
pub mod options;
pub mod outcomes;
pub mod pattern;
pub mod record;
pub mod reply;
pub mod scan;
pub mod selection;
pub mod session;
pub mod signing;
pub mod storage;
pub mod store;
pub mod subnet;
pub mod text;
pub mod turns;
pub mod wire;

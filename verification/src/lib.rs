//! The decision logic of the meow proxy, verified.
//!
//! What is decided here is done elsewhere: the state machines ask for effects
//! ([`effect::Request`]) and are told what came of them ([`effect::Reply`]).
pub mod disk;
pub mod download;
pub mod effect;
pub mod geodata;
pub mod hysteria2;
pub mod path;
pub mod text;
pub mod transport;
pub mod ui;

//! Core of an AirPlay receiver: stream ciphers, encrypted transport, metadata and
//! session parsers, playout scheduling and remote control.
//!
//! Everything here is a computation on plain values. Sockets, clocks, decoders and
//! threads belong to the application.
pub mod crypto;
pub mod dacp;
pub mod error;
pub mod net;
pub mod proto;
pub mod raop;
pub mod text;
pub mod wire;

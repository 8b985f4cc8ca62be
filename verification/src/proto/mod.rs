//! Parsers of the formats that senders speak.
pub mod dmap;
pub mod sdp;

//! A small key-value service speaking a length-prefixed text protocol:
//! the wire codec, commands read from frames and run against a store.

pub mod connection;
pub mod decimal;
pub mod decode;
pub mod encode;
pub mod frame;
pub mod handler;
pub mod parser;
pub mod store_laws;
pub mod wire;
pub mod wire_laws;

pub use frame::Frame;
pub use handler::Handler;

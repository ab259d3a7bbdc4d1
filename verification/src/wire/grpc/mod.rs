//! The streaming endpoint: HTTP/2 frames, protobuf messages and the service.

pub mod conn;
pub mod http2;
pub mod proto;
pub mod service;

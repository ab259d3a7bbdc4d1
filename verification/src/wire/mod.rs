//! Wire protocols.

pub mod base64;
pub mod bridge_auth;
pub mod codec;
pub mod grpc;
pub mod messages;
pub mod role_members;
pub mod scram;
pub mod tls;

//! A minimal Model Context Protocol runtime for resource-constrained devices.

pub mod json;
pub mod writer;
pub mod rpc;
pub mod text;
pub mod routes;
pub mod route_laws;
pub mod frame;
pub mod frame_laws;
pub mod runtime;
pub mod gateway;
pub mod transport;
pub mod minimal;
pub mod wire_laws;
pub mod escape_laws;

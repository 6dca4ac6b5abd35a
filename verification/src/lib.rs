//! Client-side core of an HTTP scheduler/executor protocol: leader detection
//! over a coordination-service namespace, a length-framed streaming codec, and
//! the request/response decision logic of the protocol client.

pub mod codec;
pub mod http_api;
pub mod master_detector;

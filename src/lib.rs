//! A relay for chat-completion requests: the model policy applied to inbound
//! requests, the reassembly of streamed upstream responses into JSON events,
//! and the extraction of token usage, each with a verified contract.

pub mod json;
pub mod codec;
pub mod text;
pub mod stream;
pub mod error;
pub mod policy;
pub mod usage;
pub mod relay;

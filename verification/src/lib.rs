//! A protocol-aware database proxy core: a streaming length-prefixed frame
//! codec, a typed message model for result-set frames, a PII scanner, a
//! deterministic faker, and the interception pipeline that rewrites selected
//! result-set cells while forwarding everything else byte-for-byte.

pub mod codec;
pub mod config;
pub mod faker;
pub mod health;
pub mod interceptor;
pub mod msg;
pub mod pipeline;
pub mod scanner;
pub mod wire;

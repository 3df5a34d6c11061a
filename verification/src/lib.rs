//! Route matching and request/reply state for a Fastify-style HTTP framework,
//! with the decisions behind forking worker processes.
pub mod builtins;
pub mod context;
pub mod fastify;
pub mod json;
pub mod nanbox;
pub mod router;
pub mod string_map;
pub mod text;
pub mod worker;

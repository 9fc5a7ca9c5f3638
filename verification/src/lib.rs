//! A proxy-subscription converter: it decodes a subscription document,
//! tells real proxies from informational placeholders, partitions them
//! into region groups under either of two classification policies,
//! attaches the load-distribution policy and the routing rules, and
//! renders the rewritten document, optionally compacting its repeated
//! probe blocks behind one shared reference.

#![allow(unused_imports)]

pub mod classify;
pub mod compact;
pub mod converter;
pub mod groups;
pub mod regions;
pub mod render;
pub mod text;
pub mod yamldoc;

//! A reverse proxy and API gateway core.

pub mod text;
pub mod sorted_map;
pub mod weighted;
pub mod config;
pub mod clock;
pub mod circuit;
pub mod balancer;
pub mod ratelimit;
pub mod router;
pub mod headers;
pub mod json;
pub mod auth;
pub mod counts;
pub mod metrics;
pub mod proxy;
pub mod admin;
pub mod health;
pub mod cli;
pub mod tls;
pub mod exchange;

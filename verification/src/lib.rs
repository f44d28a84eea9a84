//! Verified core of a proxy that disguises the URLs of protected resources.
pub mod random;
pub mod util;
pub mod cookies;
pub mod encryption;
pub mod headers;
pub mod service;
pub mod proxy;

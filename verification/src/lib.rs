//! A small multi-threaded web server's request handling: request parsing,
//! routing, page rendering, the static-file request queue with its priority
//! rule, the compressed-page cache and the server's event-driven state machine.

pub mod text;
pub mod queue;
pub mod cache;
pub mod codec;
pub mod pages;
pub mod http;
pub mod peer;
pub mod server;
pub mod path;

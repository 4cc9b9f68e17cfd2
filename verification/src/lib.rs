//! A verified HTTP-style reverse proxy / API gateway library.
//!
//! Incoming requests are matched against a path-segment routing trie and
//! dispatched to a configured component: a direct proxy to a named upstream
//! service, or a chain that pipes one component's response into the next
//! component's request. The library holds the pure logic — path handling,
//! the routing trie, the JSON model with merge and path addressing, the wire
//! codec, proxy request shaping, the chain execution engine, and
//! configuration parsing — with contracts checked by Verus. The surrounding
//! process (sockets, files, command line) lives outside the library and
//! drives the engine through its state-machine interface.

mod bridge;
pub mod config;
pub mod engine;
pub mod json;
pub mod jsontext;
pub mod kv;
pub mod model;
pub mod strutil;
pub mod trie;
pub mod wire;

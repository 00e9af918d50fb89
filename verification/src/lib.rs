//! A static path-segment router: route patterns made of literal segments,
//! named parameters and wildcards are registered in a trie, and an incoming
//! path is mapped to the value registered for the pattern that matches it,
//! together with the parameter bindings captured on the way.
//!
//! - [`segment`]: the kinds of pattern segment.
//! - [`route`]: reading a raw string as a path.
//! - [`pattern`]: when a pattern matches a path, what it captures, and when
//!   two patterns collide.
//! - [`params`]: the map of captured parameters.
//! - [`model`]: the trie as a mathematical value, with lookup and
//!   registration defined on it.
//! - [`registry`]: what a trie has registered, and the proofs that lookup
//!   and registration agree with it.
//! - [`router`]: the trie itself and the router's operations.
//!
//! A router accepts a pattern unless it collides with a registered one, and
//! a lookup finds the item of the one registered pattern that matches the
//! path, if there is one.

pub mod model;
pub mod params;
pub mod pattern;
pub mod registry;
pub mod route;
pub mod router;
pub mod segment;

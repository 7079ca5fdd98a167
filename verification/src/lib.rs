//! Scoped CSS engine: rewrites stylesheet selectors under a content-derived
//! namespace token so that rules from different sources never collide, and
//! keeps an insertion-ordered registry of the scoped stylesheets.

pub mod chars;
pub mod hash;
pub mod laws;
pub mod minify;
pub mod paths;
pub mod registry;
pub mod scoper;
pub mod selector;
pub mod splitter;

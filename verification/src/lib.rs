//! Rendering of overtype device output (typewriter-style character streams,
//! where bold is a double strike and underline is an underscore struck over a
//! character) into HTML with well-nested `<b>`/`<u>` tags, together with a
//! small catalogue model for locating rendered manual pages.

pub mod laws;
pub mod mandir;
pub mod typewriter;

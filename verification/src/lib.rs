//! A text-inclusion engine in the shape of an mdBook-style preprocessor:
//! directives of the form `{{#include path[:selector]}}` embedded in a text
//! block are resolved to the named file's lines, optionally restricted to a
//! line range or an anchored region, optionally re-indented, and recursively
//! re-resolved up to a fixed depth ceiling.

use vstd::prelude::*;

pub mod link;
pub mod replace;
pub mod string;
pub mod text;

verus! {

/// Maximum recursive expansion depth for nested inclusion directives.
pub const MAX_LINK_NESTED_DEPTH: usize = 10;

/// The escape marker: a directive written directly after this character is
/// rendered literally, with the marker stripped.
pub const ESCAPE_CHAR: char = '\\';

/// A pre-processor that expands inclusion directives and allows shifting the
/// included lines.
#[derive(Default)]
pub struct ShiftInclude;

impl ShiftInclude {
    /// Indicate whether a renderer is supported. This preprocessor emits
    /// MarkDown, so it supports almost any renderer.
    pub fn supports_renderer(renderer: &str) -> (r: bool)
        ensures
            r == (renderer@ != "not-supported"@),
    {
        !crate::text::str_eq(renderer, "not-supported")
    }
}

} // verus!

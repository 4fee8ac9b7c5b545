use vstd::prelude::*;

pub mod config;
pub mod content;
pub mod finder;
pub mod laws;
pub mod order;
pub mod outline;
pub mod paths;
pub mod scan;
pub mod strutil;

verus! {

/// The preprocessor itself: a stateless marker value whose behaviour
/// lives in the scanning and numbering functions of this crate.
pub struct AllMarkdown;

impl AllMarkdown {
    pub fn new() -> AllMarkdown {
        AllMarkdown
    }

    /// The name under which a host configuration addresses this
    /// preprocessor.
    pub fn name(&self) -> (r: &'static str)
        ensures
            r@ == "all-the-markdowns"@,
    {
        "all-the-markdowns"
    }

    /// The outline builder works for every renderer.
    pub fn supports_renderer(&self, _renderer: &str) -> (r: bool)
        ensures
            r,
    {
        true
    }
}

impl Default for AllMarkdown {
    fn default() -> AllMarkdown {
        AllMarkdown
    }
}

} // verus!

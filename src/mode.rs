use vstd::prelude::*;

verus! {

/// How characters other than ASCII letters are treated while a text is transformed.
#[derive(Debug, Clone, Copy, PartialEq, Eq, Structural)]
pub enum TextMode {
    /// Characters other than letters are dropped.
    AlphaOnly,
    /// Characters other than letters are passed through unchanged.
    PreserveAll,
}

impl Default for TextMode {
    fn default() -> (r: TextMode)
        ensures
            r == TextMode::PreserveAll,
    {
        TextMode::PreserveAll
    }
}

} // verus!

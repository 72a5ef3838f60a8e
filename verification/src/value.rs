use vstd::prelude::*;

verus! {

/// A value paired with a non-negative priority score.
///
/// The priority structures of the crawl order their entries by `score`
/// alone and never inspect `value`, so `T` needs no ordering of its own.
pub struct ScoredValue<T> {
    pub value: T,
    pub score: usize,
}

/// A downloaded page body together with the URL it was fetched from.
pub struct HtmlUrl {
    pub html: String,
    pub url: String,
}

} // verus!

//! Tradable assets.

use vstd::prelude::*;

verus! {

/// A tradable asset, identified by its symbol.
#[derive(Debug, Clone, Copy, PartialEq, Eq, Hash)]
pub struct Asset {
    pub symbol: &'static str,
}

impl View for Asset {
    type V = Seq<char>;

    /// An asset is its symbol.
    open spec fn view(&self) -> Seq<char> {
        self.symbol@
    }
}

/// Compares two string slices with `str`'s `==`. Trusted: the result is true
/// exactly when both slices hold the same characters.
#[verifier::external_body]
pub(crate) fn same_text(a: &str, b: &str) -> (r: bool)
    ensures
        r == (a@ == b@),
{
    a == b
}

impl Asset {
    pub fn new(symbol: &'static str) -> (asset: Self)
        ensures
            asset@ == symbol@,
            asset.symbol == symbol,
    {
        Self { symbol }
    }

    /// Whether two assets carry the same symbol.
    pub fn same(&self, other: &Asset) -> (b: bool)
        ensures
            b == (self@ == other@),
    {
        same_text(self.symbol, other.symbol)
    }
}

} // verus!

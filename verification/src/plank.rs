//! The two immutable value types of the library: a single plank and the
//! deck surface that the planks must cover.

use vstd::prelude::*;

verus! {

use vstd::string::StringExecFns;

/// A single rigid plank, identified only by its length.
#[derive(Debug, PartialEq, Eq, Clone, Copy)]
pub struct Plank {
    pub length: usize,
}

impl Plank {
    /// The largest length a validating constructor accepts for a plank.
    pub const MAX_LENGTH: usize = 10000;

    /// Builds a plank, rejecting lengths over [`Plank::MAX_LENGTH`].
    pub fn new(length: usize) -> (r: Result<Plank, String>)
        ensures
            length <= Plank::MAX_LENGTH ==> (r matches Ok(p) && p.length == length),
            length > Plank::MAX_LENGTH ==> (r matches Err(e) && e@ == "max length of plank is 10000"@),
    {
        if length > Self::MAX_LENGTH {
            Err(String::from_str("max length of plank is 10000"))
        } else {
            Ok(Plank { length })
        }
    }
}

/// The rectangular surface to cover: a length (the span of one row) and a
/// width (the number of rows).
#[derive(Debug, Clone, Copy)]
pub struct Deck {
    pub length: usize,
    pub width: usize,
}

impl Deck {
    /// The largest length a validating constructor accepts for a deck.
    pub const MAX_LENGTH: usize = 1000000;

    /// Builds a deck, rejecting zero dimensions and lengths over
    /// [`Deck::MAX_LENGTH`].
    pub fn new(length: usize, width: usize) -> (r: Result<Deck, String>)
        ensures
            length == 0 || width == 0 ==> (r matches Err(e)
                && e@ == "a deck can't have any zero dimension"@),
            length > 0 && width > 0 && length > Deck::MAX_LENGTH ==> (r matches Err(e)
                && e@ == "max length of deck is 1000000"@),
            0 < length <= Deck::MAX_LENGTH && width > 0 ==> (r matches Ok(d)
                && d.length == length && d.width == width),
    {
        if length == 0 || width == 0 {
            Err(String::from_str("a deck can't have any zero dimension"))
        } else if length > Self::MAX_LENGTH {
            Err(String::from_str("max length of deck is 1000000"))
        } else {
            Ok(Deck { length, width })
        }
    }
}

} // verus!

//! Deterministic plank layout ("calepinage") for a rectangular deck.
//!
//! A deck of a given length and width (number of rows) is covered row by
//! row with planks drawn from a shared heap, longest first, so that every
//! row's plank lengths sum exactly to the deck length.  Planks that do not
//! fit a row are carried over to the next one, and every other row is laid
//! in reverse order so that seams of neighbouring rows tend to fall at
//! different coordinates.

pub mod calepine;
pub mod heap;
pub mod layout;
pub mod line;
pub mod plank;
pub mod render;

pub use calepine::{
    assert_length_goal_fulfilled, calepine, calepine_line, lemma_conservation, lemma_exact_fit,
    lemma_row_count, rows_spec, CalepinageError, CalepineOutcome, CalepineStep,
};
pub use heap::PlankHeap;
pub use layout::Calepinage;
pub use line::{Junction, Line};
pub use plank::{Deck, Plank};

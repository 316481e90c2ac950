//! The finished layout: one row per unit of deck width, in creation order.

use vstd::prelude::*;

verus! {

use crate::line::Line;
use crate::plank::Plank;

/// The plank sequences of a sequence of rows.
pub open spec fn views_of_lines(lines: Seq<Line>) -> Seq<Seq<Plank>> {
    lines.map_values(|l: Line| l@)
}

/// A computed plank layout: the rows of the deck, in order.
#[derive(Debug, PartialEq, Clone)]
pub struct Calepinage(pub Vec<Line>);

impl View for Calepinage {
    type V = Seq<Seq<Plank>>;

    open spec fn view(&self) -> Seq<Seq<Plank>> {
        views_of_lines(self.0@)
    }
}

impl Calepinage {
    /// Returns this layout with one more row appended after the existing
    /// ones.
    pub fn with_line(self, new_line_to_add: Line) -> (c: Calepinage)
        ensures
            c@ == self@.push(new_line_to_add@),
    {
        let Calepinage(mut lines) = self;
        lines.push(new_line_to_add);
        let c = Calepinage(lines);
        proof {
            assert(c@ =~= self@.push(new_line_to_add@));
        }
        c
    }
}

impl Default for Calepinage {
    /// A layout with no rows.
    fn default() -> (c: Calepinage)
        ensures
            c@ == Seq::<Seq<Plank>>::empty(),
    {
        let c = Calepinage(Vec::new());
        proof {
            assert(c@ =~= Seq::<Seq<Plank>>::empty());
        }
        c
    }
}

} // verus!

//! One filled row of the deck and its seam coordinates.

use vstd::prelude::*;

verus! {

use crate::heap::{lemma_sum_of_nonneg, lemma_sum_of_take_bound, lemma_sum_of_take_step, sum_of};
use crate::plank::Plank;

/// An ordered row of planks laid end to end.
#[derive(Debug, PartialEq, Clone)]
pub struct Line(pub Vec<Plank>);

/// The coordinate of a seam between two consecutive planks of a row.
#[derive(Debug, PartialEq, Eq, Hash, Clone)]
pub struct Junction(pub usize);

impl View for Line {
    type V = Seq<Plank>;

    open spec fn view(&self) -> Seq<Plank> {
        self.0@
    }
}

/// The coordinate of the seam after plank `i` of a row: the summed length
/// of planks `0..=i`.
pub open spec fn junction_at(planks: Seq<Plank>, i: int) -> int {
    sum_of(planks.take(i + 1))
}

impl Line {
    /// Returns this row with one more plank appended at its end.
    pub fn with_plank(self, new_plank_to_add: Plank) -> (l: Line)
        ensures
            l@ == self@.push(new_plank_to_add),
    {
        let Line(old_planks) = self;
        let mut planks = old_planks;
        planks.push(new_plank_to_add);
        Line(planks)
    }

    /// Computes the internal seam coordinates of the row: the running sums
    /// after each plank except the last.  A row of zero or one planks has
    /// no internal seam.
    pub fn compute_junction(&self) -> (r: Vec<Junction>)
        requires
            sum_of(self@) <= usize::MAX,
        ensures
            self@.len() <= 1 ==> r@.len() == 0,
            self@.len() > 1 ==> r@.len() == self@.len() - 1,
            forall|i: int| 0 <= i < r@.len() ==> #[trigger] r@[i].0 == junction_at(self@, i),
    {
        let mut r: Vec<Junction> = Vec::new();
        let n: usize = self.0.len();
        if n <= 1 {
            return r;
        }
        let mut acc: usize = 0;
        let mut i: usize = 0;
        while i < n - 1
            invariant
                0 <= i <= n - 1,
                n == self@.len(),
                sum_of(self@) <= usize::MAX,
                acc == sum_of(self@.take(i as int)),
                r@.len() == i,
                forall|j: int| 0 <= j < i ==> #[trigger] r@[j].0 == junction_at(self@, j),
            decreases n - 1 - i,
        {
            proof {
                lemma_sum_of_take_step(self@, i as int);
                lemma_sum_of_take_bound(self@, i + 1);
                lemma_sum_of_nonneg(self@.take(i as int));
            }
            acc = acc + self.0[i].length;
            r.push(Junction(acc));
            i = i + 1;
        }
        r
    }
}

impl Default for Line {
    /// An empty row.
    fn default() -> (l: Line)
        ensures
            l@ == Seq::<Plank>::empty(),
    {
        Line(Vec::new())
    }
}

/// With every plank strictly longer than zero, the seam coordinates of a
/// row are strictly increasing in plank order.
pub proof fn lemma_junctions_strictly_increasing(planks: Seq<Plank>, i: int, j: int)
    requires
        forall|k: int| 0 <= k < planks.len() ==> #[trigger] planks[k].length > 0,
        0 <= i < j < planks.len(),
    ensures
        junction_at(planks, i) < junction_at(planks, j),
    decreases j - i,
{
    lemma_sum_of_take_step(planks, j);
    if i + 1 == j {
    } else {
        lemma_junctions_strictly_increasing(planks, i, j - 1);
    }
}

} // verus!

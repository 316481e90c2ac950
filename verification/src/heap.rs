//! The heap of available planks: an ordered collection together with a
//! cached total length that always equals the sum of the plank lengths.

use vstd::prelude::*;

verus! {

use crate::plank::Plank;

/// Sum of the lengths of a sequence of planks.
pub open spec fn sum_of(s: Seq<Plank>) -> int
    decreases s.len(),
{
    if s.len() == 0 {
        0
    } else {
        sum_of(s.drop_last()) + s.last().length
    }
}

/// Every plank of the sequence respects the plank length bound.
pub open spec fn all_planks_valid(s: Seq<Plank>) -> bool {
    forall|i: int| 0 <= i < s.len() ==> #[trigger] s[i].length <= Plank::MAX_LENGTH
}

pub proof fn lemma_sum_of_nonneg(s: Seq<Plank>)
    ensures
        0 <= sum_of(s),
    decreases s.len(),
{
    if s.len() > 0 {
        lemma_sum_of_nonneg(s.drop_last());
    }
}

pub proof fn lemma_sum_of_singleton(p: Plank)
    ensures
        sum_of(seq![p]) == p.length,
{
    assert(sum_of(Seq::<Plank>::empty()) == 0);
    assert(seq![p].drop_last() =~= Seq::<Plank>::empty());
    assert(sum_of(seq![p]) == sum_of(seq![p].drop_last()) + seq![p].last().length);
}

/// A sequence's sum is its head's length plus the sum of its tail.
pub proof fn lemma_sum_of_cons(p: Plank, s: Seq<Plank>)
    ensures
        sum_of(seq![p] + s) == p.length + sum_of(s),
{
    lemma_sum_of_singleton(p);
    lemma_sum_of_concat(seq![p], s);
}

pub proof fn lemma_sum_of_concat(a: Seq<Plank>, b: Seq<Plank>)
    ensures
        sum_of(a + b) == sum_of(a) + sum_of(b),
    decreases b.len(),
{
    if b.len() == 0 {
        assert(a + b =~= a);
    } else {
        lemma_sum_of_concat(a, b.drop_last());
        assert((a + b).drop_last() =~= a + b.drop_last());
        assert((a + b).last() == b.last());
    }
}

/// Reversing a sequence leaves the sum of its lengths unchanged.
pub proof fn lemma_sum_of_reverse(s: Seq<Plank>)
    ensures
        sum_of(s.reverse()) == sum_of(s),
    decreases s.len(),
{
    if s.len() > 0 {
        lemma_sum_of_reverse(s.drop_last());
        assert(s.reverse() =~= seq![s.last()] + s.drop_last().reverse());
        lemma_sum_of_cons(s.last(), s.drop_last().reverse());
    }
}

/// Taking one more element adds exactly that element's length to the sum.
pub proof fn lemma_sum_of_take_step(s: Seq<Plank>, i: int)
    requires
        0 <= i < s.len(),
    ensures
        sum_of(s.take(i + 1)) == sum_of(s.take(i)) + s[i].length,
{
    assert(s.take(i + 1).drop_last() =~= s.take(i));
    assert(s.take(i + 1).last() == s[i]);
}

/// The multiset of a heap of planks, plus a running total of their
/// lengths.  The total is maintained on every insertion, so it always
/// equals the sum of the lengths of the stored planks.
#[derive(Debug, PartialEq)]
pub struct PlankHeap {
    pub planks: Vec<Plank>,
    pub total_length: usize,
}

impl View for PlankHeap {
    type V = Seq<Plank>;

    open spec fn view(&self) -> Seq<Plank> {
        self.planks@
    }
}

impl PlankHeap {
    /// The cached total length, as a mathematical integer.
    pub open spec fn total(&self) -> int {
        self.total_length as int
    }

    /// The heap's cached total equals the sum of the stored lengths.
    pub open spec fn wf(&self) -> bool {
        self.total() == sum_of(self@)
    }

    /// An empty heap.
    pub fn new() -> (h: PlankHeap)
        ensures
            h@ == Seq::<Plank>::empty(),
            h.total() == 0,
            h.wf(),
    {
        PlankHeap { planks: Vec::new(), total_length: 0 }
    }

    /// Returns this heap with `count` extra planks of the given length
    /// appended, the total raised accordingly.
    pub fn add(self, count: usize, length: usize) -> (h: PlankHeap)
        requires
            length <= Plank::MAX_LENGTH,
            self.total() + count * length <= usize::MAX,
        ensures
            h@ == self@ + Seq::new(count as nat, |i: int| (Plank { length })),
            h.total() == self.total() + count * length,
            self.wf() ==> h.wf(),
    {
        let mut planks = self.planks;
        let ghost orig: Seq<Plank> = planks@;
        let mut k: usize = 0;
        while k < count
            invariant
                k <= count,
                length <= Plank::MAX_LENGTH,
                planks@ =~= orig + Seq::new(k as nat, |i: int| (Plank { length })),
            decreases count - k,
        {
            planks.push(Plank { length });
            k = k + 1;
        }
        proof {
            assert(count * length <= usize::MAX - self.total_length) by (nonlinear_arith)
                requires
                    self.total() + count * length <= usize::MAX,
                    0 <= self.total_length,
            {}
            if self.wf() {
                lemma_sum_of_concat(orig, Seq::new(count as nat, |i: int| (Plank { length })));
                lemma_sum_of_repeated(count as nat, length);
            }
        }
        let total_length = self.total_length + count * length;
        PlankHeap { planks, total_length }
    }

    /// Rebuilds a heap, with a correct total, from an arbitrary plank
    /// sequence.
    pub fn from_planks(planks: Vec<Plank>) -> (h: PlankHeap)
        requires
            all_planks_valid(planks@),
            sum_of(planks@) <= usize::MAX,
        ensures
            h@ == planks@,
            h.total() == sum_of(planks@),
            h.wf(),
    {
        let mut h = PlankHeap::new();
        let n: usize = planks.len();
        let mut i: usize = 0;
        while i < n
            invariant
                i <= n,
                n == planks@.len(),
                all_planks_valid(planks@),
                sum_of(planks@) <= usize::MAX,
                h@ =~= planks@.take(i as int),
                h.total() == sum_of(planks@.take(i as int)),
                h.wf(),
            decreases n - i,
        {
            proof {
                lemma_sum_of_take_step(planks@, i as int);
                lemma_sum_of_take_bound(planks@, i + 1);
                assert(planks@[i as int].length <= Plank::MAX_LENGTH);
            }
            let p = planks[i];
            h = h.add(1, p.length);
            proof {
                assert(h@ =~= planks@.take(i as int).push(planks@[i as int]));
                assert(planks@.take(i as int).push(planks@[i as int]) =~= planks@.take(
                    i + 1,
                ));
            }
            i = i + 1;
        }
        proof {
            assert(planks@.take(n as int) =~= planks@);
        }
        h
    }

    /// Renders the stored plank lengths, separated by a comma and a
    /// space.
    pub fn to_string(&self) -> (s: String)
        ensures
            s@ == crate::render::lengths_body(self@),
    {
        crate::render::render_lengths_body(&self.planks)
    }
}

/// A prefix of a sequence never sums to more than the whole sequence.
pub proof fn lemma_sum_of_take_bound(s: Seq<Plank>, i: int)
    requires
        0 <= i <= s.len(),
    ensures
        sum_of(s.take(i)) <= sum_of(s),
    decreases s.len() - i,
{
    if i == s.len() {
        assert(s.take(i) =~= s);
    } else {
        lemma_sum_of_take_step(s, i);
        lemma_sum_of_take_bound(s, i + 1);
        lemma_sum_of_nonneg(s.take(i));
    }
}

proof fn lemma_sum_of_repeated(count: nat, length: usize)
    ensures
        sum_of(Seq::new(count, |i: int| (Plank { length }))) == count * length,
    decreases count,
{
    let s = Seq::new(count, |i: int| (Plank { length }));
    if count == 0 {
        assert(s.len() == 0);
    } else {
        lemma_sum_of_repeated((count - 1) as nat, length);
        assert(s.drop_last() =~= Seq::new((count - 1) as nat, |i: int| (Plank { length })));
        assert(count * length == (count - 1) * length + length) by (nonlinear_arith);
    }
}

impl Default for PlankHeap {
    /// An empty heap, equal to [`PlankHeap::new`].
    fn default() -> (h: PlankHeap)
        ensures
            h@ == Seq::<Plank>::empty(),
            h.total() == 0,
            h.wf(),
    {
        PlankHeap::new()
    }
}

} // verus!

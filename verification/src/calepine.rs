//! The row-filling algorithm: for each row of the deck, greedily select
//! planks from the heap, longest first, until the row length is reached
//! exactly; planks too long for the remaining slack are deferred to the
//! next row, and every other row is laid in reverse order.

use vstd::prelude::*;

verus! {

use vstd::multiset::Multiset;
use vstd::seq_lib::lemma_multiset_commutative;
use vstd::string::StringExecFns;

use crate::heap::{
    all_planks_valid, lemma_sum_of_concat, lemma_sum_of_cons, lemma_sum_of_nonneg,
    lemma_sum_of_reverse, lemma_sum_of_singleton, sum_of, PlankHeap,
};
use crate::layout::{views_of_lines, Calepinage};
use crate::line::Line;
use crate::plank::{Deck, Plank};

/// The given plank placed into a sequence already sorted by descending
/// length: before the first plank that is not longer than it.
pub open spec fn insert_desc(p: Plank, s: Seq<Plank>) -> Seq<Plank>
    decreases s.len(),
{
    if s.len() == 0 {
        seq![p]
    } else if s[0].length > p.length {
        seq![s[0]] + insert_desc(p, s.drop_first())
    } else {
        seq![p] + s
    }
}

/// The planks of a sequence rearranged by descending length.  Planks of
/// equal length are indistinguishable, so this is the one sorted
/// rearrangement of the sequence.
pub open spec fn sort_desc(s: Seq<Plank>) -> Seq<Plank>
    decreases s.len(),
{
    if s.len() == 0 {
        Seq::empty()
    } else {
        insert_desc(s.last(), sort_desc(s.drop_last()))
    }
}

proof fn lemma_insert_desc_props(p: Plank, s: Seq<Plank>)
    ensures
        insert_desc(p, s).to_multiset() =~= seq![p].to_multiset().add(s.to_multiset()),
        sum_of(insert_desc(p, s)) == p.length + sum_of(s),
        insert_desc(p, s).len() == s.len() + 1,
    decreases s.len(),
{
    broadcast use vstd::seq_lib::group_to_multiset_ensures;
    broadcast use vstd::multiset::group_multiset_axioms;

    if s.len() == 0 {
        assert(insert_desc(p, s) =~= seq![p]);
        assert(s.to_multiset() =~= Multiset::<Plank>::empty());
        assert(seq![p].to_multiset().add(s.to_multiset()) =~= seq![p].to_multiset());
        lemma_sum_of_singleton(p);
    } else if s[0].length > p.length {
        lemma_insert_desc_props(p, s.drop_first());
        let rest = insert_desc(p, s.drop_first());
        lemma_multiset_commutative(seq![s[0]], rest);
        lemma_multiset_commutative(seq![p], s.drop_first());
        assert(s =~= seq![s[0]] + s.drop_first());
        lemma_multiset_commutative(seq![s[0]], s.drop_first());
        lemma_sum_of_cons(s[0], rest);
        lemma_sum_of_cons(s[0], s.drop_first());
        lemma_sum_of_cons(p, s.drop_first());
    } else {
        lemma_multiset_commutative(seq![p], s);
        lemma_sum_of_cons(p, s);
    }
}

/// Sorting rearranges the planks: the multiset, the summed length and the
/// count are unchanged.
pub proof fn lemma_sort_desc_props(s: Seq<Plank>)
    ensures
        sort_desc(s).to_multiset() =~= s.to_multiset(),
        sum_of(sort_desc(s)) == sum_of(s),
        sort_desc(s).len() == s.len(),
    decreases s.len(),
{
    broadcast use vstd::seq_lib::group_to_multiset_ensures;
    broadcast use vstd::multiset::group_multiset_axioms;

    if s.len() == 0 {
        assert(sort_desc(s) =~= s);
    } else {
        lemma_sort_desc_props(s.drop_last());
        lemma_insert_desc_props(s.last(), sort_desc(s.drop_last()));
        assert(s =~= s.drop_last().push(s.last()));
        assert(s.to_multiset() =~= s.drop_last().to_multiset().insert(s.last()));
        assert(seq![s.last()].to_multiset() =~= Multiset::<Plank>::empty().insert(s.last())) by {
            assert(seq![s.last()] =~= Seq::<Plank>::empty().push(s.last()));
            assert(Seq::<Plank>::empty().to_multiset() =~= Multiset::<Plank>::empty());
        }
        assert(sum_of(s) == sum_of(s.drop_last()) + s.last().length);
    }
}

/// The planks of a sorted run placed into one row: the planks taken into
/// the row in scan order, the planks deferred because they would overrun
/// the target, the planks never examined, and whether the target was
/// reached.
pub struct RowFill {
    pub selected: Seq<Plank>,
    pub deferred: Seq<Plank>,
    pub leftover: Seq<Plank>,
    pub filled: bool,
}

/// One greedy pass over planks in scan order, accumulating planks whose
/// lengths sum to `target - acc` exactly: a plank that keeps the running
/// total within the target is selected, any other is deferred, and the
/// scan stops as soon as the target is reached.
pub open spec fn fill(s: Seq<Plank>, acc: int, target: int) -> RowFill
    decreases s.len(),
{
    if acc >= target {
        RowFill { selected: Seq::empty(), deferred: Seq::empty(), leftover: s, filled: true }
    } else if s.len() == 0 {
        RowFill {
            selected: Seq::empty(),
            deferred: Seq::empty(),
            leftover: Seq::empty(),
            filled: false,
        }
    } else if acc + s[0].length <= target {
        let rest = fill(s.drop_first(), acc + s[0].length, target);
        RowFill {
            selected: seq![s[0]] + rest.selected,
            deferred: rest.deferred,
            leftover: rest.leftover,
            filled: rest.filled,
        }
    } else {
        let rest = fill(s.drop_first(), acc, target);
        RowFill {
            selected: rest.selected,
            deferred: seq![s[0]] + rest.deferred,
            leftover: rest.leftover,
            filled: rest.filled,
        }
    }
}

/// What one greedy pass does with its planks: selected, deferred and
/// unexamined planks together rearrange the input, their sums add up, a
/// filled pass reaches the target exactly, and a failed pass has examined
/// everything.
pub proof fn lemma_fill_props(s: Seq<Plank>, acc: int, target: int)
    requires
        acc <= target,
    ensures
        (fill(s, acc, target).selected + fill(s, acc, target).deferred + fill(
            s,
            acc,
            target,
        ).leftover).to_multiset() =~= s.to_multiset(),
        sum_of(fill(s, acc, target).selected) + sum_of(fill(s, acc, target).deferred) + sum_of(
            fill(s, acc, target).leftover,
        ) == sum_of(s),
        fill(s, acc, target).filled ==> acc + sum_of(fill(s, acc, target).selected) == target,
        !fill(s, acc, target).filled ==> fill(s, acc, target).leftover.len() == 0,
    decreases s.len(),
{
    broadcast use vstd::seq_lib::group_to_multiset_ensures;
    broadcast use vstd::multiset::group_multiset_axioms;

    let f = fill(s, acc, target);
    lemma_sum_of_concat(f.selected + f.deferred, f.leftover);
    lemma_sum_of_concat(f.selected, f.deferred);
    lemma_multiset_commutative(f.selected + f.deferred, f.leftover);
    lemma_multiset_commutative(f.selected, f.deferred);
    if acc >= target {
        assert(f.selected + f.deferred + f.leftover =~= s);
    } else if s.len() == 0 {
        assert(f.selected + f.deferred + f.leftover =~= s);
    } else {
        assert(s =~= seq![s[0]] + s.drop_first());
        lemma_multiset_commutative(seq![s[0]], s.drop_first());
        lemma_sum_of_cons(s[0], s.drop_first());
        let rest = if acc + s[0].length <= target {
            fill(s.drop_first(), acc + s[0].length, target)
        } else {
            fill(s.drop_first(), acc, target)
        };
        if acc + s[0].length <= target {
            lemma_fill_props(s.drop_first(), acc + s[0].length, target);
            lemma_sum_of_cons(s[0], rest.selected);
        } else {
            lemma_fill_props(s.drop_first(), acc, target);
            lemma_sum_of_cons(s[0], rest.deferred);
            lemma_multiset_commutative(seq![s[0]], rest.deferred);
        }
        lemma_sum_of_concat(rest.selected + rest.deferred, rest.leftover);
        lemma_sum_of_concat(rest.selected, rest.deferred);
        lemma_multiset_commutative(rest.selected + rest.deferred, rest.leftover);
        lemma_multiset_commutative(rest.selected, rest.deferred);
        lemma_multiset_commutative(seq![s[0]], rest.selected);
    }
}

proof fn lemma_insert_desc_split(p: Plank, s: Seq<Plank>, j: int)
    requires
        0 <= j <= s.len(),
        forall|k: int| 0 <= k < j ==> #[trigger] s[k].length > p.length,
        j < s.len() ==> s[j].length <= p.length,
    ensures
        insert_desc(p, s) == s.take(j) + seq![p] + s.skip(j),
    decreases j,
{
    if j == 0 {
        assert(insert_desc(p, s) =~= s.take(0) + seq![p] + s.skip(0));
    } else {
        assert(s[0].length > p.length);
        lemma_insert_desc_split(p, s.drop_first(), j - 1);
        assert(forall|k: int|
            0 <= k < j - 1 ==> #[trigger] s.drop_first()[k].length > p.length) by {
            assert(forall|k: int| 0 <= k < j - 1 ==> s.drop_first()[k] == s[k + 1]);
        }
        assert(insert_desc(p, s) =~= seq![s[0]] + (s.drop_first().take(j - 1) + seq![p]
            + s.drop_first().skip(j - 1)));
        assert(seq![s[0]] + (s.drop_first().take(j - 1) + seq![p] + s.drop_first().skip(j - 1))
            =~= s.take(j) + seq![p] + s.skip(j));
    }
}

/// Places a plank into a vector sorted by descending length, keeping it
/// sorted: before the first plank that is not longer.
fn insert_sorted_desc(out: &mut Vec<Plank>, p: Plank)
    ensures
        final(out)@ == insert_desc(p, old(out)@),
{
    let n: usize = out.len();
    let mut j: usize = 0;
    while j < n && out[j].length > p.length
        invariant
            0 <= j <= n,
            n == out@.len(),
            out@ == old(out)@,
            forall|k: int| 0 <= k < j ==> #[trigger] out@[k].length > p.length,
        decreases n - j,
    {
        j = j + 1;
    }
    out.insert(j, p);
    proof {
        lemma_insert_desc_split(p, old(out)@, j as int);
        assert(old(out)@.take(j as int) + seq![p] + old(out)@.skip(j as int) =~= old(
            out,
        )@.insert(j as int, p));
    }
}

/// Why a layout attempt failed.
#[derive(Debug, PartialEq)]
pub enum CalepinageError {
    /// The heap ran out of planks before a row reached its target length,
    /// with nothing left over: the supply is simply too small.
    NotEnoughPlanks,
    /// The heap ran out of usable planks: those remaining were each too
    /// long for the slack of the current row.  The diagnostic lists them.
    OnlyUnusablePlanksRemaining(String),
}

/// One intermediate state of a row-filling pass: the planks set aside for
/// later rows, the planks selected for the current row, and an optional
/// plank held back.
#[derive(Debug, PartialEq)]
pub struct CalepineStep {
    pub remaining: PlankHeap,
    pub selected: PlankHeap,
    pub stash: Option<Plank>,
}

/// How an optional held-back plank renders in a step diagnostic.
pub open spec fn stash_render(o: Option<Plank>) -> Seq<char> {
    match o {
        None => ("None")@,
        Some(p) => ("Some(Plank { length: ")@ + crate::render::dec_digits(p.length as int) + (
        " })")@,
    }
}

/// How a whole step renders: its two heaps as bracketed length listings,
/// then the held-back plank.
pub open spec fn step_render(step: CalepineStep) -> Seq<char> {
    ("remaining = [")@ + crate::render::lengths_body(step.remaining@) + ("], selected = [")@
        + crate::render::lengths_body(step.selected@) + ("], stash = ")@ + stash_render(step.stash)
}

impl CalepineStep {
    /// Renders the step for a diagnostic message.
    pub fn to_string(&self) -> (s: String)
        ensures
            s@ == step_render(*self),
    {
        let mut s = String::from_str("remaining = [");
        let remaining = self.remaining.to_string();
        s.append(remaining.as_str());
        s.append("], selected = [");
        let selected = self.selected.to_string();
        s.append(selected.as_str());
        s.append("], stash = ");
        match &self.stash {
            None => {
                s.append("None");
            },
            Some(p) => {
                s.append("Some(Plank { length: ");
                let num = crate::render::render_usize(p.length);
                s.append(num.as_str());
                s.append(" })");
            },
        }
        s
    }
}

impl Default for CalepineStep {
    /// A step with two empty heaps and nothing held back.
    fn default() -> (step: CalepineStep)
        ensures
            step.remaining@ == Seq::<Plank>::empty(),
            step.selected@ == Seq::<Plank>::empty(),
            step.stash is None,
    {
        CalepineStep {
            remaining: PlankHeap::new(),
            selected: PlankHeap::new(),
            stash: None,
        }
    }
}

/// Checks that a step's selected planks reach the row's length goal, and
/// classifies the failure when they do not: an empty remainder means the
/// supply was too small, any other remainder means only unusable planks
/// were left.
pub fn assert_length_goal_fulfilled(step: CalepineStep, deck_length: usize) -> (r: Result<
    CalepineStep,
    CalepinageError,
>)
    ensures
        step.selected.total() >= deck_length ==> (r matches Ok(kept) && kept == step),
        step.selected.total() < deck_length && step.remaining.total() == 0 ==> r == Err::<
            CalepineStep,
            CalepinageError,
        >(CalepinageError::NotEnoughPlanks),
        step.selected.total() < deck_length && step.remaining.total() != 0 ==> (r matches Err(e)
            && e matches CalepinageError::OnlyUnusablePlanksRemaining(msg) && msg@ == step_render(
            step,
        )),
{
    if step.selected.total_length < deck_length {
        if step.remaining.total_length == 0 {
            Err(CalepinageError::NotEnoughPlanks)
        } else {
            let msg = step.to_string();
            Err(CalepinageError::OnlyUnusablePlanksRemaining(msg))
        }
    } else {
        Ok(step)
    }
}

/// Reverses the order of the planks of a vector.
fn reverse_planks(v: &mut Vec<Plank>)
    ensures
        final(v)@ == old(v)@.reverse(),
{
    let n: usize = v.len();
    let mut out: Vec<Plank> = Vec::new();
    let mut i: usize = 0;
    while i < n
        invariant
            0 <= i <= n,
            n == v@.len(),
            v@ == old(v)@,
            out@.len() == i,
            forall|j: int| 0 <= j < i ==> #[trigger] out@[j] == v@[n - 1 - j],
        decreases n - i,
    {
        out.push(v[n - 1 - i]);
        i = i + 1;
    }
    proof {
        assert(out@ =~= old(v)@.reverse());
    }
    *v = out;
}

/// Sorts the planks of a vector by descending length.
fn sort_planks_desc(v: &mut Vec<Plank>)
    ensures
        final(v)@ == sort_desc(old(v)@),
{
    let n: usize = v.len();
    let mut out: Vec<Plank> = Vec::new();
    let mut i: usize = 0;
    while i < n
        invariant
            0 <= i <= n,
            n == v@.len(),
            v@ == old(v)@,
            out@ == sort_desc(v@.take(i as int)),
        decreases n - i,
    {
        insert_sorted_desc(&mut out, v[i]);
        proof {
            assert(v@.take(i + 1).drop_last() =~= v@.take(i as int));
            assert(v@.take(i + 1).last() == v@[i as int]);
        }
        i = i + 1;
    }
    proof {
        assert(old(v)@.take(n as int) =~= old(v)@);
    }
    *v = out;
}

/// Fills one row of the given length from the heap: sorts the heap by
/// descending length, walks the sorted planks once, selects every plank
/// that keeps the row within its length and defers the others, and stops
/// as soon as the row is exactly full.  The row is reversed when `invert`
/// is set.  The unused planks, deferred ones included, stay in the heap
/// for the next row; when the planks run out first, the error says
/// whether any deferred plank was left.
pub fn calepine_line(length: usize, plank_heap: &mut PlankHeap, invert: bool) -> (r: Result<
    Line,
    CalepinageError,
>)
    requires
        old(plank_heap).wf(),
    ensures
        final(plank_heap).wf(),
        ({
            let f = fill(sort_desc(old(plank_heap)@), 0, length as int);
            &&& f.filled ==> (r matches Ok(line) && line@ == (if invert {
                f.selected.reverse()
            } else {
                f.selected
            }) && final(plank_heap)@ == f.leftover + f.deferred && final(plank_heap).total()
                == old(plank_heap).total() - length)
            &&& !f.filled && f.deferred.len() == 0 ==> r == Err::<Line, CalepinageError>(
                CalepinageError::NotEnoughPlanks,
            )
            &&& !f.filled && f.deferred.len() > 0 ==> (r matches Err(e) && e matches
                CalepinageError::OnlyUnusablePlanksRemaining(msg) && msg@
                == crate::render::plank_listing(f.deferred))
            &&& !f.filled ==> final(plank_heap)@ == sort_desc(old(plank_heap)@)
                && final(plank_heap).total() == old(plank_heap).total()
        }),
{
    sort_planks_desc(&mut plank_heap.planks);
    proof {
        lemma_sort_desc_props(old(plank_heap)@);
    }
    let ghost sorted: Seq<Plank> = plank_heap.planks@;
    let ghost target: int = length as int;
    let ghost f = fill(sorted, 0, target);
    let n: usize = plank_heap.planks.len();
    let mut selected: Vec<Plank> = Vec::new();
    let mut deferred: Vec<Plank> = Vec::new();
    let mut acc: usize = 0;
    let mut i: usize = 0;
    proof {
        assert(sorted.skip(0) =~= sorted);
        assert(f.selected =~= Seq::<Plank>::empty() + f.selected);
        assert(f.deferred =~= Seq::<Plank>::empty() + f.deferred);
        assert(sum_of(Seq::<Plank>::empty()) == 0);
    }
    while acc < length
        invariant
            0 <= i <= n,
            n == plank_heap.planks@.len(),
            plank_heap.planks@ == sorted,
            sorted == sort_desc(old(plank_heap)@),
            plank_heap.total_length == old(plank_heap).total_length,
            old(plank_heap).wf(),
            sum_of(sorted) == sum_of(old(plank_heap)@),
            f == fill(sorted, 0, target),
            target == length as int,
            acc <= length,
            acc as int == sum_of(selected@),
            f.selected =~= selected@ + fill(sorted.skip(i as int), acc as int, target).selected,
            f.deferred =~= deferred@ + fill(sorted.skip(i as int), acc as int, target).deferred,
            f.leftover =~= fill(sorted.skip(i as int), acc as int, target).leftover,
            f.filled == fill(sorted.skip(i as int), acc as int, target).filled,
        decreases n - i,
    {
        proof {
            assert(sorted.skip(0) =~= sorted);
        }
        if i == n {
            proof {
                assert(sorted.skip(n as int) =~= Seq::<Plank>::empty());
                assert(!f.filled);
                assert(f.selected =~= selected@);
                assert(f.deferred =~= deferred@);
            }
            if deferred.is_empty() {
                return Err(CalepinageError::NotEnoughPlanks);
            } else {
                let msg = crate::render::render_plank_listing(&deferred);
                return Err(CalepinageError::OnlyUnusablePlanksRemaining(msg));
            }
        }
        let p = plank_heap.planks[i];
        proof {
            let rest = sorted.skip(i as int);
            assert(rest[0] == sorted[i as int]);
            assert(rest.drop_first() =~= sorted.skip(i + 1));
        }
        if p.length <= length - acc {
            let ghost sel0 = selected@;
            selected.push(p);
            proof {
                assert(selected@.drop_last() =~= sel0);
                assert(sum_of(selected@) == sum_of(sel0) + p.length);
                let cont = fill(sorted.skip(i + 1), acc + p.length, target);
                assert(f.selected =~= selected@ + cont.selected) by {
                    assert(sel0 + (seq![p] + cont.selected) =~= selected@ + cont.selected);
                }
            }
            acc = acc + p.length;
        } else {
            let ghost def0 = deferred@;
            deferred.push(p);
            proof {
                let cont = fill(sorted.skip(i + 1), acc as int, target);
                assert(f.deferred =~= deferred@ + cont.deferred) by {
                    assert(def0 + (seq![p] + cont.deferred) =~= deferred@ + cont.deferred);
                }
            }
        }
        i = i + 1;
    }
    proof {
        let cont = fill(sorted.skip(i as int), acc as int, target);
        assert(cont.filled);
        assert(f.filled);
        assert(cont.selected =~= Seq::<Plank>::empty());
        assert(cont.deferred =~= Seq::<Plank>::empty());
        assert(f.selected =~= selected@);
        assert(f.deferred =~= deferred@);
        assert(f.leftover =~= sorted.skip(i as int));
        lemma_fill_props(sorted, 0, target);
        lemma_sum_of_nonneg(f.deferred);
        lemma_sum_of_nonneg(f.leftover);
    }
    let mut rest: Vec<Plank> = Vec::new();
    let mut j: usize = i;
    while j < n
        invariant
            i <= j <= n,
            n == plank_heap.planks@.len(),
            plank_heap.planks@ == sorted,
            rest@ =~= sorted.subrange(i as int, j as int),
        decreases n - j,
    {
        rest.push(plank_heap.planks[j]);
        proof {
            assert(sorted.subrange(i as int, j as int).push(sorted[j as int]) =~= sorted.subrange(
                i as int,
                j + 1,
            ));
        }
        j = j + 1;
    }
    proof {
        assert(sorted.subrange(i as int, n as int) =~= sorted.skip(i as int));
    }
    rest.append(&mut deferred);
    proof {
        lemma_sum_of_concat(f.leftover, f.deferred);
    }
    let new_total = plank_heap.total_length - acc;
    plank_heap.planks = rest;
    plank_heap.total_length = new_total;
    if invert {
        reverse_planks(&mut selected);
    }
    Ok(Line(selected))
}

/// The outcome of laying out every row of a deck from a heap of planks:
/// the rows, or the classified failure of the first row that could not be
/// filled.
pub enum CalepineOutcome {
    Done(Seq<Seq<Plank>>),
    NotEnough,
    Unusable(Seq<Plank>),
}

/// Lays out rows `i..width`, threading the heap from row to row: each
/// row is the greedy fill of the heap sorted by descending length, rows
/// at odd indices are reversed, the planks a row does not use feed the
/// next row, and the first row that cannot be filled decides the error.
pub open spec fn rows_spec(planks: Seq<Plank>, length: int, width: int, i: int) -> CalepineOutcome
    decreases width - i,
{
    if i >= width {
        CalepineOutcome::Done(Seq::empty())
    } else {
        let f = fill(sort_desc(planks), 0, length);
        if !f.filled {
            if f.deferred.len() == 0 {
                CalepineOutcome::NotEnough
            } else {
                CalepineOutcome::Unusable(f.deferred)
            }
        } else {
            let row = if i % 2 == 1 {
                f.selected.reverse()
            } else {
                f.selected
            };
            match rows_spec(f.leftover + f.deferred, length, width, i + 1) {
                CalepineOutcome::Done(rows) => CalepineOutcome::Done(seq![row] + rows),
                other => other,
            }
        }
    }
}

/// The rows of a layout flattened into one plank sequence, in row order.
pub open spec fn flatten_rows(rows: Seq<Seq<Plank>>) -> Seq<Plank>
    decreases rows.len(),
{
    if rows.len() == 0 {
        Seq::empty()
    } else {
        rows[0] + flatten_rows(rows.drop_first())
    }
}

proof fn lemma_rows_spec_laws(planks: Seq<Plank>, length: int, width: int, i: int, rows: Seq<
    Seq<Plank>,
>)
    requires
        0 <= length,
        0 <= i <= width,
        rows_spec(planks, length, width, i) == CalepineOutcome::Done(rows),
    ensures
        rows.len() == width - i,
        forall|k: int| 0 <= k < rows.len() ==> sum_of(#[trigger] rows[k]) == length,
        flatten_rows(rows).to_multiset().subset_of(planks.to_multiset()),
    decreases width - i,
{
    broadcast use vstd::seq_lib::group_to_multiset_ensures;
    broadcast use vstd::multiset::group_multiset_axioms;

    if i >= width {
        assert(rows =~= Seq::<Seq<Plank>>::empty());
        assert(flatten_rows(rows) =~= Seq::<Plank>::empty());
        assert(forall|x: Plank| flatten_rows(rows).to_multiset().count(x) == 0);
    } else {
        let sorted = sort_desc(planks);
        let f = fill(sorted, 0, length);
        assert(f.filled);
        let row = if i % 2 == 1 {
            f.selected.reverse()
        } else {
            f.selected
        };
        let heap_next = f.leftover + f.deferred;
        let cont = rows_spec(heap_next, length, width, i + 1);
        match cont {
            CalepineOutcome::Done(rest) => {
                assert(rows == seq![row] + rest);
                lemma_rows_spec_laws(heap_next, length, width, i + 1, rest);
                lemma_fill_props(sorted, 0, length);
                lemma_sort_desc_props(planks);
                lemma_sum_of_reverse(f.selected);
                assert(sum_of(row) == length);
                assert(forall|k: int|
                    0 <= k < rows.len() ==> sum_of(#[trigger] rows[k]) == length) by {
                    assert(rows[0] == row);
                    assert(forall|k: int| 1 <= k < rows.len() ==> rows[k] == rest[k - 1]);
                }
                assert(flatten_rows(rows) =~= row + flatten_rows(rest)) by {
                    assert(rows.drop_first() =~= rest);
                }
                lemma_multiset_commutative(row, flatten_rows(rest));
                lemma_multiset_commutative(f.leftover, f.deferred);
                lemma_multiset_commutative(f.selected + f.deferred, f.leftover);
                lemma_multiset_commutative(f.selected, f.deferred);
                if i % 2 == 1 {
                    f.selected.lemma_reverse_to_multiset();
                }
                assert(forall|x: Plank| #[trigger]
                    flatten_rows(rows).to_multiset().count(x) <= planks.to_multiset().count(
                        x,
                    )) by {
                    assert(forall|x: Plank| #[trigger]
                        flatten_rows(rest).to_multiset().count(x) <= heap_next.to_multiset().count(
                            x,
                        ));
                }
            },
            _ => {
                assert(false);
            },
        }
    }
}

/// Exact-fit law: every row of a successful layout sums exactly to the
/// deck length.
pub proof fn lemma_exact_fit(planks: Seq<Plank>, length: int, width: int, rows: Seq<Seq<Plank>>)
    requires
        0 <= length,
        0 <= width,
        rows_spec(planks, length, width, 0) == CalepineOutcome::Done(rows),
    ensures
        forall|k: int| 0 <= k < rows.len() ==> sum_of(#[trigger] rows[k]) == length,
{
    lemma_rows_spec_laws(planks, length, width, 0, rows);
}

/// Row-count law: a successful layout has exactly one row per unit of
/// deck width.
pub proof fn lemma_row_count(planks: Seq<Plank>, length: int, width: int, rows: Seq<Seq<Plank>>)
    requires
        0 <= length,
        0 <= width,
        rows_spec(planks, length, width, 0) == CalepineOutcome::Done(rows),
    ensures
        rows.len() == width,
{
    lemma_rows_spec_laws(planks, length, width, 0, rows);
}

/// Conservation law: the planks of a successful layout, over all rows
/// together, are drawn from the supplied heap without replacement — each
/// supplied plank is used at most once, and no more planks are used than
/// were supplied.
pub proof fn lemma_conservation(planks: Seq<Plank>, length: int, width: int, rows: Seq<Seq<Plank>>)
    requires
        0 <= length,
        0 <= width,
        rows_spec(planks, length, width, 0) == CalepineOutcome::Done(rows),
    ensures
        flatten_rows(rows).to_multiset().subset_of(planks.to_multiset()),
        flatten_rows(rows).len() <= planks.len(),
{
    broadcast use vstd::seq_lib::group_to_multiset_ensures;
    broadcast use vstd::multiset::group_multiset_axioms;

    lemma_rows_spec_laws(planks, length, width, 0, rows);
    vstd::multiset::axiom_len_sub(
        planks.to_multiset(),
        flatten_rows(rows).to_multiset(),
    );
}

/// Computes the plank layout of the deck: one row per unit of deck
/// width, each filled exactly to the deck length with planks drawn from
/// the heap, longest first, rows at odd indices laid in reverse order.
/// The first row that cannot be filled aborts the whole layout with a
/// classified error and no partial result.
pub fn calepine(plank_heap: PlankHeap, deck: Deck) -> (r: Result<Calepinage, CalepinageError>)
    requires
        plank_heap.wf(),
        all_planks_valid(plank_heap@),
    ensures
        ({
            let outcome = rows_spec(plank_heap@, deck.length as int, deck.width as int, 0);
            &&& outcome matches CalepineOutcome::Done(rows) ==> (r matches Ok(c) && c@ == rows)
            &&& outcome is NotEnough ==> r == Err::<Calepinage, CalepinageError>(
                CalepinageError::NotEnoughPlanks,
            )
            &&& outcome matches CalepineOutcome::Unusable(d) ==> (r matches Err(e) && e matches
                CalepinageError::OnlyUnusablePlanksRemaining(msg) && msg@
                == crate::render::plank_listing(d))
        }),
{
    proof {
        assert(sum_of(plank_heap@) <= usize::MAX);
    }
    let mut ph = PlankHeap::from_planks(plank_heap.planks);
    let length = deck.length;
    let width = deck.width;
    let ghost target: int = length as int;
    let ghost outcome = rows_spec(plank_heap@, target, width as int, 0);
    let mut lines: Vec<Line> = Vec::new();
    let mut i: usize = 0;
    proof {
        assert(views_of_lines(Seq::<Line>::empty()) + Seq::<Seq<Plank>>::empty()
            =~= Seq::<Seq<Plank>>::empty());
    }
    while i < width
        invariant
            0 <= i <= width,
            ph.wf(),
            length == deck.length,
            width == deck.width,
            target == length as int,
            outcome == rows_spec(plank_heap@, target, width as int, 0),
            ({
                let cont = rows_spec(ph@, target, width as int, i as int);
                &&& (cont matches CalepineOutcome::Done(rest) ==> (outcome matches
                    CalepineOutcome::Done(rows) && rows == views_of_lines(lines@) + rest))
                &&& (cont is NotEnough ==> outcome is NotEnough)
                &&& (cont matches CalepineOutcome::Unusable(d) ==> outcome
                    == CalepineOutcome::Unusable(d))
            }),
        decreases width - i,
    {
        let invert = i % 2 == 1;
        let ghost ph0 = ph@;
        let ghost f = fill(sort_desc(ph0), 0, target);
        match calepine_line(length, &mut ph, invert) {
            Ok(line) => {
                let ghost lines0 = lines@;
                lines.push(line);
                proof {
                    let row = if (i as int) % 2 == 1 {
                        f.selected.reverse()
                    } else {
                        f.selected
                    };
                    assert(line@ == row);
                    let cont_next = rows_spec(ph@, target, width as int, i + 1);
                    match cont_next {
                        CalepineOutcome::Done(rest) => {
                            assert(rows_spec(ph0, target, width as int, i as int)
                                == CalepineOutcome::Done(seq![row] + rest));
                            assert(views_of_lines(lines0) + (seq![row] + rest)
                                =~= views_of_lines(lines@) + rest) by {
                                assert(views_of_lines(lines@) =~= views_of_lines(lines0).push(
                                    line@,
                                ));
                            }
                        },
                        _ => {},
                    }
                }
            },
            Err(e) => {
                proof {
                    assert(!f.filled);
                    assert(rows_spec(ph0, target, width as int, i as int) == (
                    if f.deferred.len() == 0 {
                        CalepineOutcome::NotEnough
                    } else {
                        CalepineOutcome::Unusable(f.deferred)
                    }));
                }
                return Err(e);
            },
        }
        i = i + 1;
    }
    proof {
        assert(rows_spec(ph@, target, width as int, width as int) == CalepineOutcome::Done(
            Seq::<Seq<Plank>>::empty(),
        ));
        match outcome {
            CalepineOutcome::Done(rows) => {
                assert(rows =~= views_of_lines(lines@));
            },
            _ => {},
        }
    }
    Ok(Calepinage(lines))
}

} // verus!

//! Nesting levels: arc candidates are ordered by the width of their span,
//! narrow ones first, and each is then placed one level above the highest
//! arc already placed whose span conflicts with its own.

use crate::model::{Arc, ArcView};
use vstd::prelude::*;

verus! {

/// A dependency relation between two rendered tokens that has no level yet.
#[derive(Debug, PartialEq, Eq)]
pub struct ArcCandidate {
    /// Rendered position of the governor.
    pub head_idx: usize,
    /// Rendered position of the dependent.
    pub dep_idx: usize,
    /// Raw id of the dependent.
    pub dep_id: String,
    /// Relation label.
    pub label: String,
    /// Whether the relation comes from the enhanced graph.
    pub is_enhanced: bool,
}

/// What an `ArcCandidate` holds.
pub struct ArcCandidateView {
    pub head_idx: int,
    pub dep_idx: int,
    pub dep_id: Seq<char>,
    pub label: Seq<char>,
    pub is_enhanced: bool,
}

impl View for ArcCandidate {
    type V = ArcCandidateView;

    open spec fn view(&self) -> ArcCandidateView {
        ArcCandidateView {
            head_idx: self.head_idx as int,
            dep_idx: self.dep_idx as int,
            dep_id: self.dep_id@,
            label: self.label@,
            is_enhanced: self.is_enhanced,
        }
    }
}

impl DeepView for ArcCandidate {
    type V = ArcCandidateView;

    open spec fn deep_view(&self) -> ArcCandidateView {
        self@
    }
}

impl ArcCandidateView {
    /// The smaller of the two positions.
    pub open spec fn lo(self) -> int {
        if self.head_idx < self.dep_idx {
            self.head_idx
        } else {
            self.dep_idx
        }
    }

    /// The larger of the two positions.
    pub open spec fn hi(self) -> int {
        if self.head_idx < self.dep_idx {
            self.dep_idx
        } else {
            self.head_idx
        }
    }

    /// How many positions the span crosses.
    pub open spec fn width(self) -> int {
        self.hi() - self.lo()
    }

    /// The arc that this candidate becomes on the given level.
    pub open spec fn placed_at(self, level: int) -> ArcView {
        ArcView {
            start_idx: self.lo(),
            end_idx: self.hi(),
            dep_id: self.dep_id,
            label: self.label,
            level,
            is_head_left: self.head_idx < self.dep_idx,
            is_enhanced: self.is_enhanced,
        }
    }
}

impl ArcView {
    /// The smaller end of the span.
    pub open spec fn lo(self) -> int {
        if self.start_idx <= self.end_idx {
            self.start_idx
        } else {
            self.end_idx
        }
    }

    /// The larger end of the span.
    pub open spec fn hi(self) -> int {
        if self.start_idx <= self.end_idx {
            self.end_idx
        } else {
            self.start_idx
        }
    }

    /// Whether the two arcs may not share a level.
    pub open spec fn conflicts_with(self, other: ArcView) -> bool {
        spans_conflict(self.lo(), self.hi(), other.lo(), other.hi())
    }

    /// The arc without its level.
    pub open spec fn candidate(self) -> ArcCandidateView {
        ArcCandidateView {
            head_idx: if self.is_head_left {
                self.lo()
            } else {
                self.hi()
            },
            dep_idx: if self.is_head_left {
                self.hi()
            } else {
                self.lo()
            },
            dep_id: self.dep_id,
            label: self.label,
            is_enhanced: self.is_enhanced,
        }
    }
}

/// Two spans conflict when they overlap in more than a point or are the same
/// span.
pub open spec fn spans_conflict(lo1: int, hi1: int, lo2: int, hi2: int) -> bool {
    ||| (if lo1 > lo2 {
        lo1
    } else {
        lo2
    }) < (if hi1 < hi2 {
        hi1
    } else {
        hi2
    })
    ||| (lo1 == lo2 && hi1 == hi2)
}

/// The width of each candidate.
pub open spec fn widths_of(cands: Seq<ArcCandidateView>) -> Seq<int> {
    Seq::new(cands.len(), |i: int| cands[i].width())
}

/// Where an item of width `w` enters `order`: behind the last item that is
/// not wider than `w`.
pub open spec fn slot(order: Seq<int>, widths: Seq<int>, w: int) -> int
    decreases order.len(),
{
    if order.len() > 0 && widths[order.last()] > w {
        slot(order.drop_last(), widths, w)
    } else {
        order.len() as int
    }
}

/// The first `n` positions of `widths`, ordered by ascending width; positions
/// of equal width keep their order.
pub open spec fn width_order_upto(widths: Seq<int>, n: int) -> Seq<int>
    decreases n,
{
    if n <= 0 {
        Seq::<int>::empty()
    } else {
        let order = width_order_upto(widths, n - 1);
        order.insert(slot(order, widths, widths[n - 1]), n - 1)
    }
}

/// The positions of `widths`, ordered by ascending width; positions of equal
/// width keep their order.
pub open spec fn width_order(widths: Seq<int>) -> Seq<int> {
    width_order_upto(widths, widths.len() as int)
}

/// The candidates in the given order of positions.
pub open spec fn arrange(cands: Seq<ArcCandidateView>, order: Seq<int>) -> Seq<ArcCandidateView> {
    Seq::new(order.len(), |p: int| cands[order[p]])
}

/// The candidates by ascending width of span, those of equal width in the
/// order in which they were given.
pub open spec fn by_width(cands: Seq<ArcCandidateView>) -> Seq<ArcCandidateView> {
    arrange(cands, width_order(widths_of(cands)))
}

/// The highest level among the placed arcs whose span conflicts with
/// `[lo, hi]`; 0 if there is none.
pub open spec fn highest_conflict(placed: Seq<ArcView>, lo: int, hi: int) -> int
    decreases placed.len(),
{
    if placed.len() == 0 {
        0
    } else {
        let rest = highest_conflict(placed.drop_last(), lo, hi);
        let a = placed.last();
        if spans_conflict(lo, hi, a.lo(), a.hi()) && a.level > rest {
            a.level
        } else {
            rest
        }
    }
}

/// The arcs that come of placing the candidates one after another, each one
/// level above the highest conflicting arc placed before it.
pub open spec fn place_all(cands: Seq<ArcCandidateView>) -> Seq<ArcView>
    decreases cands.len(),
{
    if cands.len() == 0 {
        Seq::<ArcView>::empty()
    } else {
        let placed = place_all(cands.drop_last());
        let c = cands.last();
        placed.push(c.placed_at(1 + highest_conflict(placed, c.lo(), c.hi())))
    }
}

/// The arcs of a sentence: the candidates ordered by width, then placed.
pub open spec fn leveled_arcs(cands: Seq<ArcCandidateView>) -> Seq<ArcView> {
    place_all(by_width(cands))
}

/// The order of the first `n` positions has `n` entries, each of them a
/// position below `n`.
pub proof fn lemma_width_order_entries(widths: Seq<int>, n: int)
    requires
        0 <= n <= widths.len(),
    ensures
        width_order_upto(widths, n).len() == n,
        forall|p: int| 0 <= p < n ==> 0 <= #[trigger] width_order_upto(widths, n)[p] < n,
    decreases n,
{
    if n > 0 {
        lemma_width_order_entries(widths, n - 1);
        let order = width_order_upto(widths, n - 1);
        lemma_slot_bounds(order, widths, widths[n - 1]);
    }
}

/// A slot is a position of the order or its end; every item at or behind the
/// slot is wider than `w`, and the item before the slot is not.
pub proof fn lemma_slot_bounds(order: Seq<int>, widths: Seq<int>, w: int)
    ensures
        0 <= slot(order, widths, w) <= order.len(),
        forall|p: int| slot(order, widths, w) <= p < order.len() ==> widths[#[trigger] order[p]] > w,
        slot(order, widths, w) > 0 ==> widths[order[slot(order, widths, w) - 1]] <= w,
    decreases order.len(),
{
    if order.len() > 0 && widths[order.last()] > w {
        lemma_slot_bounds(order.drop_last(), widths, w);
        let s = slot(order, widths, w);
        assert forall|p: int| s <= p < order.len() implies widths[#[trigger] order[p]] > w by {
            if p < order.len() - 1 {
                assert(order.drop_last()[p] == order[p]);
            }
        }
    }
}

/// Whether position `i` stands before position `j` in the order by width:
/// it is narrower, or as wide and earlier.
pub open spec fn comes_before(widths: Seq<int>, i: int, j: int) -> bool {
    widths[i] < widths[j] || (widths[i] == widths[j] && i < j)
}

/// Whether `order` lists each position of `widths` once, by ascending width
/// and, among equal widths, by ascending position.
pub open spec fn is_stable_width_order(widths: Seq<int>, order: Seq<int>) -> bool {
    &&& order.len() == widths.len()
    &&& forall|p: int| 0 <= p < order.len() ==> 0 <= #[trigger] order[p] < widths.len()
    &&& forall|p: int, q: int|
        #![trigger order[p], order[q]]
        0 <= p < q < order.len() ==> comes_before(widths, order[p], order[q])
}

/// Among the first `n` positions, whatever stands earlier in the order is
/// narrower, or as wide and earlier in the input.
pub proof fn lemma_width_order_upto_sorted(widths: Seq<int>, n: int)
    requires
        0 <= n <= widths.len(),
    ensures
        forall|p: int, q: int|
            #![trigger width_order_upto(widths, n)[p], width_order_upto(widths, n)[q]]
            0 <= p < q < n ==> comes_before(
                widths,
                width_order_upto(widths, n)[p],
                width_order_upto(widths, n)[q],
            ),
    decreases n,
{
    if n > 0 {
        let order = width_order_upto(widths, n - 1);
        let w = widths[n - 1];
        lemma_width_order_upto_sorted(widths, n - 1);
        lemma_width_order_entries(widths, n - 1);
        lemma_slot_bounds(order, widths, w);
    }
}

/// The order by width lists every position exactly once, narrower spans
/// first, and spans of equal width in the order of the input.
pub proof fn lemma_width_order_stable(widths: Seq<int>)
    ensures
        is_stable_width_order(widths, width_order(widths)),
        width_order(widths).no_duplicates(),
{
    let n = widths.len() as int;
    lemma_width_order_entries(widths, n);
    lemma_width_order_upto_sorted(widths, n);
}

/// Positions whose widths never decrease are already in order.
pub proof fn lemma_width_order_of_sorted(widths: Seq<int>, n: int)
    requires
        0 <= n <= widths.len(),
        forall|i: int, j: int| 0 <= i <= j < widths.len() ==> widths[i] <= widths[j],
    ensures
        width_order_upto(widths, n) == Seq::new(n as nat, |i: int| i),
    decreases n,
{
    if n > 0 {
        lemma_width_order_of_sorted(widths, n - 1);
    }
}

/// The candidates ordered by width are all the candidates, each once, and
/// their widths never decrease.
pub proof fn lemma_by_width_sorted(cands: Seq<ArcCandidateView>)
    ensures
        by_width(cands).len() == cands.len(),
        by_width(cands).to_multiset() == cands.to_multiset(),
        forall|p: int, q: int|
            #![trigger by_width(cands)[p], by_width(cands)[q]]
            0 <= p <= q < cands.len() ==> by_width(cands)[p].width() <= by_width(cands)[q].width(),
{
    let widths = widths_of(cands);
    let order = width_order(widths);
    lemma_width_order_stable(widths);
    lemma_arrange_is_permutation(cands, order);
}

/// Arranging a sequence by an order that lists each of its positions once
/// gives the same items, each as often as before.
pub proof fn lemma_arrange_is_permutation(cands: Seq<ArcCandidateView>, order: Seq<int>)
    requires
        order.len() == cands.len(),
        order.no_duplicates(),
        forall|p: int| 0 <= p < order.len() ==> 0 <= #[trigger] order[p] < cands.len(),
    ensures
        arrange(cands, order).to_multiset() == cands.to_multiset(),
    decreases cands.len(),
{
    broadcast use vstd::seq_lib::group_to_multiset_ensures;

    let arranged = arrange(cands, order);
    if cands.len() > 0 {
        // Take the last candidate out of both sequences.
        let last = cands.len() - 1;
        let at = find_position(order, last);
        let fewer = cands.drop_last();
        let shorter = order.remove(at);
        lemma_arrange_is_permutation(fewer, shorter);
        assert(arrange(fewer, shorter) =~= arranged.remove(at));
        assert(cands =~= fewer.push(cands.last()));
    }
}

/// Where `order` holds `i`, when it lists every position below its length.
proof fn find_position(order: Seq<int>, i: int) -> (at: int)
    requires
        order.no_duplicates(),
        forall|p: int| 0 <= p < order.len() ==> 0 <= #[trigger] order[p] < order.len(),
        0 <= i < order.len(),
    ensures
        0 <= at < order.len(),
        order[at] == i,
{
    let positions = Set::new(|p: int| 0 <= p < order.len());
    if !order.contains(i) {
        // All entries lie among the positions other than `i`: more entries
        // than values, so two of them would be equal.
        order.unique_seq_to_set();
        vstd::set_lib::lemma_int_range(0, order.len() as int);
        assert(positions =~= vstd::set_lib::set_int_range(0, order.len() as int));
        vstd::set_lib::lemma_len_subset(order.to_set(), positions.remove(i));
    }
    choose|p: int| 0 <= p < order.len() && order[p] == i
}

/// The arcs come one for each candidate, in the same order, each with a level
/// of at least 1 and at most its place in the order, and with its start
/// before or at its end.
pub proof fn lemma_place_all_shape(cands: Seq<ArcCandidateView>)
    ensures
        place_all(cands).len() == cands.len(),
        forall|i: int|
            0 <= i < cands.len() ==> {
                let a = #[trigger] place_all(cands)[i];
                &&& a == cands[i].placed_at(a.level)
                &&& 1 <= a.level <= i + 1
                &&& a.start_idx <= a.end_idx
                &&& a.candidate() == cands[i]
            },
    decreases cands.len(),
{
    if cands.len() > 0 {
        let before = cands.drop_last();
        lemma_place_all_shape(before);
        let placed = place_all(before);
        let c = cands.last();
        lemma_highest_conflict_bounds(placed, c.lo(), c.hi(), before.len() as int);
    }
}

/// The highest conflicting level is no less than the level of any
/// conflicting arc, and it is 0 or the level of one of them.
pub proof fn lemma_highest_conflict_bounds(placed: Seq<ArcView>, lo: int, hi: int, bound: int)
    requires
        bound >= 0,
        forall|i: int| 0 <= i < placed.len() ==> (#[trigger] placed[i]).level <= bound,
    ensures
        0 <= highest_conflict(placed, lo, hi) <= bound,
        forall|i: int|
            0 <= i < placed.len() && spans_conflict(
                lo,
                hi,
                (#[trigger] placed[i]).lo(),
                placed[i].hi(),
            ) ==> placed[i].level <= highest_conflict(placed, lo, hi),
        highest_conflict(placed, lo, hi) == 0 || exists|i: int|
            0 <= i < placed.len() && spans_conflict(
                lo,
                hi,
                (#[trigger] placed[i]).lo(),
                placed[i].hi(),
            ) && placed[i].level == highest_conflict(placed, lo, hi),
    decreases placed.len(),
{
    if placed.len() > 0 {
        let rest = placed.drop_last();
        lemma_highest_conflict_bounds(rest, lo, hi, bound);
        let top = highest_conflict(placed, lo, hi);
        assert forall|i: int|
            0 <= i < placed.len() && spans_conflict(
                lo,
                hi,
                (#[trigger] placed[i]).lo(),
                placed[i].hi(),
            ) implies placed[i].level <= top by {
            if i < rest.len() {
                assert(rest[i] == placed[i]);
            }
        }
        if top != 0 {
            if top == highest_conflict(rest, lo, hi) {
                let i = choose|i: int|
                    0 <= i < rest.len() && spans_conflict(
                        lo,
                        hi,
                        (#[trigger] rest[i]).lo(),
                        rest[i].hi(),
                    ) && rest[i].level == highest_conflict(rest, lo, hi);
                assert(placed[i] == rest[i]);
            }
        }
    }
}

/// No two arcs whose spans conflict share a level: the one placed later
/// lies higher. And every arc lies exactly one level above the highest
/// conflicting arc before it, or on level 1 if there is none.
pub proof fn lemma_levels_separate_conflicts(cands: Seq<ArcCandidateView>)
    ensures
        forall|i: int, j: int|
            #![trigger place_all(cands)[i], place_all(cands)[j]]
            0 <= i < j < cands.len() && place_all(cands)[i].conflicts_with(place_all(cands)[j])
                ==> place_all(cands)[i].level < place_all(cands)[j].level,
        forall|j: int|
            0 <= j < cands.len() ==> (#[trigger] place_all(cands)[j]).level == 1 || exists|i: int|
                0 <= i < j && (#[trigger] place_all(cands)[i]).conflicts_with(place_all(cands)[j])
                    && place_all(cands)[i].level + 1 == place_all(cands)[j].level,
    decreases cands.len(),
{
    if cands.len() > 0 {
        let before = cands.drop_last();
        let placed = place_all(before);
        let arcs = place_all(cands);
        let c = cands.last();
        let last = cands.len() - 1;
        lemma_levels_separate_conflicts(before);
        lemma_place_all_shape(before);
        lemma_highest_conflict_bounds(placed, c.lo(), c.hi(), before.len() as int);
        let top = highest_conflict(placed, c.lo(), c.hi());
        assert forall|j: int| 0 <= j < cands.len() implies (#[trigger] arcs[j]).level == 1 || exists|
            i: int,
        |
            0 <= i < j && (#[trigger] arcs[i]).conflicts_with(arcs[j]) && arcs[i].level + 1
                == arcs[j].level by {
            if j < last {
                if placed[j].level != 1 {
                    let i = choose|i: int|
                        0 <= i < j && (#[trigger] placed[i]).conflicts_with(placed[j])
                            && placed[i].level + 1 == placed[j].level;
                    assert(arcs[i] == placed[i]);
                }
            } else if top != 0 {
                let i = choose|i: int|
                    0 <= i < placed.len() && spans_conflict(
                        c.lo(),
                        c.hi(),
                        (#[trigger] placed[i]).lo(),
                        placed[i].hi(),
                    ) && placed[i].level == top;
                assert(arcs[i] == placed[i]);
            }
        }
    }
}

/// What holds of the arcs of every sentence: each arc has its start before
/// or at its end and a level of at least 1, the arcs stand by ascending
/// width, and no two arcs whose spans conflict share a level.
pub open spec fn arcs_well_formed(arcs: Seq<ArcView>) -> bool {
    &&& forall|i: int|
        0 <= i < arcs.len() ==> (#[trigger] arcs[i]).start_idx <= arcs[i].end_idx && arcs[i].level
            >= 1
    &&& forall|i: int, j: int|
        #![trigger arcs[i], arcs[j]]
        0 <= i <= j < arcs.len() ==> arcs[i].end_idx - arcs[i].start_idx <= arcs[j].end_idx
            - arcs[j].start_idx
    &&& forall|i: int, j: int|
        #![trigger arcs[i], arcs[j]]
        0 <= i < j < arcs.len() && arcs[i].conflicts_with(arcs[j]) ==> arcs[i].level
            != arcs[j].level
}

/// The arcs computed for any candidates are well formed.
pub proof fn lemma_leveled_arcs_well_formed(cands: Seq<ArcCandidateView>)
    ensures
        arcs_well_formed(leveled_arcs(cands)),
        leveled_arcs(cands).len() == cands.len(),
{
    let sorted = by_width(cands);
    lemma_by_width_sorted(cands);
    lemma_place_all_shape(sorted);
    lemma_levels_separate_conflicts(sorted);
}

/// Running the assignment again on the arcs that it produced, taken as
/// candidates in the order in which they stand, reproduces their order and
/// their levels.
pub proof fn lemma_leveled_arcs_reproducible(cands: Seq<ArcCandidateView>)
    ensures
        leveled_arcs(Seq::new(leveled_arcs(cands).len(), |i: int| leveled_arcs(cands)[i].candidate()))
            == leveled_arcs(cands),
{
    let sorted = by_width(cands);
    let arcs = leveled_arcs(cands);
    let again = Seq::new(arcs.len(), |i: int| arcs[i].candidate());
    lemma_by_width_sorted(cands);
    lemma_place_all_shape(sorted);
    assert(again =~= sorted);
    let widths = widths_of(sorted);
    lemma_width_order_of_sorted(widths, widths.len() as int);
    assert(by_width(sorted) =~= sorted);
}

impl ArcCandidate {
    /// The smaller of the two positions.
    pub fn lo(&self) -> (r: usize)
        ensures
            r == self@.lo(),
    {
        if self.head_idx < self.dep_idx {
            self.head_idx
        } else {
            self.dep_idx
        }
    }

    /// The larger of the two positions.
    pub fn hi(&self) -> (r: usize)
        ensures
            r == self@.hi(),
    {
        if self.head_idx < self.dep_idx {
            self.dep_idx
        } else {
            self.head_idx
        }
    }

    /// How many positions the span crosses.
    pub fn width(&self) -> (r: usize)
        ensures
            r == self@.width(),
    {
        self.hi() - self.lo()
    }
}

/// The positions of the candidates, ordered by ascending width of span;
/// positions of equal width keep their order.
pub fn order_by_width(cands: &[ArcCandidate]) -> (order: Vec<usize>)
    ensures
        order@.map_values(|i: usize| i as int) == width_order(widths_of(cands.deep_view())),
        is_stable_width_order(widths_of(cands.deep_view()), order@.map_values(|i: usize| i as int)),
        order@.len() == cands@.len(),
        forall|p: int| 0 <= p < order@.len() ==> #[trigger] order@[p] < cands@.len(),
{
    let ghost widths = widths_of(cands.deep_view());
    proof {
        lemma_width_order_stable(widths);
    }
    let mut order: Vec<usize> = Vec::new();
    let mut k: usize = 0;
    while k < cands.len()
        invariant
            k <= cands@.len(),
            widths == widths_of(cands.deep_view()),
            order@.len() == k,
            forall|p: int| 0 <= p < order@.len() ==> #[trigger] order@[p] < k,
            order@.map_values(|i: usize| i as int) == width_order_upto(widths, k as int),
        decreases cands@.len() - k,
    {
        let w = cands[k].width();
        let ghost spec_order = order@.map_values(|i: usize| i as int);
        let mut p: usize = order.len();
        assert(spec_order.take(p as int) =~= spec_order);
        while p > 0 && cands[order[p - 1]].width() > w
            invariant
                p <= order@.len(),
                order@.len() == k,
                k < cands@.len(),
                w == widths[k as int],
                widths == widths_of(cands.deep_view()),
                spec_order == order@.map_values(|i: usize| i as int),
                forall|q: int| 0 <= q < order@.len() ==> #[trigger] order@[q] < k,
                slot(spec_order, widths, w as int) == slot(spec_order.take(p as int), widths, w as int),
            decreases p,
        {
            assert(spec_order.take(p as int).drop_last() =~= spec_order.take(p - 1));
            p -= 1;
        }
        order.insert(p, k);
        k += 1;
    }
    order
}

/// The arcs of a sentence: the candidates ordered by ascending width of
/// span (those of equal width in the order given), each placed one level
/// above the highest arc before it whose span conflicts with its own.
pub fn assign_levels(cands: &[ArcCandidate]) -> (arcs: Vec<Arc>)
    ensures
        arcs.deep_view() == leveled_arcs(cands.deep_view()),
        arcs@.len() == cands@.len(),
        arcs_well_formed(arcs.deep_view()),
{
    proof {
        lemma_leveled_arcs_well_formed(cands.deep_view());
    }
    let order = order_by_width(cands);
    let ghost sorted = by_width(cands.deep_view());
    let mut arcs: Vec<Arc> = Vec::new();
    let mut k: usize = 0;
    while k < order.len()
        invariant
            k <= order@.len(),
            order@.len() == cands@.len(),
            forall|p: int| 0 <= p < order@.len() ==> #[trigger] order@[p] < cands@.len(),
            sorted == by_width(cands.deep_view()),
            order@.map_values(|i: usize| i as int) == width_order(widths_of(cands.deep_view())),
            arcs@.len() == k,
            arcs.deep_view() == place_all(sorted.take(k as int)),
            forall|j: int| 0 <= j < arcs@.len() ==> (#[trigger] arcs@[j]).level <= k,
        decreases order@.len() - k,
    {
        let cand = &cands[order[k]];
        let lo = cand.lo();
        let hi = cand.hi();
        let ghost placed = arcs.deep_view();
        let mut top: usize = 0;
        let mut j: usize = 0;
        while j < arcs.len()
            invariant
                j <= arcs@.len(),
                arcs@.len() == k,
                placed == arcs.deep_view(),
                top <= k,
                forall|i: int| 0 <= i < arcs@.len() ==> (#[trigger] arcs@[i]).level <= k,
                top == highest_conflict(placed.take(j as int), lo as int, hi as int),
            decreases arcs@.len() - j,
        {
            let other = &arcs[j];
            let other_lo = if other.start_idx <= other.end_idx {
                other.start_idx
            } else {
                other.end_idx
            };
            let other_hi = if other.start_idx <= other.end_idx {
                other.end_idx
            } else {
                other.start_idx
            };
            let inner_lo = if lo > other_lo {
                lo
            } else {
                other_lo
            };
            let inner_hi = if hi < other_hi {
                hi
            } else {
                other_hi
            };
            assert(placed.take(j + 1).drop_last() =~= placed.take(j as int));
            if (inner_lo < inner_hi || (lo == other_lo && hi == other_hi)) && other.level > top {
                top = other.level;
            }
            j += 1;
        }
        assert(placed.take(j as int) =~= placed);
        let arc = Arc {
            start_idx: lo,
            end_idx: hi,
            dep_id: cand.dep_id.clone(),
            label: cand.label.clone(),
            level: top + 1,
            is_head_left: cand.head_idx < cand.dep_idx,
            is_enhanced: cand.is_enhanced,
        };
        arcs.push(arc);
        proof {
            assert(sorted.take(k + 1).drop_last() =~= sorted.take(k as int));
        }
        k += 1;
    }
    assert(sorted.take(k as int) =~= sorted);
    arcs
}

} // verus!

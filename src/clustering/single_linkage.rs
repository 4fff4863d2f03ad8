use vstd::prelude::*;
use vstd::relations::sorted_by;
use vstd::pervasive::VecAdditionalExecFns;

verus! {

// ........................... LinkageResult ..........................................

/// The linkage distance found for a set of points, with estimates of how many clusters
/// a single pass over the points in curve order would form with it.
#[derive(Copy, Clone, Debug, PartialEq, Eq, Structural)]
pub struct LinkageResult {
    /// The square of the linkage distance.
    pub linkage_square_distance: u64,
    /// How many distances between consecutive points exceed the linkage distance.
    pub count_of_too_large_distances: u32,
    /// How many runs of consecutive points, joined by distances no larger than the linkage
    /// distance, hold more points than the outlier cluster size.
    pub large_cluster_count: u32,
    /// How many such runs hold no more points than the outlier cluster size.
    pub outlier_cluster_count: u32,
    /// How many points lie in those outlier runs.
    pub outlier_count: u32,
}

impl LinkageResult {
    /// A result with every value zero.
    pub fn new() -> (r: Self)
        ensures
            r == (LinkageResult {
                linkage_square_distance: 0,
                count_of_too_large_distances: 0,
                large_cluster_count: 0,
                outlier_cluster_count: 0,
                outlier_count: 0,
            }),
    {
        LinkageResult {
            linkage_square_distance: 0,
            count_of_too_large_distances: 0,
            large_cluster_count: 0,
            outlier_cluster_count: 0,
            outlier_count: 0,
        }
    }
}

// ........................... Runs of points .........................................

/// The square distances of a sequence of pairs, in the same order.
pub open spec fn square_distances(d: Seq<AdjacentPairDistance>) -> Seq<u64> {
    d.map_values(|p: AdjacentPairDistance| p.square_distance)
}

/// Sizes of the runs into which the points are split, where `d[i]` is the distance between
/// point `i` and point `i + 1`, and a distance above `t` separates two runs.
pub open spec fn run_sizes(d: Seq<u64>, t: u64) -> Seq<nat>
    decreases d.len(),
{
    if d.len() == 0 {
        seq![1nat]
    } else {
        let prev = run_sizes(d.drop_last(), t);
        if d.last() > t {
            prev.push(1nat)
        } else {
            prev.update(prev.len() - 1, prev.last() + 1)
        }
    }
}

/// How many distances exceed `t`.
pub open spec fn count_above(d: Seq<u64>, t: u64) -> nat
    decreases d.len(),
{
    if d.len() == 0 {
        0
    } else {
        count_above(d.drop_last(), t) + if d.last() > t { 1nat } else { 0nat }
    }
}

/// How many runs have more than `s` points.
pub open spec fn count_runs_above(sizes: Seq<nat>, s: nat) -> nat
    decreases sizes.len(),
{
    if sizes.len() == 0 {
        0
    } else {
        count_runs_above(sizes.drop_last(), s) + if sizes.last() > s { 1nat } else { 0nat }
    }
}

/// How many runs have at most `s` points.
pub open spec fn count_runs_at_most(sizes: Seq<nat>, s: nat) -> nat
    decreases sizes.len(),
{
    if sizes.len() == 0 {
        0
    } else {
        count_runs_at_most(sizes.drop_last(), s) + if sizes.last() <= s { 1nat } else { 0nat }
    }
}

/// How many points lie in runs of at most `s` points.
pub open spec fn points_in_runs_at_most(sizes: Seq<nat>, s: nat) -> nat
    decreases sizes.len(),
{
    if sizes.len() == 0 {
        0
    } else {
        points_in_runs_at_most(sizes.drop_last(), s) + if sizes.last() <= s {
            sizes.last()
        } else {
            0nat
        }
    }
}

/// The counts that a single pass with threshold `t` yields over the distances `d`
/// between consecutive points, where runs of at most `s` points are outliers.
pub open spec fn linkage_counts(d: Seq<u64>, t: u64, s: nat) -> LinkageResult {
    let sizes = run_sizes(d, t);
    LinkageResult {
        linkage_square_distance: t,
        count_of_too_large_distances: count_above(d, t) as u32,
        large_cluster_count: count_runs_above(sizes, s) as u32,
        outlier_cluster_count: count_runs_at_most(sizes, s) as u32,
        outlier_count: points_in_runs_at_most(sizes, s) as u32,
    }
}

/// The runs split off by a pass are as many as the distances above the threshold, plus one.
proof fn lemma_run_sizes_len(d: Seq<u64>, t: u64)
    ensures
        run_sizes(d, t).len() == count_above(d, t) + 1,
        forall|i: int| 0 <= i < run_sizes(d, t).len() ==> #[trigger] run_sizes(d, t)[i] >= 1,
    decreases d.len(),
{
    if d.len() > 0 {
        lemma_run_sizes_len(d.drop_last(), t);
    }
}

/// When no distance exceeds the threshold, all points form a single run.
pub proof fn lemma_single_run(d: Seq<u64>, t: u64)
    requires
        forall|i: int| 0 <= i < d.len() ==> #[trigger] d[i] <= t,
    ensures
        run_sizes(d, t) == seq![(d.len() + 1) as nat],
    decreases d.len(),
{
    if d.len() > 0 {
        let p = d.drop_last();
        assert forall|i: int| 0 <= i < p.len() implies #[trigger] p[i] <= t by {
            assert(p[i] == d[i]);
        }
        lemma_single_run(p, t);
        assert(d.last() == d[d.len() - 1]);
        assert(run_sizes(d, t) =~= seq![(d.len() + 1) as nat]);
    }
}

/// A threshold at or above every distance leaves one cluster, large or outlier.
pub proof fn lemma_threshold_above_all_distances(d: Seq<u64>, t: u64, s: nat)
    requires
        forall|i: int| 0 <= i < d.len() ==> #[trigger] d[i] <= t,
    ensures
        linkage_counts(d, t, s).large_cluster_count + linkage_counts(d, t, s).outlier_cluster_count
            == 1,
{
    lemma_single_run(d, t);
    let sizes = run_sizes(d, t);
    assert(sizes.drop_last() =~= Seq::<nat>::empty());
    assert(count_runs_above(sizes, s) + count_runs_at_most(sizes, s) == 1) by {
        reveal_with_fuel(count_runs_above, 2);
        reveal_with_fuel(count_runs_at_most, 2);
    }
}

// ........................... AdjacentPairDistance ..........................................

/// The square distance between two consecutive points of a sequence ordered along a curve.
///
/// Ordered by square distance, then by the positions of the two points.
#[derive(Copy, Clone, Debug, PartialEq, Eq, PartialOrd, Ord)]
pub struct AdjacentPairDistance {
    /// Square of the distance between the two points.
    pub square_distance: u64,
    /// Zero-based position of the first point in curve order.
    pub first_index: usize,
    /// Zero-based position of the second point in curve order.
    pub second_index: usize,
    /// Id of the first point.
    pub first_id: usize,
    /// Id of the second point.
    pub second_id: usize,
}

// ........................... DistanceGrowthStats .....................................................

/// Tracks, over an ascending sequence of square distances, where the sharpest jump occurs:
/// by absolute increase, by ratio, and where both peak together.
///
/// Ratios are held exactly, as a numerator over a positive denominator.
#[derive(Copy, Clone, Debug)]
pub struct DistanceGrowthStats {
    pub index_of_maximum_increase: usize,
    pub index_of_maximum_ratio: usize,
    pub index_of_maximum_increase_and_ratio: usize,
    pub max_increase_alone: u64,
    pub max_ratio_alone_numerator: u64,
    pub max_ratio_alone_denominator: u64,
    pub max_increase_paired: u64,
    pub max_ratio_paired_numerator: u64,
    pub max_ratio_paired_denominator: u64,
}

/// The state before any distance has been seen: every maximum is zero.
pub open spec fn initial_growth_stats() -> DistanceGrowthStats {
    DistanceGrowthStats {
        index_of_maximum_increase: 0,
        index_of_maximum_ratio: 0,
        index_of_maximum_increase_and_ratio: 0,
        max_increase_alone: 0,
        max_ratio_alone_numerator: 0,
        max_ratio_alone_denominator: 1,
        max_increase_paired: 0,
        max_ratio_paired_numerator: 0,
        max_ratio_paired_denominator: 1,
    }
}

/// Whether `a / b` exceeds `c / d`, for positive `b` and `d`.
pub open spec fn ratio_exceeds(a: u64, b: u64, c: u64, d: u64) -> bool {
    (a as int) * (d as int) > (c as int) * (b as int)
}

/// The state after seeing the step from `previous_value` to `new_value` at `index`.
/// A step from zero is ignored; an increase and a ratio that both exceed their maxima
/// also mark a paired maximum.
pub open spec fn accumulate_spec(
    s: DistanceGrowthStats,
    index: usize,
    previous_value: u64,
    new_value: u64,
) -> DistanceGrowthStats {
    if previous_value == 0 {
        s
    } else {
        let delta = (new_value - previous_value) as u64;
        let higher_increase = delta > s.max_increase_alone;
        let higher_ratio = ratio_exceeds(
            new_value,
            previous_value,
            s.max_ratio_alone_numerator,
            s.max_ratio_alone_denominator,
        );
        let s1 = if higher_increase {
            DistanceGrowthStats { max_increase_alone: delta, index_of_maximum_increase: index, ..s }
        } else {
            s
        };
        let s2 = if higher_ratio {
            DistanceGrowthStats {
                max_ratio_alone_numerator: new_value,
                max_ratio_alone_denominator: previous_value,
                index_of_maximum_ratio: index,
                ..s1
            }
        } else {
            s1
        };
        if higher_increase && higher_ratio {
            DistanceGrowthStats {
                index_of_maximum_increase_and_ratio: index,
                max_increase_paired: delta,
                max_ratio_paired_numerator: new_value,
                max_ratio_paired_denominator: previous_value,
                ..s2
            }
        } else {
            s2
        }
    }
}

/// The position chosen between `i_low` and `i_high`, preferring agreement of the measures
/// late in the window and the smaller position otherwise.
pub open spec fn index_of_max_change_spec(s: DistanceGrowthStats, i_low: int, i_high: int) -> int {
    let i_conservative = i_low + (i_high - i_low) * 3 / 4;
    let paired = s.index_of_maximum_increase_and_ratio as int;
    let inc = s.index_of_maximum_increase as int;
    let ratio = s.index_of_maximum_ratio as int;
    if paired > i_high {
        i_high
    } else if paired > i_conservative {
        paired
    } else if ratio < i_conservative {
        vstd::math::max(vstd::math::min(i_high, inc), i_low)
    } else if inc < i_conservative {
        vstd::math::max(vstd::math::min(i_high, ratio), i_low)
    } else {
        vstd::math::min(vstd::math::min(i_high, inc), ratio)
    }
}

/// Whether `a / b` exceeds `c / d`, compared exactly by cross-multiplication.
fn exceeds_ratio(a: u64, b: u64, c: u64, d: u64) -> (r: bool)
    ensures
        r == ratio_exceeds(a, b, c, d),
{
    let (a, b, c, d) = (a as u128, b as u128, c as u128, d as u128);
    assert(a * d <= 0xffff_ffff_ffff_ffff * 0xffff_ffff_ffff_ffffu128) by (nonlinear_arith)
        requires
            a <= 0xffff_ffff_ffff_ffffu128,
            d <= 0xffff_ffff_ffff_ffffu128,
    ;
    assert(c * b <= 0xffff_ffff_ffff_ffff * 0xffff_ffff_ffff_ffffu128) by (nonlinear_arith)
        requires
            c <= 0xffff_ffff_ffff_ffffu128,
            b <= 0xffff_ffff_ffff_ffffu128,
    ;
    a * d > c * b
}

impl DistanceGrowthStats {
    /// Both ratio denominators are positive.
    pub open spec fn wf(&self) -> bool {
        self.max_ratio_alone_denominator > 0 && self.max_ratio_paired_denominator > 0
    }

    /// Stats before any distance has been seen.
    pub fn new() -> (r: Self)
        ensures
            r == initial_growth_stats(),
            r.wf(),
    {
        DistanceGrowthStats {
            index_of_maximum_increase: 0,
            index_of_maximum_ratio: 0,
            index_of_maximum_increase_and_ratio: 0,
            max_increase_alone: 0,
            max_ratio_alone_numerator: 0,
            max_ratio_alone_denominator: 1,
            max_increase_paired: 0,
            max_ratio_paired_numerator: 0,
            max_ratio_paired_denominator: 1,
        }
    }

    /// Take into account the step from `previous_value` to `new_value` at position `index`.
    pub fn accumulate(&mut self, index: usize, previous_value: u64, new_value: u64)
        requires
            old(self).wf(),
            previous_value <= new_value,
        ensures
            final(self).wf(),
            *final(self) == accumulate_spec(*old(self), index, previous_value, new_value),
    {
        let delta = new_value - previous_value;
        if previous_value == 0 {
            return ;
        }
        let higher_increase = delta > self.max_increase_alone;
        let higher_ratio = exceeds_ratio(
            new_value,
            previous_value,
            self.max_ratio_alone_numerator,
            self.max_ratio_alone_denominator,
        );
        if higher_increase {
            self.max_increase_alone = delta;
            self.index_of_maximum_increase = index;
        }
        if higher_ratio {
            self.max_ratio_alone_numerator = new_value;
            self.max_ratio_alone_denominator = previous_value;
            self.index_of_maximum_ratio = index;
        }
        if higher_increase && higher_ratio {
            self.index_of_maximum_increase_and_ratio = index;
            self.max_increase_paired = delta;
            self.max_ratio_paired_numerator = new_value;
            self.max_ratio_paired_denominator = previous_value;
        }
    }

    /// Decide where the distance changed the most, conservatively when the measures disagree.
    ///
    ///   - `i_low_paired` - the paired position is not chosen below this
    ///   - `i_high` - no position above this is chosen
    pub fn get_index_of_max_change(&self, i_low_paired: usize, i_high: usize) -> (r: usize)
        requires
            i_low_paired <= i_high,
        ensures
            r == index_of_max_change_spec(*self, i_low_paired as int, i_high as int),
            r <= i_high,
    {
        let width = i_high - i_low_paired;
        let i_conservative = i_low_paired + (width / 4) * 3 + (width % 4) * 3 / 4;
        assert(i_conservative == i_low_paired + (i_high - i_low_paired) * 3 / 4) by (nonlinear_arith)
            requires
                width == i_high - i_low_paired,
                i_conservative == i_low_paired + (width / 4) * 3 + (width % 4) * 3 / 4,
        {
            assert(width == (width / 4) * 4 + width % 4);
        }
        let paired = self.index_of_maximum_increase_and_ratio;
        let inc = self.index_of_maximum_increase;
        let ratio = self.index_of_maximum_ratio;
        if paired > i_high {
            i_high
        } else if paired > i_conservative {
            paired
        } else if ratio < i_conservative {
            let capped = if inc < i_high { inc } else { i_high };
            if capped > i_low_paired { capped } else { i_low_paired }
        } else if inc < i_conservative {
            let capped = if ratio < i_high { ratio } else { i_high };
            if capped > i_low_paired { capped } else { i_low_paired }
        } else {
            let capped = if inc < i_high { inc } else { i_high };
            if capped < ratio { capped } else { ratio }
        }
    }
}

// ........................... DistanceBin ..........................................

/// A bucket of unsorted square distances that fall within its bounds.
pub struct DistanceBin {
    /// Values in this range can be added to the bin.
    pub bounds: std::ops::Range<u64>,
    /// Lowest value added, or the end of the bounds while the bin is empty.
    pub lowest_value_added: u64,
    /// Highest value added, or the start of the bounds while the bin is empty.
    pub highest_value_added: u64,
    /// Values added, in the order of addition.
    pub values_added: Vec<u64>,
}

/// The bounds and values of a bin, which determine the rest of a well-formed bin.
pub open spec fn bin_model(b: DistanceBin) -> (u64, u64, Seq<u64>) {
    (b.bounds.start, b.bounds.end, b.values_added@)
}

/// The bounds and values of each bin.
pub open spec fn bin_models(bins: Seq<DistanceBin>) -> Seq<(u64, u64, Seq<u64>)> {
    bins.map_values(|b: DistanceBin| bin_model(b))
}

/// Each bin is well formed, and each ends where the next starts.
pub open spec fn bins_wf(bins: Seq<DistanceBin>) -> bool {
    &&& forall|i: int| 0 <= i < bins.len() ==> (#[trigger] bins[i]).wf()
    &&& bounds_contiguous(bins)
}

/// Each bin starts no later than it ends, and ends where the next starts.
pub open spec fn bounds_contiguous(bins: Seq<DistanceBin>) -> bool {
    &&& forall|i: int| 0 <= i < bins.len() ==> (#[trigger] bins[i]).bounds.start <= bins[i].bounds.end
    &&& forall|i: int|
        0 <= i < bins.len() - 1 ==> (#[trigger] bins[i]).bounds.end == bins[i + 1].bounds.start
}

/// The average gap between consecutive values of the bin, or its width if it holds at most one.
pub open spec fn spread_of(b: DistanceBin) -> u64 {
    if b.values_added@.len() <= 1 {
        (b.bounds.end - b.bounds.start) as u64
    } else {
        ((b.highest_value_added - b.lowest_value_added) / ((b.values_added@.len() - 1) as int)) as u64
    }
}

/// State of the scan for the largest gap: the value before the largest gap so far, that
/// gap, and the last value seen.
pub open spec fn jump_scan(s: Seq<u64>, anchor: u64, first_gap: int) -> (u64, int, u64)
    decreases s.len(),
{
    if s.len() == 0 {
        (anchor, first_gap, anchor)
    } else {
        let (before, gap, previous) = jump_scan(s.drop_last(), anchor, first_gap);
        let delta = s.last() - previous;
        if delta > gap {
            (previous, delta, s.last())
        } else {
            (before, gap, s.last())
        }
    }
}

/// The value just before the largest gap among the bin's values in ascending order, where
/// the first gap is measured from `anchor`.
pub open spec fn value_before_jump(b: DistanceBin, anchor: u64) -> u64 {
    if b.values_added@.len() == 0 {
        b.bounds.start
    } else if b.values_added@.len() <= 2 {
        b.lowest_value_added
    } else {
        let s = ascending(b.values_added@);
        jump_scan(s, anchor, s[0] - anchor).0
    }
}

/// The bin that holds the values of `low` and then those of `high`, over both bounds.
pub open spec fn merged_model(low: (u64, u64, Seq<u64>), high: (u64, u64, Seq<u64>)) -> (u64, u64, Seq<u64>) {
    (low.0, high.1, low.2 + high.2)
}

/// The bins kept so far and the bin held back for want of values, after the first bins.
pub open spec fn consolidation_state(bins: Seq<(u64, u64, Seq<u64>)>, minimum_size: nat) -> (Seq<(u64, u64, Seq<u64>)>, Option<(u64, u64, Seq<u64>)>)
    decreases bins.len(),
{
    if bins.len() == 0 {
        (Seq::empty(), None)
    } else {
        let (kept, held) = consolidation_state(bins.drop_last(), minimum_size);
        let b = match held {
            Some(h) => merged_model(h, bins.last()),
            None => bins.last(),
        };
        if b.2.len() >= minimum_size {
            (kept.push(b), None)
        } else {
            (kept, Some(b))
        }
    }
}

/// Consecutive bins merged until each holds at least `minimum_size` values, but for a last
/// bin that runs out of bins to merge with.
pub open spec fn consolidated(bins: Seq<(u64, u64, Seq<u64>)>, minimum_size: nat) -> Seq<(u64, u64, Seq<u64>)> {
    let (kept, held) = consolidation_state(bins, minimum_size);
    match held {
        Some(h) => kept.push(h),
        None => kept,
    }
}

impl DistanceBin {
    /// The values lie in the bounds, and the lowest and highest values are tracked.
    pub open spec fn wf(&self) -> bool {
        let v = self.values_added@;
        &&& self.bounds.start <= self.bounds.end
        &&& forall|i: int| 0 <= i < v.len() ==> self.bounds.start <= #[trigger] v[i] < self.bounds.end
        &&& v.len() == 0 ==> self.lowest_value_added == self.bounds.end
            && self.highest_value_added == self.bounds.start
        &&& v.len() > 0 ==> {
            &&& v.contains(self.lowest_value_added)
            &&& v.contains(self.highest_value_added)
            &&& forall|i: int|
                0 <= i < v.len() ==> self.lowest_value_added <= #[trigger] v[i]
                    <= self.highest_value_added
        }
    }

    /// An empty bin for the values from `from` up to, but not including, `to`.
    pub fn new(from: u64, to: u64) -> (r: Self)
        requires
            from <= to,
        ensures
            r.wf(),
            bin_model(r) == (from, to, Seq::<u64>::empty()),
    {
        DistanceBin {
            bounds: std::ops::Range { start: from, end: to },
            lowest_value_added: to,
            highest_value_added: from,
            values_added: Vec::new(),
        }
    }

    /// Whether the value falls within the bounds of the bin.
    pub fn is_in_bounds(&self, square_distance: u64) -> (r: bool)
        ensures
            r == (self.bounds.start <= square_distance < self.bounds.end),
    {
        self.bounds.start <= square_distance && square_distance < self.bounds.end
    }

    /// Add the value if it falls within the bounds; returns whether it did.
    pub fn add(&mut self, square_distance: u64) -> (r: bool)
        requires
            old(self).wf(),
        ensures
            final(self).wf(),
            r == (old(self).bounds.start <= square_distance < old(self).bounds.end),
            bin_model(*final(self)) == if r {
                (old(self).bounds.start, old(self).bounds.end, old(self).values_added@.push(square_distance))
            } else {
                bin_model(*old(self))
            },
    {
        if !self.is_in_bounds(square_distance) {
            false
        } else {
            let ghost v = self.values_added@;
            let was_empty = self.values_added.len() == 0;
            if was_empty || square_distance > self.highest_value_added {
                self.highest_value_added = square_distance;
            }
            if was_empty || square_distance < self.lowest_value_added {
                self.lowest_value_added = square_distance;
            }
            self.values_added.push(square_distance);
            assert(self.values_added@[v.len() as int] == square_distance);
            assert forall|x: u64| v.contains(x) implies self.values_added@.contains(x) by {
                let j = choose|j: int| 0 <= j < v.len() && v[j] == x;
                assert(self.values_added@[j] == x);
            }
            true
        }
    }

    /// Number of values in the bin.
    pub fn len(&self) -> (r: usize)
        ensures
            r == self.values_added@.len(),
    {
        self.values_added.len()
    }

    /// Widen the bin to also cover `higher_bin`, which must start at or after its end,
    /// and take in its values.
    pub fn merge(self, higher_bin: &Self) -> (r: Self)
        requires
            self.wf(),
            higher_bin.wf(),
            higher_bin.bounds.start >= self.bounds.end,
        ensures
            r.wf(),
            bin_model(r) == merged_model(bin_model(self), bin_model(*higher_bin)),
    {
        let self_was_empty = self.values_added.len() == 0;
        let ghost a = self.values_added@;
        let ghost b = higher_bin.values_added@;
        let ghost old_self = self;
        let mut r = self;
        r.bounds = std::ops::Range { start: r.bounds.start, end: higher_bin.bounds.end };
        let mut i: usize = 0;
        while i < higher_bin.values_added.len()
            invariant
                i <= b.len(),
                b == higher_bin.values_added@,
                r.values_added@ == a + b.take(i as int),
                r.bounds.start == old_self.bounds.start,
                r.bounds.end == higher_bin.bounds.end,
                r.lowest_value_added == old_self.lowest_value_added,
                r.highest_value_added == old_self.highest_value_added,
            decreases b.len() - i,
        {
            r.values_added.push(higher_bin.values_added[i]);
            i = i + 1;
            assert(r.values_added@ =~= a + b.take(i as int));
        }
        assert(b.take(i as int) =~= b);
        if higher_bin.values_added.len() > 0 {
            r.highest_value_added = higher_bin.highest_value_added;
            if self_was_empty {
                r.lowest_value_added = higher_bin.lowest_value_added;
            }
        } else if self_was_empty {
            r.lowest_value_added = higher_bin.bounds.end;
        }
        let ghost v = r.values_added@;
        proof {
            if b.len() > 0 {
                let jh = choose|j: int| 0 <= j < b.len() && b[j] == higher_bin.highest_value_added;
                assert(higher_bin.bounds.start <= b[jh]);
                let jl = choose|j: int| 0 <= j < b.len() && b[j] == higher_bin.lowest_value_added;
                assert(higher_bin.bounds.start <= b[jl]);
            }
            if a.len() > 0 {
                let jl = choose|j: int| 0 <= j < a.len() && a[j] == old_self.lowest_value_added;
                assert(a[jl] < old_self.bounds.end);
                let jh = choose|j: int| 0 <= j < a.len() && a[j] == old_self.highest_value_added;
                assert(a[jh] < old_self.bounds.end);
            }
        }
        assert forall|x: u64| a.contains(x) implies v.contains(x) by {
            let j = choose|j: int| 0 <= j < a.len() && a[j] == x;
            assert(v[j] == x);
        }
        assert forall|x: u64| b.contains(x) implies v.contains(x) by {
            let j = choose|j: int| 0 <= j < b.len() && b[j] == x;
            assert(v[a.len() + j] == x);
        }
        assert forall|j: int| 0 <= j < v.len() implies r.bounds.start <= #[trigger] v[j] < r.bounds.end by {
            if j < a.len() {
                assert(v[j] == a[j]);
                assert(old_self.bounds.start <= a[j] < old_self.bounds.end);
            } else {
                assert(v[j] == b[j - a.len()]);
                assert(higher_bin.bounds.start <= b[j - a.len()] < higher_bin.bounds.end);
            }
        }
        assert forall|j: int| 0 <= j < v.len() implies r.lowest_value_added <= #[trigger] v[j] <= r.highest_value_added by {
            if j < a.len() {
                assert(v[j] == a[j]);
                assert(old_self.lowest_value_added <= a[j] <= old_self.highest_value_added);
                assert(a[j] < old_self.bounds.end);
            } else {
                assert(v[j] == b[j - a.len()]);
                assert(higher_bin.lowest_value_added <= b[j - a.len()] <= higher_bin.highest_value_added);
                assert(higher_bin.bounds.start <= b[j - a.len()]);
            }
        }
        assert(v.len() > 0 ==> v.contains(r.lowest_value_added) && v.contains(r.highest_value_added));
        r
    }

    /// Sort the values of the bin in ascending order.
    pub fn sort(&mut self)
        requires
            old(self).wf(),
        ensures
            final(self).wf(),
            final(self).bounds == old(self).bounds,
            final(self).lowest_value_added == old(self).lowest_value_added,
            final(self).highest_value_added == old(self).highest_value_added,
            final(self).values_added@ == ascending(old(self).values_added@),
            final(self).values_added@.to_multiset() == old(self).values_added@.to_multiset(),
            final(self).values_added@.len() == old(self).values_added@.len(),
    {
        let ghost v = self.values_added@;
        sort_ascending(&mut self.values_added);
        proof {
            lemma_ascending(v, self.values_added@);
            let w = self.values_added@;
            v.to_multiset_ensures();
            w.to_multiset_ensures();
            assert forall|x: u64| v.contains(x) <==> w.contains(x) by {
                assert(v.to_multiset().count(x) == w.to_multiset().count(x));
            }
            assert(w.len() == v.len());
            assert forall|j: int| 0 <= j < w.len() implies self.bounds.start <= #[trigger] w[j] < self.bounds.end && self.lowest_value_added <= w[j] <= self.highest_value_added by {
                assert(w.contains(w[j]));
                assert(v.contains(w[j]));
            }
            if v.len() > 0 {
                assert(w.contains(self.lowest_value_added));
                assert(w.contains(self.highest_value_added));
            }
        }
    }

    /// The average gap between consecutive values of the bin; its width when it holds at
    /// most one value.
    pub fn average_spread(&self) -> (r: u64)
        requires
            self.wf(),
        ensures
            r == spread_of(*self),
    {
        if self.len() <= 1 {
            self.bounds.end - self.bounds.start
        } else {
            assert(self.values_added@.contains(self.lowest_value_added));
            (self.highest_value_added - self.lowest_value_added) / (self.len() as u64 - 1)
        }
    }

    /// Sort the values and return the one just before the largest gap between consecutive
    /// values, where the first gap is measured from `highest_value_from_previous_bin`.
    pub fn find_square_distance_before_jump(&mut self, highest_value_from_previous_bin: u64) -> (r: u64)
        requires
            old(self).wf(),
            old(self).values_added@.len() > 0 ==> highest_value_from_previous_bin
                <= old(self).lowest_value_added,
        ensures
            r == value_before_jump(*old(self), highest_value_from_previous_bin),
            final(self).wf(),
            bin_model(*final(self)).0 == bin_model(*old(self)).0,
            bin_model(*final(self)).1 == bin_model(*old(self)).1,
            final(self).values_added@.to_multiset() == old(self).values_added@.to_multiset(),
            old(self).values_added@.len() > 2 ==> final(self).values_added@ == ascending(
                old(self).values_added@,
            ),
            old(self).values_added@.len() <= 2 ==> final(self).values_added@ == old(self).values_added@,
            final(self).lowest_value_added == old(self).lowest_value_added,
            final(self).highest_value_added == old(self).highest_value_added,
    {
        if self.values_added.len() == 0 {
            return self.bounds.start;
        }
        if self.values_added.len() <= 2 {
            return self.lowest_value_added;
        }
        let ghost v = self.values_added@;
        self.sort();
        proof {
            assert(vstd::relations::total_ordering(ascending_order()));
            v.lemma_sort_by_ensures(ascending_order());
        }
        let anchor = highest_value_from_previous_bin;
        let s = &self.values_added;
        let ghost sq = s@;
        assert(sq.contains(self.lowest_value_added));
        let mut value_before_biggest_jump = anchor;
        let mut high_delta = s[0] - anchor;
        assert(s[0] == self.lowest_value_added) by {
            let j = choose|j: int| 0 <= j < sq.len() && sq[j] == self.lowest_value_added;
            assert(ascending_order()(sq[0], sq[j]));
        }
        let mut previous_value = anchor;
        let mut k: usize = 0;
        assert(sq.take(0) =~= Seq::<u64>::empty());
        while k < s.len()
            invariant
                sq == s@,
                k <= sq.len(),
                sq.len() > 2,
                sorted_by(sq, ascending_order()),
                anchor <= sq[0],
                jump_scan(sq.take(k as int), anchor, sq[0] - anchor) == (value_before_biggest_jump, high_delta as int, previous_value),
                k == 0 ==> previous_value == anchor,
                k > 0 ==> previous_value == sq[k - 1],
            decreases sq.len() - k,
        {
            let value = s[k];
            assert(previous_value <= value) by {
                if k > 0 {
                    assert(ascending_order()(sq[k - 1], sq[k as int]));
                } else {
                    assert(ascending_order()(sq[0], sq[k as int]));
                }
            }
            let delta = value - previous_value;
            assert(sq.take(k + 1).drop_last() =~= sq.take(k as int));
            if delta > high_delta {
                value_before_biggest_jump = previous_value;
                high_delta = delta;
            }
            previous_value = value;
            k = k + 1;
        }
        assert(sq.take(k as int) =~= sq);
        value_before_biggest_jump
    }
}

/// `x` scaled by `m` thousandths, rounded up.
pub open spec fn scaled_up(x: int, m: int) -> int {
    (x * m + 999) / 1000
}

/// The top of a bin from `bottom`, raised to make the bin at least `minw` wide.
pub open spec fn widened(bottom: int, top: int, minw: int) -> int {
    if top - bottom < minw {
        vstd::math::min(bottom + minw, u64::MAX as int)
    } else {
        top
    }
}

/// Bounds of the bins from `bottom` on, where the next bin would end at `top` and each
/// later top grows by the factor `m` thousandths, until a bin reaches `tippy`.
pub open spec fn bin_bounds_from(bottom: int, top: int, tippy: int, minw: int, m: int) -> Seq<(int, int)>
    decreases tippy - bottom,
{
    if bottom <= top && top < tippy {
        let t2 = widened(bottom, top, minw);
        if t2 <= bottom {
            Seq::empty()
        } else if t2 >= tippy {
            seq![(bottom, t2), (t2, vstd::math::min(scaled_up(t2, m), u64::MAX as int))]
        } else {
            seq![(bottom, t2)] + bin_bounds_from(t2, scaled_up(t2, m), tippy, minw, m)
        }
    } else {
        seq![(bottom, vstd::math::min(top, u64::MAX as int))]
    }
}

/// Bounds of geometrically growing bins: the first from zero to `lowest`, each later top
/// the previous one times the multiplier (in thousandths, at least 1001), rounded up, and
/// widened to at least `minw`, until a bin reaches `tippy`.
pub open spec fn geometric_bounds(lowest: int, tippy: int, minw: int, m: int) -> Seq<(int, int)> {
    let m2 = vstd::math::max(m, 1001);
    seq![(0, lowest)] + bin_bounds_from(lowest, scaled_up(lowest, m2), tippy, minw, m2)
}

/// The bounds of each bin.
pub open spec fn bin_bounds(bins: Seq<DistanceBin>) -> Seq<(int, int)> {
    bins.map_values(|b: DistanceBin| (b.bounds.start as int, b.bounds.end as int))
}

impl DistanceBin {
    /// Make empty bins of growing width that cover the values from zero up to
    /// `top_of_highest_bin`.
    ///
    ///   - `top_of_lowest_bin` - the first bin runs from zero up to this value
    ///   - `top_of_highest_bin` - the last bin reaches at least this value
    ///   - `minimum_bin_width` - no bin but the first and last is narrower than this, unless
    ///     widening it would take its top past the largest `u64`, where it stops
    ///   - `multiplier_per_mille` - each top is the previous times this many thousandths,
    ///     rounded up; values below 1001 count as 1001
    pub fn make_bins(
        top_of_lowest_bin: u64,
        top_of_highest_bin: u64,
        minimum_bin_width: u64,
        multiplier_per_mille: u64,
    ) -> (r: Vec<DistanceBin>)
        requires
            top_of_lowest_bin > 0 || minimum_bin_width > 0,
        ensures
            bins_wf(r@),
            bin_bounds(r@) == geometric_bounds(
                top_of_lowest_bin as int,
                top_of_highest_bin as int,
                minimum_bin_width as int,
                multiplier_per_mille as int,
            ),
            forall|i: int| 0 <= i < r@.len() ==> (#[trigger] r@[i]).values_added@.len() == 0,
    {
        let m: u128 = if multiplier_per_mille < 1001 { 1001 } else { multiplier_per_mille as u128 };
        let ghost gm = vstd::math::max(multiplier_per_mille as int, 1001);
        assert(m == gm);
        let tippy = top_of_highest_bin as u128;
        let min_width = minimum_bin_width as u128;
        let mut bins: Vec<DistanceBin> = Vec::new();
        bins.push(DistanceBin::new(0, top_of_lowest_bin));
        let mut bottom: u128 = top_of_lowest_bin as u128;
        assert((bottom * m) <= 0xffff_ffff_ffff_ffffu128 * 0xffff_ffff_ffff_ffffu128) by (nonlinear_arith)
            requires bottom <= 0xffff_ffff_ffff_ffffu128, m <= 0xffff_ffff_ffff_ffffu128;
        let mut top: u128 = (bottom * m + 999) / 1000;
        assert(top >= bottom && (bottom > 0 ==> top > bottom) && (bottom == 0 ==> top == 0)) by (nonlinear_arith)
            requires
                top == (bottom * m + 999) / 1000,
                m >= 1001,
                bottom >= 0,
        ;
        let ghost goal = geometric_bounds(
            top_of_lowest_bin as int,
            top_of_highest_bin as int,
            minimum_bin_width as int,
            multiplier_per_mille as int,
        );
        assert(bin_bounds(bins@) + bin_bounds_from(bottom as int, top as int, tippy as int, min_width as int, m as int) =~= goal);
        proof {
            assert(bottom * m >= bottom) by (nonlinear_arith)
                requires m >= 1001;
        }
        while top < tippy
            invariant
                bins@.len() >= 1,
                bins_wf(bins@),
                forall|i: int| 0 <= i < bins@.len() ==> (#[trigger] bins@[i]).values_added@.len() == 0,
                bins@.last().bounds.end == bottom,
                bottom <= top,
                bottom <= u64::MAX,
                m == gm,
                m >= 1001,
                m <= u64::MAX,
                tippy == top_of_highest_bin,
                min_width == minimum_bin_width,
                bottom > 0 || min_width > 0,
                bottom == 0 ==> top == 0,
                bottom > 0 ==> top > bottom,
                bin_bounds(bins@) + bin_bounds_from(bottom as int, top as int, tippy as int, min_width as int, m as int) == goal,
            decreases 0x1_0000_0000_0000_0000 - bottom,
        {
            let ghost old_bins = bins@;
            let ghost old_bottom = bottom;
            let ghost old_top = top;
            if top - bottom < min_width {
                top = if bottom + min_width > 0xffff_ffff_ffff_ffffu128 { 0xffff_ffff_ffff_ffffu128 } else { bottom + min_width };
            }
            assert(top == widened(old_bottom as int, old_top as int, min_width as int));
            assert(top > bottom);
            bins.push(DistanceBin::new(bottom as u64, top as u64));
            proof {
                assert(bin_bounds(bins@) =~= bin_bounds(old_bins).push((old_bottom as int, top as int)));
                assert(bin_bounds(old_bins).push((old_bottom as int, top as int)) + bin_bounds_from(top as int, scaled_up(top as int, m as int), tippy as int, min_width as int, m as int)
                    =~= bin_bounds(old_bins) + bin_bounds_from(old_bottom as int, old_top as int, tippy as int, min_width as int, m as int));
                assert forall|i: int| 0 <= i < bins@.len() - 1 implies (#[trigger] bins@[i]).bounds.end == bins@[i + 1].bounds.start by {
                    if i < bins@.len() - 2 {
                        assert(bins@[i] == old_bins[i]);
                        assert(bins@[i + 1] == old_bins[i + 1]);
                    }
                }
                assert((top * m) <= 0xffff_ffff_ffff_ffffu128 * 0xffff_ffff_ffff_ffffu128) by (nonlinear_arith)
                    requires top <= 0xffff_ffff_ffff_ffffu128, m <= 0xffff_ffff_ffff_ffffu128;
                assert(top * m >= top * 1001) by (nonlinear_arith)
                    requires m >= 1001, top >= 0;
            }
            bottom = top;
            top = (top * m + 999) / 1000;
            assert(top >= bottom && (bottom > 0 ==> top > bottom)) by (nonlinear_arith)
                requires
                    top == (bottom * m + 999) / 1000,
                    m >= 1001,
                    bottom >= 0,
            ;
        }
        let last_top: u64 = if top > 0xffff_ffff_ffff_ffffu128 { 0xffff_ffff_ffff_ffffu64 } else { top as u64 };
        let ghost old_bins = bins@;
        bins.push(DistanceBin::new(bottom as u64, last_top));
        proof {
            assert(bin_bounds(bins@) =~= goal);
            assert forall|i: int| 0 <= i < bins@.len() - 1 implies (#[trigger] bins@[i]).bounds.end == bins@[i + 1].bounds.start by {
                if i < bins@.len() - 2 {
                    assert(bins@[i] == old_bins[i]);
                    assert(bins@[i + 1] == old_bins[i + 1]);
                }
            }
        }
        bins
    }

    /// Position of the bin that holds `value`, found by binary search over bins that
    /// cover a contiguous range from their first start; the last bin for a value at or
    /// above the end of the range.
    pub fn find_bin(value: u64, bins: &Vec<DistanceBin>) -> (r: usize)
        requires
            bins@.len() > 0,
            bounds_contiguous(bins@),
            bins@[0].bounds.start <= value,
        ensures
            r < bins@.len(),
            value >= bins@.last().bounds.end ==> r == bins@.len() - 1,
            value < bins@.last().bounds.end ==> bins@[r as int].bounds.start <= value
                < bins@[r as int].bounds.end,
    {
        let n = bins.len();
        if bins[n - 1].bounds.end <= value {
            return n - 1;
        }
        let mut lo: usize = 0;
        let mut hi: usize = n;
        while hi - lo > 1
            invariant
                n == bins@.len(),
                lo < hi <= n,
                bins@[lo as int].bounds.start <= value,
                hi < n ==> bins@[hi as int].bounds.start > value,
            decreases hi - lo,
        {
            let mid = lo + (hi - lo) / 2;
            if bins[mid].bounds.start <= value {
                lo = mid;
            } else {
                hi = mid;
            }
        }
        if hi < n {
            assert(bins@[lo as int].bounds.end == bins@[hi as int].bounds.start);
        }
        lo
    }

    /// Append a bin that starts where the last one ends.
    fn push_bin(bins: &mut Vec<DistanceBin>, b: DistanceBin)
        requires
            bins_wf(old(bins)@),
            b.wf(),
            old(bins)@.len() > 0 ==> old(bins)@.last().bounds.end == b.bounds.start,
        ensures
            bins_wf(final(bins)@),
            final(bins)@ == old(bins)@.push(b),
            bin_models(final(bins)@) == bin_models(old(bins)@).push(bin_model(b)),
    {
        let ghost before = bins@;
        bins.push(b);
        proof {
            assert(bin_models(bins@) =~= bin_models(before).push(bin_model(b)));
            assert forall|i: int| 0 <= i < bins@.len() implies (#[trigger] bins@[i]).wf() && bins@[i].bounds.start <= bins@[i].bounds.end by {
                if i < before.len() {
                    assert(bins@[i] == before[i]);
                }
            }
            assert forall|i: int| 0 <= i < bins@.len() - 1 implies (#[trigger] bins@[i]).bounds.end == bins@[i + 1].bounds.start by {
                if i < before.len() - 1 {
                    assert(bins@[i] == before[i]);
                    assert(bins@[i + 1] == before[i + 1]);
                }
            }
        }
    }

    /// Take out the first bin.
    fn take_first(bins: &mut Vec<DistanceBin>) -> (r: DistanceBin)
        requires
            bins_wf(old(bins)@),
            old(bins)@.len() > 0,
        ensures
            r == old(bins)@[0],
            r.wf(),
            bins_wf(final(bins)@),
            final(bins)@ == old(bins)@.skip(1),
            bin_models(final(bins)@) == bin_models(old(bins)@).skip(1),
            final(bins)@.len() > 0 ==> r.bounds.end == final(bins)@[0].bounds.start,
    {
        let ghost before = bins@;
        let r = bins.remove(0);
        proof {
            assert(bins@ =~= before.skip(1));
            assert(bin_models(bins@) =~= bin_models(before).skip(1));
            assert forall|i: int| 0 <= i < bins@.len() implies (#[trigger] bins@[i]).wf() && bins@[i].bounds.start <= bins@[i].bounds.end by {
                assert(bins@[i] == before[i + 1]);
            }
            assert forall|i: int| 0 <= i < bins@.len() - 1 implies (#[trigger] bins@[i]).bounds.end == bins@[i + 1].bounds.start by {
                assert(bins@[i] == before[i + 1]);
                assert(bins@[i + 1] == before[i + 2]);
            }
            assert(before[0].wf());
        }
        r
    }

    /// Merge each run of consecutive bins that hold fewer than `minimum_size` values with
    /// the bins that follow, until the merged bin holds enough; a short last bin stays.
    pub fn consolidate(original_bins: Vec<Self>, minimum_size: usize) -> (r: Vec<Self>)
        requires
            bins_wf(original_bins@),
        ensures
            bins_wf(r@),
            bin_models(r@) == consolidated(bin_models(original_bins@), minimum_size as nat),
            original_bins@.len() > 0 ==> r@.len() > 0,
            original_bins@.len() > 0 ==> r@[0].bounds.start == original_bins@[0].bounds.start,
    {
        let ghost orig = bin_models(original_bins@);
        let ghost first_start = if original_bins@.len() > 0 { original_bins@[0].bounds.start } else { 0 };
        let mut remaining = original_bins;
        let mut consolidated_bins: Vec<Self> = Vec::new();
        let mut hold_bin_opt: Option<Self> = None;
        let ghost mut k: int = 0;
        assert(orig.take(0) =~= Seq::<(u64, u64, Seq<u64>)>::empty());
        assert(bin_models(remaining@) =~= orig.skip(0));
        while remaining.len() > 0
            invariant
                0 <= k <= orig.len(),
                remaining@.len() == orig.len() - k,
                bin_models(remaining@) == orig.skip(k),
                bins_wf(remaining@),
                bins_wf(consolidated_bins@),
                consolidation_state(orig.take(k), minimum_size as nat) == (
                    bin_models(consolidated_bins@),
                    match hold_bin_opt { Some(h) => Some(bin_model(h)), None => None },
                ),
                hold_bin_opt matches Some(h) ==> {
                    &&& h.wf()
                    &&& (consolidated_bins@.len() > 0 ==> consolidated_bins@.last().bounds.end
                        == h.bounds.start)
                    &&& (remaining@.len() > 0 ==> h.bounds.end == remaining@[0].bounds.start)
                    &&& (consolidated_bins@.len() == 0 ==> h.bounds.start == first_start)
                },
                hold_bin_opt is None ==> {
                    &&& (consolidated_bins@.len() > 0 && remaining@.len() > 0 ==> consolidated_bins@.last().bounds.end
                        == remaining@[0].bounds.start)
                    &&& (consolidated_bins@.len() == 0 ==> (k == 0 || orig.len() == 0))
                },
                k > 0 ==> consolidated_bins@.len() > 0 || hold_bin_opt is Some,
                consolidated_bins@.len() > 0 ==> consolidated_bins@[0].bounds.start == first_start,
                k == 0 && remaining@.len() > 0 ==> remaining@[0].bounds.start == first_start,
                k == 0 ==> hold_bin_opt is None && consolidated_bins@.len() == 0,
                original_bins@.len() == orig.len(),
            decreases remaining@.len(),
        {
            let bin = DistanceBin::take_first(&mut remaining);
            assert(bin_model(bin) == orig[k]) by {
                assert(orig.skip(k)[0] == orig[k]);
            }
            assert(orig.take(k + 1).drop_last() =~= orig.take(k));
            assert(orig.take(k + 1).last() == orig[k]);
            assert(orig.skip(k).skip(1) =~= orig.skip(k + 1));
            let candidate = match hold_bin_opt {
                Some(hold_bin) => hold_bin.merge(&bin),
                None => bin,
            };
            if candidate.len() >= minimum_size {
                DistanceBin::push_bin(&mut consolidated_bins, candidate);
                hold_bin_opt = None;
            } else {
                hold_bin_opt = Some(candidate);
            }
            proof {
                k = k + 1;
            }
        }
        assert(orig.take(k) =~= orig);
        match hold_bin_opt {
            Some(hold_bin) => {
                DistanceBin::push_bin(&mut consolidated_bins, hold_bin);
            },
            None => {},
        }
        consolidated_bins
    }
}

/// Smallest value of a non-empty sequence.
pub open spec fn seq_min(s: Seq<u64>) -> u64
    decreases s.len(),
{
    if s.len() <= 1 {
        s[0]
    } else {
        let m = seq_min(s.drop_last());
        if s.last() < m { s.last() } else { m }
    }
}

/// Largest value of a non-empty sequence.
pub open spec fn seq_max(s: Seq<u64>) -> u64
    decreases s.len(),
{
    if s.len() <= 1 {
        s[0]
    } else {
        let m = seq_max(s.drop_last());
        if s.last() > m { s.last() } else { m }
    }
}

proof fn lemma_seq_extremes(s: Seq<u64>)
    requires
        s.len() > 0,
    ensures
        s.contains(seq_min(s)),
        s.contains(seq_max(s)),
        forall|i: int| 0 <= i < s.len() ==> seq_min(s) <= #[trigger] s[i] <= seq_max(s),
    decreases s.len(),
{
    if s.len() > 1 {
        let p = s.drop_last();
        lemma_seq_extremes(p);
        assert forall|i: int| 0 <= i < s.len() implies seq_min(s) <= #[trigger] s[i] <= seq_max(s) by {
            if i < p.len() {
                assert(s[i] == p[i]);
            }
        }
        let jn = choose|j: int| 0 <= j < p.len() && p[j] == seq_min(p);
        assert(s[jn] == p[jn]);
        let jx = choose|j: int| 0 <= j < p.len() && p[j] == seq_max(p);
        assert(s[jx] == p[jx]);
        assert(s[s.len() - 1] == s.last());
    } else {
        assert(s[0] == seq_min(s));
    }
}

/// The tracked lowest and highest values of a well-formed, non-empty bin are the smallest
/// and largest of its values.
proof fn lemma_bin_extremes(b: DistanceBin)
    requires
        b.wf(),
        b.values_added@.len() > 0,
    ensures
        b.lowest_value_added == seq_min(b.values_added@),
        b.highest_value_added == seq_max(b.values_added@),
{
    let s = b.values_added@;
    lemma_seq_extremes(s);
    let j1 = choose|j: int| 0 <= j < s.len() && s[j] == seq_min(s);
    let j2 = choose|j: int| 0 <= j < s.len() && s[j] == seq_max(s);
    let j3 = choose|j: int| 0 <= j < s.len() && s[j] == b.lowest_value_added;
    let j4 = choose|j: int| 0 <= j < s.len() && s[j] == b.highest_value_added;
    assert(b.lowest_value_added <= s[j1]);
    assert(seq_min(s) <= s[j3]);
    assert(b.highest_value_added >= s[j2]);
    assert(seq_max(s) >= s[j4]);
}

/// The average gap of a bin, from its bounds and values.
pub open spec fn model_spread(m: (u64, u64, Seq<u64>)) -> u64 {
    if m.2.len() <= 1 {
        (m.1 - m.0) as u64
    } else {
        ((seq_max(m.2) - seq_min(m.2)) / ((m.2.len() - 1) as int)) as u64
    }
}

/// The value before the largest gap in a bin, from its bounds and values.
pub open spec fn model_value_before_jump(m: (u64, u64, Seq<u64>), anchor: u64) -> u64 {
    if m.2.len() == 0 {
        m.0
    } else if m.2.len() <= 2 {
        seq_min(m.2)
    } else {
        let s = ascending(m.2);
        jump_scan(s, anchor, s[0] - anchor).0
    }
}

/// Where the gap before a bin is measured from: the highest value of the previous bin, or
/// the bin's own lowest value when there is no previous bin or it is empty.
pub open spec fn model_anchor(bins: Seq<(u64, u64, Seq<u64>)>, i: int) -> u64 {
    if i == 0 || bins[i - 1].2.len() == 0 {
        seq_min(bins[i].2)
    } else {
        seq_max(bins[i - 1].2)
    }
}

/// State of the walk over the bins in search of the largest jump in spread.
#[derive(Copy, Clone, Debug)]
pub struct BinWalk {
    pub max_increase: u64,
    pub index_of_maximum_increase: u128,
    pub i_bin_of_maximum_increase: usize,
    pub max_ratio_numerator: u64,
    pub max_ratio_denominator: u64,
    pub index_of_maximum_ratio: u128,
    pub i_bin_of_maximum_ratio: usize,
    pub cume_points: u128,
    pub stopped: bool,
}

/// The walk before any bin.
pub open spec fn initial_walk() -> BinWalk {
    BinWalk {
        max_increase: 0,
        index_of_maximum_increase: 0,
        i_bin_of_maximum_increase: 0,
        max_ratio_numerator: 0,
        max_ratio_denominator: 1,
        index_of_maximum_ratio: 0,
        i_bin_of_maximum_ratio: 0,
        cume_points: 0,
        stopped: false,
    }
}

/// The walk after bin `i`: a bin without values is passed over; otherwise a larger increase
/// of spread over the previous bin, or (once `low` values lie behind and the previous
/// spread exceeds one) a larger ratio of spreads, is recorded with the number of values
/// before the bin. The walk stops at a ratio above five found past half of the `n` points.
pub open spec fn walk_step(w: BinWalk, bins: Seq<(u64, u64, Seq<u64>)>, i: int, low: int, n: int) -> BinWalk {
    if bins[i].2.len() == 0 {
        w
    } else {
        walk_step_nonempty(w, bins, i, low, n)
    }
}

/// The walk after bin `i`, which holds values.
pub open spec fn walk_step_nonempty(w: BinWalk, bins: Seq<(u64, u64, Seq<u64>)>, i: int, low: int, n: int) -> BinWalk {
    let spread = model_spread(bins[i]);
    let prev = if i == 0 { 0u64 } else { model_spread(bins[i - 1]) };
    let w1 = if spread > prev && spread - prev > w.max_increase {
        BinWalk {
            max_increase: (spread - prev) as u64,
            index_of_maximum_increase: w.cume_points,
            i_bin_of_maximum_increase: i as usize,
            ..w
        }
    } else {
        w
    };
    let w2 = if prev > 1 && w.cume_points >= low && ratio_exceeds(
        spread,
        prev,
        w.max_ratio_numerator,
        w.max_ratio_denominator,
    ) {
        BinWalk {
            max_ratio_numerator: spread,
            max_ratio_denominator: prev,
            index_of_maximum_ratio: w.cume_points,
            i_bin_of_maximum_ratio: i as usize,
            stopped: w.cume_points > n / 2 && ratio_exceeds(spread, prev, 5, 1),
            ..w1
        }
    } else {
        w1
    };
    if w2.stopped {
        w2
    } else {
        BinWalk { cume_points: (w.cume_points + bins[i].2.len()) as u128, ..w2 }
    }
}

/// The walk over the first `k` bins.
pub open spec fn bin_walk(bins: Seq<(u64, u64, Seq<u64>)>, low: int, n: int, k: int) -> BinWalk
    decreases k,
{
    if k <= 0 {
        initial_walk()
    } else {
        let w = bin_walk(bins, low, n, k - 1);
        if w.stopped {
            w
        } else {
            walk_step(w, bins, k - 1, low, n)
        }
    }
}

/// The bin chosen after the walk: the one of the largest increase, unless the ratio
/// measure disagrees at or past half of the `n` points.
pub open spec fn chosen_bin(w: BinWalk, n: int) -> int {
    if w.index_of_maximum_increase == w.index_of_maximum_ratio {
        w.i_bin_of_maximum_increase as int
    } else if w.index_of_maximum_ratio < n / 2 {
        w.i_bin_of_maximum_increase as int
    } else {
        w.i_bin_of_maximum_ratio as int
    }
}

/// The bins of `bounds`, each holding the distances of `d` that fall within it, in order.
pub open spec fn filled_bins(bounds: Seq<(int, int)>, d: Seq<u64>) -> Seq<(u64, u64, Seq<u64>)> {
    Seq::new(
        bounds.len(),
        |j: int| (bounds[j].0 as u64, bounds[j].1 as u64, d.filter(|v: u64| bounds[j].0 <= v < bounds[j].1)),
    )
}

proof fn lemma_contiguous_order(bins: Seq<DistanceBin>, i: int, j: int)
    requires
        bounds_contiguous(bins),
        0 <= i < j < bins.len(),
    ensures
        bins[i].bounds.end <= bins[j].bounds.start,
    decreases j - i,
{
    if j > i + 1 {
        lemma_contiguous_order(bins, i, j - 1);
        assert(bins[j - 1].bounds.start <= bins[j - 1].bounds.end);
    }
}

proof fn lemma_filter_take(d: Seq<u64>, k: int, p: spec_fn(u64) -> bool)
    requires
        0 <= k < d.len(),
    ensures
        d.take(k + 1).filter(p) == if p(d[k]) {
            d.take(k).filter(p).push(d[k])
        } else {
            d.take(k).filter(p)
        },
{
    reveal(Seq::filter);
    assert(d.take(k + 1).drop_last() =~= d.take(k));
}

/// Put each distance into the bin that holds it; a distance beyond the last bin is left out.
fn fill_bins(bins: &mut Vec<DistanceBin>, distances: &Vec<AdjacentPairDistance>)
    requires
        bins_wf(old(bins)@),
        old(bins)@.len() > 0,
        old(bins)@[0].bounds.start == 0,
        forall|i: int| 0 <= i < old(bins)@.len() ==> (#[trigger] old(bins)@[i]).values_added@.len() == 0,
    ensures
        bins_wf(final(bins)@),
        final(bins)@.len() == old(bins)@.len(),
        final(bins)@[0].bounds.start == 0,
        bin_models(final(bins)@) == filled_bins(bin_bounds(old(bins)@), square_distances(distances@)),
{
    let ghost d = square_distances(distances@);
    let ghost bounds = bin_bounds(bins@);
    let mut k: usize = 0;
    proof {
        reveal(Seq::filter);
        let e = d.take(0);
        assert(e =~= Seq::<u64>::empty());
        assert forall|j: int| 0 <= j < bins@.len() implies #[trigger] bin_models(bins@)[j] == filled_bins(bounds, e)[j] by {
            let p = |v: u64| bounds[j].0 <= v < bounds[j].1;
            assert(e.filter(p) =~= Seq::<u64>::empty());
            assert(bins@[j].values_added@ =~= Seq::<u64>::empty());
        }
        assert(bin_models(bins@) =~= filled_bins(bounds, e));
    }
    while k < distances.len()
        invariant
            d == square_distances(distances@),
            k <= d.len(),
            bins_wf(bins@),
            bins@.len() > 0,
            bins@[0].bounds.start == 0,
            bin_bounds(bins@) == bounds,
            bin_models(bins@) == filled_bins(bounds, d.take(k as int)),
        decreases d.len() - k,
    {
        let value = distances[k].square_distance;
        assert(value == d[k as int]);
        let idx = DistanceBin::find_bin(value, bins);
        let ghost before = bins@;
        let mut bin = DistanceBin::new(0, 0);
        bins.set_and_swap(idx, &mut bin);
        assert(bin == before[idx as int]);
        bin.add(value);
        bins.set_and_swap(idx, &mut bin);
        proof {
            assert(bins@ == before.update(idx as int, bins@[idx as int]));
            assert forall|j: int| 0 <= j < bins@.len() implies #[trigger] bin_models(bins@)[j] == filled_bins(bounds, d.take(k + 1))[j] by {
                let p = |v: u64| bounds[j].0 <= v < bounds[j].1;
                lemma_filter_take(d, k as int, p);
                assert(bin_models(before)[j] == filled_bins(bounds, d.take(k as int))[j]);
                assert(bounds[j] == (before[j].bounds.start as int, before[j].bounds.end as int));
                if j != idx {
                    assert(bins@[j] == before[j]);
                    if p(value) {
                        if value < before.last().bounds.end {
                            if j < idx {
                                lemma_contiguous_order(before, j, idx as int);
                            } else {
                                lemma_contiguous_order(before, idx as int, j);
                            }
                        } else {
                            if j < before.len() - 1 {
                                lemma_contiguous_order(before, j, before.len() - 1);
                            }
                        }
                    }
                }
            }
            assert(bin_models(bins@) =~= filled_bins(bounds, d.take(k + 1)));
            assert(bin_bounds(bins@) =~= bounds);
            assert forall|i: int| 0 <= i < bins@.len() implies (#[trigger] bins@[i]).wf() && bins@[i].bounds.start <= bins@[i].bounds.end by {
                if i != idx {
                    assert(bins@[i] == before[i]);
                }
            }
            assert forall|i: int| 0 <= i < bins@.len() - 1 implies (#[trigger] bins@[i]).bounds.end == bins@[i + 1].bounds.start by {
                assert(bins@[i].bounds == before[i].bounds);
                assert(bins@[i + 1].bounds == before[i + 1].bounds);
            }
        }
        k = k + 1;
    }
    assert(d.take(k as int) =~= d);
}

/// One step of the walk, over bin `i`.
fn walk_step_exec(w: &mut BinWalk, bins: &Vec<DistanceBin>, i: usize, low: u128, num_points: u128)
    requires
        bins_wf(bins@),
        i < bins@.len(),
        !old(w).stopped,
        old(w).cume_points <= i * 0x1_0000_0000_0000_0000,
        old(w).max_ratio_denominator > 0,
    ensures
        *final(w) == walk_step(*old(w), bin_models(bins@), i as int, low as int, num_points as int),
        final(w).cume_points <= (i + 1) * 0x1_0000_0000_0000_0000,
{
    let ghost models = bin_models(bins@);
    if bins[i].len() == 0 {
        assert(w.cume_points <= (i + 1) * 0x1_0000_0000_0000_0000) by (nonlinear_arith)
            requires
                w.cume_points <= i * 0x1_0000_0000_0000_0000,
        ;
        return ;
    }
    proof {
        if bins@[i as int].values_added@.len() > 0 {
            lemma_bin_extremes(bins@[i as int]);
        }
        if i > 0 && bins@[i - 1].values_added@.len() > 0 {
            lemma_bin_extremes(bins@[i - 1]);
        }
    }
    let spread = bins[i].average_spread();
    let previous_spread = if i == 0 { 0 } else { bins[i - 1].average_spread() };
    assert(spread == model_spread(models[i as int]));
    assert(i > 0 ==> previous_spread == model_spread(models[i - 1]));
    let ghost w0 = *w;
    if spread > previous_spread && spread - previous_spread > w.max_increase {
        w.max_increase = spread - previous_spread;
        w.index_of_maximum_increase = w.cume_points;
        w.i_bin_of_maximum_increase = i;
    }
    if previous_spread > 1 && w.cume_points >= low && exceeds_ratio(
        spread,
        previous_spread,
        w.max_ratio_numerator,
        w.max_ratio_denominator,
    ) {
        w.max_ratio_numerator = spread;
        w.max_ratio_denominator = previous_spread;
        w.index_of_maximum_ratio = w.cume_points;
        w.i_bin_of_maximum_ratio = i;
        w.stopped = w.cume_points > num_points / 2 && exceeds_ratio(spread, previous_spread, 5, 1);
    }
    if !w.stopped {
        let count = bins[i].len();
        assert(w.cume_points + count <= (i + 1) * 0x1_0000_0000_0000_0000) by (nonlinear_arith)
            requires
                w.cume_points <= i * 0x1_0000_0000_0000_0000,
                count <= 0xffff_ffff_ffff_ffff,
        ;
        w.cume_points = w.cume_points + count as u128;
    }
    assert(*w == walk_step(w0, models, i as int, low as int, num_points as int));
    assert(w.cume_points <= (i + 1) * 0x1_0000_0000_0000_0000) by (nonlinear_arith)
    requires
        w.cume_points <= i * 0x1_0000_0000_0000_0000 || w.cume_points <= (i + 1) * 0x1_0000_0000_0000_0000,
    ;
}

/// Walk the bins in order, tracking where the spread of values jumps the most.
fn walk_bins(bins: &Vec<DistanceBin>, low: u128, num_points: u128) -> (w: BinWalk)
    requires
        bins_wf(bins@),
        bins@.len() > 0,
    ensures
        w == bin_walk(bin_models(bins@), low as int, num_points as int, bins@.len() as int),
        w.i_bin_of_maximum_increase < bins@.len(),
        w.i_bin_of_maximum_ratio < bins@.len(),
{
    let ghost models = bin_models(bins@);
    let mut w = BinWalk {
        max_increase: 0,
        index_of_maximum_increase: 0,
        i_bin_of_maximum_increase: 0,
        max_ratio_numerator: 0,
        max_ratio_denominator: 1,
        index_of_maximum_ratio: 0,
        i_bin_of_maximum_ratio: 0,
        cume_points: 0,
        stopped: false,
    };
    let mut i: usize = 0;
    while i < bins.len()
        invariant
            bins_wf(bins@),
            bins@.len() > 0,
            models == bin_models(bins@),
            i <= bins@.len(),
            w == bin_walk(models, low as int, num_points as int, i as int),
            w.cume_points <= i * 0x1_0000_0000_0000_0000,
            w.i_bin_of_maximum_increase < bins@.len(),
            w.i_bin_of_maximum_ratio < bins@.len(),
            w.max_ratio_denominator > 0,
        decreases bins@.len() - i,
    {
        if !w.stopped {
            walk_step_exec(&mut w, bins, i, low, num_points);
        } else {
            assert(w.cume_points <= (i + 1) * 0x1_0000_0000_0000_0000) by (nonlinear_arith)
                requires
                    w.cume_points <= i * 0x1_0000_0000_0000_0000,
            ;
        }
        i = i + 1;
    }
    w
}

/// The value before the largest gap in bin `i`, measured from the previous bin's highest
/// value, or from the bin's own lowest value when there is none.
fn threshold_in_bin(bins: Vec<DistanceBin>, i_bin_to_use: usize) -> (t: u64)
    requires
        bins_wf(bins@),
        i_bin_to_use < bins@.len(),
        bins@[i_bin_to_use as int].values_added@.len() > 0,
    ensures
        t == model_value_before_jump(
            bin_models(bins@)[i_bin_to_use as int],
            model_anchor(bin_models(bins@), i_bin_to_use as int),
        ),
{
    let ghost models = bin_models(bins@);
    let anchor = if i_bin_to_use == 0 || bins[i_bin_to_use - 1].len() == 0 {
        bins[i_bin_to_use].lowest_value_added
    } else {
        bins[i_bin_to_use - 1].highest_value_added
    };
    proof {
        let b = bins@[i_bin_to_use as int];
        assert(b.wf());
        if i_bin_to_use > 0 && bins@[i_bin_to_use - 1].values_added@.len() > 0 {
            let p = bins@[i_bin_to_use - 1];
            assert(p.wf());
            lemma_bin_extremes(p);
            let j = choose|j: int| 0 <= j < p.values_added@.len() && p.values_added@[j] == p.highest_value_added;
            assert(p.values_added@[j] < p.bounds.end);
        }
        if b.values_added@.len() > 0 {
            lemma_bin_extremes(b);
            let j = choose|j: int| 0 <= j < b.values_added@.len() && b.values_added@[j] == b.lowest_value_added;
            assert(b.bounds.start <= b.values_added@[j]);
        }
        assert(anchor == model_anchor(models, i_bin_to_use as int));
    }
    let mut bins = bins;
    let mut chosen = bins.remove(i_bin_to_use);
    let t = chosen.find_square_distance_before_jump(anchor);
    assert(t == model_value_before_jump(models[i_bin_to_use as int], anchor));
    t
}

// ........................... Points ..........................................

/// A point with a stable id and unsigned integer coordinates.
#[derive(Clone, Debug)]
pub struct Point {
    /// Presumably unique id.
    pub id: usize,
    /// Coordinate values.
    pub coordinates: Vec<u32>,
}

/// The id and coordinates of each point.
pub open spec fn point_models(p: Seq<Point>) -> Seq<(usize, Seq<u32>)> {
    p.map_values(|q: Point| (q.id, q.coordinates@))
}

/// Sum of the squared coordinate differences over the first `n` dimensions.
pub open spec fn square_distance_prefix(a: Seq<u32>, b: Seq<u32>, n: int) -> int
    decreases n,
{
    if n <= 0 {
        0
    } else {
        square_distance_prefix(a, b, n - 1) + (a[n - 1] - b[n - 1]) * (a[n - 1] - b[n - 1])
    }
}

/// Square of the Euclidean distance between two coordinate vectors of equal length.
pub open spec fn square_distance_between(a: Seq<u32>, b: Seq<u32>) -> int {
    square_distance_prefix(a, b, a.len() as int)
}

/// The square distances between consecutive points.
pub open spec fn adjacent_square_distances(p: Seq<(usize, Seq<u32>)>) -> Seq<u64> {
    Seq::new(
        if p.len() == 0 { 0 } else { (p.len() - 1) as nat },
        |i: int| square_distance_between(p[i].1, p[i + 1].1) as u64,
    )
}

/// Consecutive points have the same number of dimensions, and their square distance fits
/// in 64 bits.
pub open spec fn adjacent_distances_fit(p: Seq<(usize, Seq<u32>)>) -> bool {
    forall|i: int|
        0 <= i < p.len() - 1 ==> {
            &&& (#[trigger] p[i]).1.len() == p[i + 1].1.len()
            &&& square_distance_between(p[i].1, p[i + 1].1) <= u64::MAX
        }
}

/// Any two points have the same number of dimensions, and their square distance fits in
/// 64 bits.
pub open spec fn all_distances_fit(p: Seq<(usize, Seq<u32>)>) -> bool {
    forall|i: int, j: int|
        0 <= i < p.len() && 0 <= j < p.len() ==> {
            &&& (#[trigger] p[i]).1.len() == (#[trigger] p[j]).1.len()
            &&& square_distance_between(p[i].1, p[j].1) <= u64::MAX
        }
}

proof fn lemma_square_distance_prefix_monotonic(a: Seq<u32>, b: Seq<u32>, m: int, n: int)
    requires
        0 <= m <= n,
    ensures
        0 <= square_distance_prefix(a, b, m) <= square_distance_prefix(a, b, n),
    decreases n,
{
    if n > m {
        lemma_square_distance_prefix_monotonic(a, b, m, n - 1);
        let x = a[n - 1] - b[n - 1];
        assert(x * x >= 0) by (nonlinear_arith);
    } else if n > 0 {
        lemma_square_distance_prefix_monotonic(a, b, n - 1, n - 1);
        let x = a[n - 1] - b[n - 1];
        assert(x * x >= 0) by (nonlinear_arith);
    }
}

/// Square of the distance between two points, computed exactly.
fn square_distance(a: &Point, b: &Point) -> (r: u64)
    requires
        a.coordinates@.len() == b.coordinates@.len(),
        square_distance_between(a.coordinates@, b.coordinates@) <= u64::MAX,
    ensures
        r == square_distance_between(a.coordinates@, b.coordinates@),
{
    let n = a.coordinates.len();
    let mut sum: u64 = 0;
    let mut i: usize = 0;
    while i < n
        invariant
            n == a.coordinates@.len(),
            n == b.coordinates@.len(),
            i <= n,
            sum == square_distance_prefix(a.coordinates@, b.coordinates@, i as int),
            square_distance_prefix(a.coordinates@, b.coordinates@, n as int) <= u64::MAX,
        decreases n - i,
    {
        let x = a.coordinates[i];
        let y = b.coordinates[i];
        let diff: u64 = if x >= y { (x - y) as u64 } else { (y - x) as u64 };
        proof {
            lemma_square_distance_prefix_monotonic(a.coordinates@, b.coordinates@, i + 1, n as int);
            assert((diff as int) * (diff as int) == (x - y) * (x - y)) by (nonlinear_arith)
                requires
                    diff == x - y || diff == y - x,
            ;
        }
        sum = sum + diff * diff;
        i = i + 1;
    }
    sum
}

impl AdjacentPairDistance {
    /// The distance between `p1`, at position `index1`, and `p2`, at position `index2`.
    pub fn new(p1: &Point, p2: &Point, index1: usize, index2: usize) -> (r: Self)
        requires
            p1.coordinates@.len() == p2.coordinates@.len(),
            square_distance_between(p1.coordinates@, p2.coordinates@) <= u64::MAX,
        ensures
            r.square_distance == square_distance_between(p1.coordinates@, p2.coordinates@),
            r.first_index == index1,
            r.second_index == index2,
            r.first_id == p1.id,
            r.second_id == p2.id,
    {
        AdjacentPairDistance {
            square_distance: square_distance(p1, p2),
            first_index: index1,
            second_index: index2,
            first_id: p1.id,
            second_id: p2.id,
        }
    }

    /// The distances between consecutive points, in the order of the points.
    pub fn all_pairs(points: &Vec<Point>) -> (r: Vec<AdjacentPairDistance>)
        requires
            adjacent_distances_fit(point_models(points@)),
        ensures
            square_distances(r@) == adjacent_square_distances(point_models(points@)),
            r@.len() == if points@.len() == 0 { 0 } else { points@.len() - 1 },
            forall|i: int|
                0 <= i < r@.len() ==> {
                    &&& (#[trigger] r@[i]).first_index == i
                    &&& r@[i].second_index == i + 1
                    &&& r@[i].first_id == points@[i].id
                    &&& r@[i].second_id == points@[i + 1].id
                },
    {
        let ghost m = point_models(points@);
        let mut pairs: Vec<AdjacentPairDistance> = Vec::new();
        if points.len() <= 1 {
            assert(square_distances(pairs@) =~= adjacent_square_distances(m));
            return pairs;
        }
        let mut index: usize = 0;
        while index < points.len() - 1
            invariant
                m == point_models(points@),
                adjacent_distances_fit(m),
                points@.len() >= 2,
                index + 1 <= points@.len(),
                pairs@.len() == index,
                forall|i: int|
                    0 <= i < index ==> {
                        &&& (#[trigger] pairs@[i]).first_index == i
                        &&& pairs@[i].second_index == i + 1
                        &&& pairs@[i].first_id == points@[i].id
                        &&& pairs@[i].second_id == points@[i + 1].id
                        &&& pairs@[i].square_distance == adjacent_square_distances(m)[i]
                    },
            decreases points@.len() - index,
        {
            assert(m[index as int] == (points@[index as int].id, points@[index as int].coordinates@));
            assert(m[index + 1] == (points@[index + 1].id, points@[index + 1].coordinates@));
            let pair = AdjacentPairDistance::new(&points[index], &points[index + 1], index, index + 1);
            pairs.push(pair);
            index = index + 1;
        }
        assert(square_distances(pairs@) =~= adjacent_square_distances(m));
        pairs
    }
}

/// The order in which `hilbert::Point::hilbert_sort` puts points with the given coordinates.
pub uninterp spec fn hilbert_order_of(coordinates: Seq<Seq<u32>>, bits_per_dimension: nat) -> Seq<usize>;

/// The coordinates of each point.
pub open spec fn coordinate_seqs(p: Seq<(usize, Seq<u32>)>) -> Seq<Seq<u32>> {
    p.map_values(|q: (usize, Seq<u32>)| q.1)
}

/// Sum of the squared coordinates over the first `n` dimensions.
pub open spec fn square_magnitude_prefix(a: Seq<u32>, n: int) -> int
    decreases n,
{
    if n <= 0 {
        0
    } else {
        square_magnitude_prefix(a, n - 1) + (a[n - 1] as int) * (a[n - 1] as int)
    }
}

/// What the Hilbert sort of the points asks of them: at least one dimension each, and a
/// square magnitude that fits in 64 bits.
pub open spec fn hilbert_sortable(p: Seq<(usize, Seq<u32>)>) -> bool {
    forall|i: int|
        0 <= i < p.len() ==> {
            &&& (#[trigger] p[i]).1.len() >= 1
            &&& square_magnitude_prefix(p[i].1, p[i].1.len() as int) <= u64::MAX
        }
}

/// `order` lists each position below `n` exactly once.
pub open spec fn is_index_permutation(order: Seq<usize>, n: nat) -> bool {
    &&& order.len() == n
    &&& order.no_duplicates()
    &&& forall|i: int| 0 <= i < order.len() ==> #[trigger] order[i] < n
}

/// The points rearranged so that position `i` holds the point at `order[i]`.
pub open spec fn permuted<T>(p: Seq<T>, order: Seq<usize>) -> Seq<T> {
    Seq::new(order.len(), |i: int| p[order[i] as int])
}

/// Relies on `hilbert::Point::hilbert_sort` (with `hilbert::Point::new` and `get_id` to
/// carry each point's position through): the positions of the points in ascending order of
/// their Hilbert index. The sort is stable and depends on the coordinates and the number of
/// bits alone, and it rearranges the points without adding or dropping any.
#[verifier::external_body]
fn hilbert_order(points: &Vec<Point>, bits_per_dimension: usize) -> (r: Vec<usize>)
    requires
        1 <= bits_per_dimension <= 32,
        hilbert_sortable(point_models(points@)),
    ensures
        r@ == hilbert_order_of(coordinate_seqs(point_models(points@)), bits_per_dimension as nat),
        is_index_permutation(r@, points@.len()),
{
    let mut keyed: Vec<hilbert::Point> = points
        .iter()
        .enumerate()
        .map(|(i, p)| hilbert::Point::new(i, &p.coordinates))
        .collect();
    hilbert::Point::hilbert_sort(&mut keyed, bits_per_dimension);
    keyed.iter().map(|p| p.get_id()).collect()
}

/// A copy of a point.
fn copy_point(p: &Point) -> (r: Point)
    ensures
        r.id == p.id,
        r.coordinates@ == p.coordinates@,
{
    Point { id: p.id, coordinates: p.coordinates.clone() }
}

/// Rearrange the points so that position `i` holds the point that was at `order[i]`.
fn apply_order(points: &mut Vec<Point>, order: &Vec<usize>)
    requires
        is_index_permutation(order@, old(points)@.len()),
    ensures
        point_models(final(points)@) == permuted(point_models(old(points)@), order@),
{
    let mut arranged: Vec<Point> = Vec::new();
    let mut i: usize = 0;
    while i < order.len()
        invariant
            is_index_permutation(order@, points@.len()),
            i <= order@.len(),
            arranged@.len() == i,
            forall|j: int|
                0 <= j < i ==> (#[trigger] point_models(arranged@)[j]) == point_models(
                    points@,
                )[order@[j] as int],
        decreases order@.len() - i,
    {
        let p = copy_point(&points[order[i]]);
        let ghost before = arranged@;
        arranged.push(p);
        proof {
            assert forall|j: int| 0 <= j < i + 1 implies (#[trigger] point_models(arranged@)[j])
                == point_models(points@)[order@[j] as int] by {
                assert(point_models(arranged@)[j] == (arranged@[j].id, arranged@[j].coordinates@));
                if j < i {
                    assert(arranged@[j] == before[j]);
                    assert(point_models(before)[j] == (before[j].id, before[j].coordinates@));
                }
                if j == i {
                    assert(point_models(points@)[order@[j] as int] == (
                        points@[order@[j] as int].id,
                        points@[order@[j] as int].coordinates@,
                    ));
                }
            }
        }
        i = i + 1;
    }
    assert(point_models(arranged@) =~= permuted(point_models(points@), order@));
    *points = arranged;
}

// ........................... SingleLinkage ..........................................

/// Finds the linkage distance to use for single-link agglomerative clustering of points
/// that are, or will be, ordered along a Hilbert curve.
#[derive(Copy, Clone, Debug)]
pub struct SingleLinkage {
    /// Bits used to encode each coordinate along the curve.
    bits_per_dimension: u8,
    /// Whether `find` orders the points along the curve first.
    need_to_sort_by_hilbert_curve: bool,
    /// The chosen distance must still leave at least this many clusters.
    minimum_cluster_count: u16,
    /// Jumps are measured between values this many positions (plus one) apart.
    noise_skip_by: u16,
    /// Runs of at most this many points count as outliers.
    outlier_cluster_size: u16,
    /// Whether to sort all distances (exact) or to bucket them (approximate).
    sort_distances_completely: bool,
    /// Growth ratios found before this position are not trusted.
    lowest_index_for_checking_growth_ratio: u32,
}

/// The order used to sort square distances.
pub open spec fn ascending_order() -> spec_fn(u64, u64) -> bool {
    |a: u64, b: u64| a <= b
}

/// The square distances in ascending order.
pub open spec fn ascending(d: Seq<u64>) -> Seq<u64> {
    d.sort_by(ascending_order())
}

/// The growth stats after the steps ending at positions `start .. end` of `sorted`, where
/// the step ending at `i` starts `noise + 1` positions earlier.
pub open spec fn growth_stats_through(sorted: Seq<u64>, noise: int, start: int, end: int) -> DistanceGrowthStats
    decreases end - start,
{
    if end <= start {
        initial_growth_stats()
    } else {
        accumulate_spec(
            growth_stats_through(sorted, noise, start, end - 1),
            (end - 1) as usize,
            sorted[end - 2 - noise],
            sorted[end - 1],
        )
    }
}

/// The threshold that the exact method chooses from the sorted distances of `n` points.
pub open spec fn sorting_threshold(sorted: Seq<u64>, n: int, mcc: int, noise: int, low: int) -> u64 {
    let high = n - mcc;
    let stats = growth_stats_through(sorted, noise, 1 + noise + low, high);
    sorted[index_of_max_change_spec(stats, low, high)]
}

/// Whether the configuration leaves a window to search among the distances of `n` points.
pub open spec fn sorting_window_exists(n: int, mcc: int, low: int) -> bool {
    n >= mcc && low <= n - mcc
}

proof fn lemma_ascending(old_v: Seq<u64>, new_v: Seq<u64>)
    requires
        new_v.to_multiset() == old_v.to_multiset(),
        sorted_by(new_v, ascending_order()),
    ensures
        new_v == ascending(old_v),
{
    let leq = ascending_order();
    assert(vstd::relations::total_ordering(leq));
    old_v.lemma_sort_by_ensures(leq);
    vstd::seq_lib::lemma_sorted_unique(new_v, old_v.sort_by(leq), leq);
}

/// Relies on `slice::sort`: the same values, in ascending order.
#[verifier::external_body]
fn sort_ascending(v: &mut Vec<u64>)
    ensures
        final(v)@.to_multiset() == old(v)@.to_multiset(),
        sorted_by(final(v)@, ascending_order()),
{
    v.sort();
}

/// Integer square root.
fn integer_sqrt(n: u32) -> (r: u32)
    ensures
        (r as int) * (r as int) <= n,
        n < (r as int + 1) * (r as int + 1),
{
    let mut lo: u64 = 0;
    let mut hi: u64 = 65536;
    while lo + 1 < hi
        invariant
            lo < hi <= 65536,
            lo * lo <= n,
            n < hi * hi,
        decreases hi - lo,
    {
        let mid = lo + (hi - lo) / 2;
        assert(mid * mid <= 65536 * 65536) by (nonlinear_arith)
            requires mid <= 65536;
        if mid * mid <= n as u64 {
            lo = mid;
        } else {
            hi = mid;
        }
    }
    lo as u32
}

impl SingleLinkage {
    pub closed spec fn spec_bits_per_dimension(&self) -> u8 {
        self.bits_per_dimension
    }

    pub closed spec fn spec_need_to_sort_by_hilbert_curve(&self) -> bool {
        self.need_to_sort_by_hilbert_curve
    }

    pub closed spec fn spec_minimum_cluster_count(&self) -> u16 {
        self.minimum_cluster_count
    }

    pub closed spec fn spec_noise_skip_by(&self) -> u16 {
        self.noise_skip_by
    }

    pub closed spec fn spec_outlier_cluster_size(&self) -> u16 {
        self.outlier_cluster_size
    }

    pub closed spec fn spec_sort_distances_completely(&self) -> bool {
        self.sort_distances_completely
    }

    pub closed spec fn spec_lowest_index_for_checking_growth_ratio(&self) -> u32 {
        self.lowest_index_for_checking_growth_ratio
    }

    /// The minimum cluster count is never below six.
    pub open spec fn wf(&self) -> bool {
        self.spec_minimum_cluster_count() >= 6
    }

    /// Whether `other` has the same configuration as `self` but for the fields named by
    /// the flags.
    pub open spec fn same_except(
        &self,
        other: &Self,
        need_sort: bool,
        mcc: bool,
        noise: bool,
        sort_all: bool,
        low: bool,
    ) -> bool {
        &&& other.spec_bits_per_dimension() == self.spec_bits_per_dimension()
        &&& other.spec_outlier_cluster_size() == self.spec_outlier_cluster_size()
        &&& (!need_sort ==> other.spec_need_to_sort_by_hilbert_curve()
            == self.spec_need_to_sort_by_hilbert_curve())
        &&& (!mcc ==> other.spec_minimum_cluster_count() == self.spec_minimum_cluster_count())
        &&& (!noise ==> other.spec_noise_skip_by() == self.spec_noise_skip_by())
        &&& (!sort_all ==> other.spec_sort_distances_completely()
            == self.spec_sort_distances_completely())
        &&& (!low ==> other.spec_lowest_index_for_checking_growth_ratio()
            == self.spec_lowest_index_for_checking_growth_ratio())
    }

    /// A configuration with default values for `num_points` points whose coordinates use
    /// `bits_per_dimension` bits: at least ten clusters, or half the square root of the
    /// number of points; a noise skip of five; outlier runs of up to ten points; full sorting;
    /// ratios trusted from half the points on.
    pub fn new(num_points: u32, bits_per_dimension: u8) -> (r: Self)
        ensures
            r.wf(),
            r.spec_bits_per_dimension() == bits_per_dimension,
            !r.spec_need_to_sort_by_hilbert_curve(),
            exists|root: int|
                {
                    &&& 0 <= root
                    &&& #[trigger] (root * root) <= num_points < (root + 1) * (root + 1)
                    &&& r.spec_minimum_cluster_count() as int == vstd::math::max(10, root / 2)
                },
            r.spec_noise_skip_by() == 5,
            r.spec_outlier_cluster_size() == 10,
            r.spec_sort_distances_completely(),
            r.spec_lowest_index_for_checking_growth_ratio() == num_points / 2,
    {
        let root = integer_sqrt(num_points);
        proof {
            assert(root <= 65535) by (nonlinear_arith)
                requires
                    (root as int) * (root as int) <= num_points,
                    num_points <= u32::MAX,
            {
                if root > 65535 {
                    assert((root as int) * (root as int) >= 65536 * 65536) by (nonlinear_arith)
                        requires root > 65535;
                }
            }
        }
        let half = root / 2;
        let minimum_cluster_count: u16 = if half < 10 { 10 } else { half as u16 };
        assert(vstd::math::max(10, root as int / 2) == minimum_cluster_count);
        SingleLinkage {
            bits_per_dimension,
            minimum_cluster_count,
            need_to_sort_by_hilbert_curve: false,
            noise_skip_by: 5,
            outlier_cluster_size: 10,
            sort_distances_completely: true,
            lowest_index_for_checking_growth_ratio: num_points / 2,
        }
    }

    /// Have `find` order the points along the Hilbert curve first.
    pub fn with_need_to_sort_by_hilbert_curve(self) -> (r: Self)
        ensures
            r.spec_need_to_sort_by_hilbert_curve(),
            self.same_except(&r, true, false, false, false, false),
    {
        let mut r = self;
        r.need_to_sort_by_hilbert_curve = true;
        r
    }

    /// Have `find` take the points as already ordered along the Hilbert curve.
    pub fn without_need_to_sort_by_hilbert_curve(self) -> (r: Self)
        ensures
            !r.spec_need_to_sort_by_hilbert_curve(),
            self.same_except(&r, true, false, false, false, false),
    {
        let mut r = self;
        r.need_to_sort_by_hilbert_curve = false;
        r
    }

    /// Set `noise_skip_by`.
    pub fn with_noise_skip_by(self, noise_skip_by: u16) -> (r: Self)
        ensures
            r.spec_noise_skip_by() == noise_skip_by,
            self.same_except(&r, false, false, true, false, false),
    {
        let mut r = self;
        r.noise_skip_by = noise_skip_by;
        r
    }

    /// Set `minimum_cluster_count`, which is never taken below six.
    pub fn with_minimum_cluster_count(self, min_cluster_count: u16) -> (r: Self)
        ensures
            r.spec_minimum_cluster_count() as int == vstd::math::max(min_cluster_count as int, 6),
            self.same_except(&r, false, true, false, false, false),
    {
        let mut r = self;
        r.minimum_cluster_count = if min_cluster_count < 6 { 6 } else { min_cluster_count };
        r
    }

    /// Use the exact method, which sorts all distances.
    pub fn with_sort_distances_completely(self) -> (r: Self)
        ensures
            r.spec_sort_distances_completely(),
            self.same_except(&r, false, false, false, true, false),
    {
        let mut r = self;
        r.sort_distances_completely = true;
        r
    }

    /// Use the approximate method, which sorts distances into bins.
    pub fn without_sort_distances_completely(self) -> (r: Self)
        ensures
            !r.spec_sort_distances_completely(),
            self.same_except(&r, false, false, false, true, false),
    {
        let mut r = self;
        r.sort_distances_completely = false;
        r
    }

    /// Set `lowest_index_for_checking_growth_ratio`.
    pub fn with_lowest_index_for_checking_growth_ratio(self, index: u32) -> (r: Self)
        ensures
            r.spec_lowest_index_for_checking_growth_ratio() == index,
            self.same_except(&r, false, false, false, false, true),
    {
        let mut r = self;
        r.lowest_index_for_checking_growth_ratio = index;
        r
    }

    /// What the exact method returns for the distances `d` between consecutive points.
    pub open spec fn sorting_result(&self, d: Seq<u64>) -> Option<LinkageResult> {
        let n = d.len() + 1int;
        let mcc = self.spec_minimum_cluster_count() as int;
        let low = self.spec_lowest_index_for_checking_growth_ratio() as int;
        let noise = self.spec_noise_skip_by() as int;
        if !sorting_window_exists(n, mcc, low) {
            None
        } else {
            let t = sorting_threshold(ascending(d), n, mcc, noise, low);
            if t == 0 {
                None
            } else {
                Some(linkage_counts(d, t, self.spec_outlier_cluster_size() as nat))
            }
        }
    }

    /// What the approximate method returns for the distances `d` between consecutive points.
    pub open spec fn binning_result(&self, d: Seq<u64>) -> Option<LinkageResult> {
        let n = d.len() + 1int;
        let tippy = vstd::arithmetic::power2::pow2(2 * self.spec_bits_per_dimension() as nat) as int;
        let bounds = geometric_bounds(20, tippy, 20, 1050);
        let noise = self.spec_noise_skip_by();
        let minimum_size: nat = if noise < 5 { 5 } else { noise as nat };
        let bins = consolidated(filled_bins(bounds, d), minimum_size);
        let low = self.spec_lowest_index_for_checking_growth_ratio() as int;
        let w = bin_walk(bins, low, n, bins.len() as int);
        let i = chosen_bin(w, n);
        if d.len() == 0 || !(0 <= i < bins.len()) || bins[i].2.len() == 0 {
            None
        } else {
            let t = model_value_before_jump(bins[i], model_anchor(bins, i));
            if t == 0 {
                None
            } else {
                Some(linkage_counts(d, t, self.spec_outlier_cluster_size() as nat))
            }
        }
    }

    /// What `find` returns for the distances `d` between consecutive points in curve order:
    /// nothing for fewer than two points, else the result of the configured method.
    pub open spec fn linkage_for(&self, d: Seq<u64>) -> Option<LinkageResult> {
        if d.len() == 0 {
            None
        } else if self.spec_sort_distances_completely() {
            self.sorting_result(d)
        } else {
            self.binning_result(d)
        }
    }

    /// The approximate method: bucket the distances into bins of growing width, merge
    /// sparse bins, pick the bin where the spread of values jumps the most, and within it
    /// the value before the largest gap.
    fn find_by_binning(&self, distances: &Vec<AdjacentPairDistance>) -> (r: Option<LinkageResult>)
        requires
            self.wf(),
            self.spec_bits_per_dimension() <= 31,
            1 <= distances@.len() < u32::MAX,
        ensures
            r == self.binning_result(square_distances(distances@)),
    {
        let ghost d = square_distances(distances@);
        let shift: u64 = 2 * self.bits_per_dimension as u64;
        proof {
            vstd::bits::lemma_u64_pow2_no_overflow(shift as nat);
            vstd::bits::lemma_u64_shl_is_mul(1, shift);
        }
        let largest_possible_square_distance: u64 = 1u64 << shift;
        let mut bins = DistanceBin::make_bins(20, largest_possible_square_distance, 20, 1050);
        let ghost bounds = bin_bounds(bins@);
        assert(bins@.len() > 0 && bins@[0].bounds.start == 0) by {
            assert(bounds[0] == (0int, 20int));
        }
        fill_bins(&mut bins, distances);
        let noise = self.noise_skip_by;
        let minimum_size: usize = if noise < 5 { 5 } else { noise as usize };
        let bins = DistanceBin::consolidate(bins, minimum_size);
        let ghost models = bin_models(bins@);
        let num_points: u128 = distances.len() as u128 + 1;
        let low = self.lowest_index_for_checking_growth_ratio as u128;
        let w = walk_bins(&bins, low, num_points);
        let i_bin_to_use = if w.index_of_maximum_increase == w.index_of_maximum_ratio {
            w.i_bin_of_maximum_increase
        } else if w.index_of_maximum_ratio < num_points / 2 {
            w.i_bin_of_maximum_increase
        } else {
            w.i_bin_of_maximum_ratio
        };
        assert(i_bin_to_use == chosen_bin(w, num_points as int));
        if bins[i_bin_to_use].len() == 0 {
            return None;
        }
        let t = threshold_in_bin(bins, i_bin_to_use);
        if t == 0 {
            None
        } else {
            Some(self.estimate_cluster_counts(distances, t))
        }
    }

    /// Find the linkage distance for the points, with estimates of the clusters it forms.
    ///
    /// When so configured, the points are first put in Hilbert curve order, which is how
    /// they are left. `None` for fewer than two points, where the configuration leaves the
    /// exact method no window to search, or where the distance found is zero.
    pub fn find(&self, points: &mut Vec<Point>) -> (r: Option<LinkageResult>)
        requires
            self.wf(),
            old(points)@.len() < u32::MAX,
            self.spec_need_to_sort_by_hilbert_curve() ==> all_distances_fit(point_models(old(points)@)),
            adjacent_distances_fit(point_models(old(points)@)),
            self.spec_need_to_sort_by_hilbert_curve() ==> 1 <= self.spec_bits_per_dimension()
                <= 32 && hilbert_sortable(point_models(old(points)@)),
            !self.spec_sort_distances_completely() ==> self.spec_bits_per_dimension() <= 31,
        ensures
            point_models(final(points)@) == if self.spec_need_to_sort_by_hilbert_curve() {
                permuted(
                    point_models(old(points)@),
                    hilbert_order_of(
                        coordinate_seqs(point_models(old(points)@)),
                        self.spec_bits_per_dimension() as nat,
                    ),
                )
            } else {
                point_models(old(points)@)
            },
            self.spec_need_to_sort_by_hilbert_curve() ==> is_index_permutation(
                hilbert_order_of(
                    coordinate_seqs(point_models(old(points)@)),
                    self.spec_bits_per_dimension() as nat,
                ),
                old(points)@.len(),
            ),
            r == self.linkage_for(adjacent_square_distances(point_models(final(points)@))),
    {
        if self.need_to_sort_by_hilbert_curve {
            let order = hilbert_order(points, self.bits_per_dimension as usize);
            let ghost before = point_models(points@);
            apply_order(points, &order);
            proof {
                let after = point_models(points@);
                assert forall|i: int, j: int| 0 <= i < after.len() && 0 <= j < after.len() implies {
                    &&& (#[trigger] after[i]).1.len() == (#[trigger] after[j]).1.len()
                    &&& square_distance_between(after[i].1, after[j].1) <= u64::MAX
                } by {
                    assert(after[i] == before[order@[i] as int]);
                    assert(after[j] == before[order@[j] as int]);
                }
            }
        }
        let ghost m = point_models(points@);
        assert(adjacent_distances_fit(m)) by {
            if self.need_to_sort_by_hilbert_curve {
                assert forall|i: int| 0 <= i < m.len() - 1 implies {
                    &&& (#[trigger] m[i]).1.len() == m[i + 1].1.len()
                    &&& square_distance_between(m[i].1, m[i + 1].1) <= u64::MAX
                } by {
                    assert(all_distances_fit(m));
                    let a = m[i];
                    let b = m[i + 1];
                }
            }
        }
        let distances = AdjacentPairDistance::all_pairs(points);
        if distances.len() == 0 {
            return None;
        }
        if self.sort_distances_completely {
            self.find_by_sorting(&distances)
        } else {
            self.find_by_binning(&distances)
        }
    }

    /// The exact method: sort all distances, find the sharpest jump within the window that
    /// the configuration leaves, and count the clusters that its distance forms.
    /// `None` where the window is empty or the chosen distance is zero.
    fn find_by_sorting(&self, distances: &Vec<AdjacentPairDistance>) -> (r: Option<LinkageResult>)
        requires
            self.wf(),
            distances@.len() < u32::MAX,
        ensures
            r == self.sorting_result(square_distances(distances@)),
    {
        let ghost d = square_distances(distances@);
        let mut sorted: Vec<u64> = Vec::new();
        let mut k: usize = 0;
        while k < distances.len()
            invariant
                k <= distances@.len(),
                sorted@ == d.take(k as int),
                d == square_distances(distances@),
            decreases distances@.len() - k,
        {
            sorted.push(distances[k].square_distance);
            k = k + 1;
            assert(sorted@ =~= d.take(k as int));
        }
        assert(d.take(k as int) =~= d);
        sort_ascending(&mut sorted);
        proof {
            lemma_ascending(d, sorted@);
            vstd::seq_lib::to_multiset_len(d);
            vstd::seq_lib::to_multiset_len(sorted@);
        }
        let n = distances.len() + 1;
        let mcc = self.minimum_cluster_count as usize;
        let low = self.lowest_index_for_checking_growth_ratio as usize;
        let noise = self.noise_skip_by as usize;
        if n < mcc || low > n - mcc {
            return None;
        }
        let high = n - mcc;
        let ghost spec_start = 1 + noise + low;
        let start = if noise < high - low { 1 + noise + low } else { high };
        assert(growth_stats_through(sorted@, noise as int, start as int, start as int)
            == growth_stats_through(sorted@, noise as int, spec_start, start as int));
        let mut stats = DistanceGrowthStats::new();
        let mut i: usize = start;
        while i < high
            invariant
                start <= i <= high,
                high < sorted@.len(),
                start == spec_start || (start == high && spec_start > high),
                spec_start == 1 + noise + low,
                stats.wf(),
                stats == growth_stats_through(sorted@, noise as int, spec_start, i as int),
                sorted_by(sorted@, ascending_order()),
            decreases high - i,
        {
            let distance = sorted[i];
            let previous_distance = sorted[i - 1 - noise];
            assert(ascending_order()(sorted@[i - 1 - noise], sorted@[i as int]));
            stats.accumulate(i, previous_distance, distance);
            i = i + 1;
        }
        assert(stats == growth_stats_through(sorted@, noise as int, spec_start, high as int));
        let index_to_use = stats.get_index_of_max_change(low, high);
        let t = sorted[index_to_use];
        if t == 0 {
            None
        } else {
            Some(self.estimate_cluster_counts(distances, t))
        }
    }

    /// Count the clusters and outliers that a single pass over the points in curve order
    /// forms with the given linkage distance.
    ///
    ///   - `hilbert_sorted_distances` - distances between consecutive points in curve order
    ///     (not sorted by distance)
    ///   - `linkage_square_distance` - largest square distance that joins two points
    pub fn estimate_cluster_counts(
        &self,
        hilbert_sorted_distances: &Vec<AdjacentPairDistance>,
        linkage_square_distance: u64,
    ) -> (r: LinkageResult)
        requires
            linkage_square_distance > 0,
            hilbert_sorted_distances@.len() >= 1,
            hilbert_sorted_distances@.len() < u32::MAX,
        ensures
            r == linkage_counts(
                square_distances(hilbert_sorted_distances@),
                linkage_square_distance,
                self.spec_outlier_cluster_size() as nat,
            ),
    {
        let ghost d = square_distances(hilbert_sorted_distances@);
        let t = linkage_square_distance;
        let s = self.outlier_cluster_size as usize;
        let ghost sn = s as nat;
        let n = hilbert_sorted_distances.len();
        let mut too_large: u32 = 0;
        let mut large: u32 = 0;
        let mut outlier_clusters: u32 = 0;
        let mut outliers: u32 = 0;
        let mut start: usize = 0;
        let mut k: usize = 0;
        assert(d.take(0) =~= Seq::<u64>::empty());
        while k < n
            invariant
                n == hilbert_sorted_distances@.len(),
                n < u32::MAX,
                d == square_distances(hilbert_sorted_distances@),
                d.len() == n,
                0 <= start <= k <= n,
                s == self.outlier_cluster_size,
                sn == s as nat,
                run_sizes(d.take(k as int), t).drop_last().len() <= start,
                run_sizes(d.take(k as int), t).last() == k + 1 - start,
                too_large == count_above(d.take(k as int), t),
                large == count_runs_above(run_sizes(d.take(k as int), t).drop_last(), sn),
                outlier_clusters == count_runs_at_most(run_sizes(d.take(k as int), t).drop_last(), sn),
                outliers == points_in_runs_at_most(run_sizes(d.take(k as int), t).drop_last(), sn),
                large + outlier_clusters == run_sizes(d.take(k as int), t).drop_last().len(),
                outliers <= start,
                too_large <= k,
            decreases n - k,
        {
            let ghost prefix = d.take(k as int);
            let ghost sizes = run_sizes(prefix, t);
            let ghost next = d.take(k + 1);
            assert(next.drop_last() =~= prefix);
            assert(next.last() == d[k as int]);
            proof {
                lemma_run_sizes_len(prefix, t);
            }
            let pair_distance = hilbert_sorted_distances[k].square_distance;
            if pair_distance > t {
                let cluster_size = k + 1 - start;
                assert(run_sizes(next, t) == sizes.push(1nat));
                assert(run_sizes(next, t).drop_last() =~= sizes);
                assert(sizes =~= sizes.drop_last().push(sizes.last()));
                if cluster_size <= s {
                    outlier_clusters = outlier_clusters + 1;
                    outliers = outliers + cluster_size as u32;
                } else {
                    large = large + 1;
                }
                too_large = too_large + 1;
                start = k + 1;
            } else {
                assert(run_sizes(next, t) == sizes.update(sizes.len() - 1, sizes.last() + 1));
                assert(run_sizes(next, t).drop_last() =~= sizes.drop_last());
            }
            k = k + 1;
        }
        assert(d.take(n as int) =~= d);
        let ghost sizes = run_sizes(d, t);
        proof {
            lemma_run_sizes_len(d, t);
        }
        assert(sizes =~= sizes.drop_last().push(sizes.last()));
        let cluster_size = n + 1 - start;
        if cluster_size <= s {
            outlier_clusters = outlier_clusters + 1;
            outliers = outliers + cluster_size as u32;
        } else {
            large = large + 1;
        }
        LinkageResult {
            linkage_square_distance: t,
            count_of_too_large_distances: too_large,
            large_cluster_count: large,
            outlier_cluster_count: outlier_clusters,
            outlier_count: outliers,
        }
    }
}

/// The position chosen by the growth stats lies between zero and the top of the window.
proof fn lemma_index_of_max_change_bounds(s: DistanceGrowthStats, i_low: int, i_high: int)
    requires
        0 <= i_low <= i_high,
    ensures
        0 <= index_of_max_change_spec(s, i_low, i_high) <= i_high,
{
}

/// With the exact method, a linkage distance that is found is positive and is one of the
/// distances between consecutive points, hence no larger than the largest of them.
pub proof fn lemma_sorting_result_is_a_present_distance(cfg: SingleLinkage, d: Seq<u64>)
    requires
        cfg.wf(),
        cfg.sorting_result(d) is Some,
    ensures
        cfg.sorting_result(d).unwrap().linkage_square_distance > 0,
        d.contains(cfg.sorting_result(d).unwrap().linkage_square_distance),
        cfg.sorting_result(d).unwrap().linkage_square_distance <= seq_max(d),
{
    let n = d.len() + 1int;
    let mcc = cfg.spec_minimum_cluster_count() as int;
    let low = cfg.spec_lowest_index_for_checking_growth_ratio() as int;
    let noise = cfg.spec_noise_skip_by() as int;
    let high = n - mcc;
    let sorted = ascending(d);
    let stats = growth_stats_through(sorted, noise, 1 + noise + low, high);
    lemma_index_of_max_change_bounds(stats, low, high);
    let idx = index_of_max_change_spec(stats, low, high);
    assert(vstd::relations::total_ordering(ascending_order()));
    d.lemma_sort_by_ensures(ascending_order());
    vstd::seq_lib::to_multiset_len(d);
    vstd::seq_lib::to_multiset_len(sorted);
    sorted.to_multiset_ensures();
    d.to_multiset_ensures();
    let t = sorted[idx];
    assert(sorted.contains(t));
    assert(sorted.to_multiset().count(t) > 0);
    assert(d.contains(t));
    lemma_seq_extremes(d);
}

/// Every value held by the bins occurs in `d`.
pub open spec fn values_from(bins: Seq<(u64, u64, Seq<u64>)>, d: Seq<u64>) -> bool {
    forall|i: int, j: int|
        0 <= i < bins.len() && 0 <= j < bins[i].2.len() ==> d.contains(#[trigger] bins[i].2[j])
}

proof fn lemma_filter_subset(d: Seq<u64>, p: spec_fn(u64) -> bool, x: u64)
    requires
        d.filter(p).contains(x),
    ensures
        d.contains(x),
    decreases d.len(),
{
    reveal(Seq::filter);
    if d.len() > 0 {
        let q = d.drop_last();
        if x == d.last() {
            assert(d[d.len() - 1] == x);
        } else {
            let f = d.filter(p);
            let j = choose|j: int| 0 <= j < f.len() && f[j] == x;
            if p(d.last()) {
                assert(f == q.filter(p).push(d.last()));
                assert(q.filter(p)[j] == x);
            }
            assert(q.filter(p).contains(x));
            lemma_filter_subset(q, p, x);
            let k = choose|k: int| 0 <= k < q.len() && q[k] == x;
            assert(d[k] == x);
        }
    }
}

proof fn lemma_filled_values_from(bounds: Seq<(int, int)>, d: Seq<u64>)
    ensures
        values_from(filled_bins(bounds, d), d),
{
    let f = filled_bins(bounds, d);
    assert forall|i: int, j: int| 0 <= i < f.len() && 0 <= j < f[i].2.len() implies d.contains(#[trigger] f[i].2[j]) by {
        let p = |v: u64| bounds[i].0 <= v < bounds[i].1;
        assert(f[i].2 == d.filter(p));
        lemma_filter_subset(d, p, f[i].2[j]);
    }
}

proof fn lemma_consolidation_values_from(bins: Seq<(u64, u64, Seq<u64>)>, minimum_size: nat, d: Seq<u64>)
    requires
        values_from(bins, d),
    ensures
        values_from(consolidation_state(bins, minimum_size).0, d),
        consolidation_state(bins, minimum_size).1 matches Some(h) ==> forall|j: int|
            0 <= j < h.2.len() ==> d.contains(#[trigger] h.2[j]),
    decreases bins.len(),
{
    if bins.len() > 0 {
        let p = bins.drop_last();
        assert(values_from(p, d)) by {
            assert forall|i: int, j: int| 0 <= i < p.len() && 0 <= j < p[i].2.len() implies d.contains(#[trigger] p[i].2[j]) by {
                assert(p[i] == bins[i]);
            }
        }
        lemma_consolidation_values_from(p, minimum_size, d);
        let (kept, held) = consolidation_state(p, minimum_size);
        let last = bins.last();
        assert(forall|j: int| 0 <= j < last.2.len() ==> d.contains(#[trigger] last.2[j])) by {
            assert forall|j: int| 0 <= j < last.2.len() implies d.contains(#[trigger] last.2[j]) by {
                assert(bins[bins.len() - 1] == last);
                assert(d.contains(bins[bins.len() - 1].2[j]));
            }
        }
        let b = match held {
            Some(h) => merged_model(h, last),
            None => last,
        };
        assert forall|j: int| 0 <= j < b.2.len() implies d.contains(#[trigger] b.2[j]) by {
            if let Some(h) = held {
                if j < h.2.len() {
                    assert(b.2[j] == h.2[j]);
                } else {
                    assert(b.2[j] == last.2[j - h.2.len()]);
                }
            }
        }
        if b.2.len() >= minimum_size {
            let k2 = kept.push(b);
            assert forall|i: int, j: int| 0 <= i < k2.len() && 0 <= j < k2[i].2.len() implies d.contains(#[trigger] k2[i].2[j]) by {
                if i < kept.len() {
                    assert(k2[i] == kept[i]);
                }
            }
        }
    }
}

proof fn lemma_consolidated_values_from(bins: Seq<(u64, u64, Seq<u64>)>, minimum_size: nat, d: Seq<u64>)
    requires
        values_from(bins, d),
    ensures
        values_from(consolidated(bins, minimum_size), d),
{
    lemma_consolidation_values_from(bins, minimum_size, d);
    let (kept, held) = consolidation_state(bins, minimum_size);
    if let Some(h) = held {
        let k2 = kept.push(h);
        assert forall|i: int, j: int| 0 <= i < k2.len() && 0 <= j < k2[i].2.len() implies d.contains(#[trigger] k2[i].2[j]) by {
            if i < kept.len() {
                assert(k2[i] == kept[i]);
            }
        }
    }
}

/// The value before the largest gap is the anchor or one of the scanned values.
proof fn lemma_jump_scan_values(s: Seq<u64>, anchor: u64, first_gap: int)
    ensures
        jump_scan(s, anchor, first_gap).0 == anchor || s.contains(jump_scan(s, anchor, first_gap).0),
        jump_scan(s, anchor, first_gap).2 == anchor || s.contains(jump_scan(s, anchor, first_gap).2),
    decreases s.len(),
{
    if s.len() > 0 {
        let p = s.drop_last();
        lemma_jump_scan_values(p, anchor, first_gap);
        assert(s[s.len() - 1] == s.last());
        if p.contains(jump_scan(p, anchor, first_gap).0) {
            let j = choose|j: int| 0 <= j < p.len() && p[j] == jump_scan(p, anchor, first_gap).0;
            assert(s[j] == p[j]);
        }
        if p.contains(jump_scan(p, anchor, first_gap).2) {
            let j = choose|j: int| 0 <= j < p.len() && p[j] == jump_scan(p, anchor, first_gap).2;
            assert(s[j] == p[j]);
        }
    }
}

/// With the approximate method, a linkage distance that is found is positive and is one of
/// the distances between consecutive points, hence no larger than the largest of them.
pub proof fn lemma_binning_result_is_a_present_distance(cfg: SingleLinkage, d: Seq<u64>)
    requires
        cfg.binning_result(d) is Some,
    ensures
        cfg.binning_result(d).unwrap().linkage_square_distance > 0,
        d.contains(cfg.binning_result(d).unwrap().linkage_square_distance),
        cfg.binning_result(d).unwrap().linkage_square_distance <= seq_max(d),
{
    let n = d.len() + 1int;
    let tippy = vstd::arithmetic::power2::pow2(2 * cfg.spec_bits_per_dimension() as nat) as int;
    let bounds = geometric_bounds(20, tippy, 20, 1050);
    let noise = cfg.spec_noise_skip_by();
    let minimum_size: nat = if noise < 5 { 5 } else { noise as nat };
    let bins = consolidated(filled_bins(bounds, d), minimum_size);
    let low = cfg.spec_lowest_index_for_checking_growth_ratio() as int;
    let w = bin_walk(bins, low, n, bins.len() as int);
    let i = chosen_bin(w, n);
    lemma_filled_values_from(bounds, d);
    lemma_consolidated_values_from(filled_bins(bounds, d), minimum_size, d);
    let b = bins[i];
    let anchor = model_anchor(bins, i);
    let t = model_value_before_jump(b, anchor);
    lemma_seq_extremes(b.2);
    let jmin = choose|j: int| 0 <= j < b.2.len() && b.2[j] == seq_min(b.2);
    assert(d.contains(b.2[jmin]));
    assert(d.contains(anchor)) by {
        if !(i == 0 || bins[i - 1].2.len() == 0) {
            let q = bins[i - 1].2;
            lemma_seq_extremes(q);
            let jmax = choose|j: int| 0 <= j < q.len() && q[j] == seq_max(q);
            assert(d.contains(bins[i - 1].2[jmax]));
        }
    }
    if b.2.len() > 2 {
        let s = ascending(b.2);
        lemma_jump_scan_values(s, anchor, s[0] - anchor);
        if s.contains(t) {
            assert(vstd::relations::total_ordering(ascending_order()));
            b.2.lemma_sort_by_ensures(ascending_order());
            s.to_multiset_ensures();
            b.2.to_multiset_ensures();
            assert(b.2.to_multiset().count(t) > 0);
            let j = choose|j: int| 0 <= j < b.2.len() && b.2[j] == t;
            assert(d.contains(b.2[j]));
        }
    }
    assert(d.contains(t));
    lemma_seq_extremes(d);
}

/// A linkage distance that `find` returns, by either method, is positive and is one of the
/// distances between consecutive points, hence no larger than the largest of them.
pub proof fn lemma_found_distance_is_present(cfg: SingleLinkage, d: Seq<u64>)
    requires
        cfg.wf(),
        cfg.linkage_for(d) is Some,
    ensures
        cfg.linkage_for(d).unwrap().linkage_square_distance > 0,
        d.contains(cfg.linkage_for(d).unwrap().linkage_square_distance),
        cfg.linkage_for(d).unwrap().linkage_square_distance <= seq_max(d),
{
    if cfg.spec_sort_distances_completely() {
        lemma_sorting_result_is_a_present_distance(cfg, d);
    } else {
        lemma_binning_result_is_a_present_distance(cfg, d);
    }
}

} // verus!

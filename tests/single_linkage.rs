use std::cmp::Ordering;

use clusterphobia::clustering::single_linkage::{
    AdjacentPairDistance, DistanceBin, DistanceGrowthStats, LinkageResult, Point, SingleLinkage,
};
use clusterphobia::test_data::clustered_2d::Clustered2D;

fn line_points(xs: &[u32]) -> Vec<Point> {
    xs.iter()
        .enumerate()
        .map(|(i, x)| Point { id: i, coordinates: vec![*x, 0] })
        .collect()
}

#[test]
fn adjacent_pair_distance_cmp() {
    let pair1 = AdjacentPairDistance {
        square_distance: 100,
        first_index: 1,
        second_index: 2,
        first_id: 1,
        second_id: 2,
    };
    let pair2 = AdjacentPairDistance {
        square_distance: 50,
        first_index: 2,
        second_index: 3,
        first_id: 2,
        second_id: 3,
    };
    let comparison = pair1.cmp(&pair2);
    assert!(comparison == Ordering::Greater, "Should compare greater than");
}

#[test]
fn all_pairs_measures_consecutive_points() {
    let points = vec![
        Point { id: 7, coordinates: vec![0, 0] },
        Point { id: 8, coordinates: vec![3, 4] },
        Point { id: 9, coordinates: vec![3, 1] },
    ];
    let pairs = AdjacentPairDistance::all_pairs(&points);
    assert_eq!(pairs.len(), 2);
    assert_eq!(pairs[0].square_distance, 25);
    assert_eq!(pairs[1].square_distance, 9);
    assert_eq!((pairs[1].first_index, pairs[1].second_index), (1, 2));
    assert_eq!((pairs[1].first_id, pairs[1].second_id), (8, 9));
    assert!(AdjacentPairDistance::all_pairs(&line_points(&[5])).is_empty());
    assert!(AdjacentPairDistance::all_pairs(&Vec::new()).is_empty());
}

#[test]
fn estimate_cluster_counts_splits_runs() {
    let points = line_points(&[0, 1, 2, 3, 100, 101, 200]);
    let pairs = AdjacentPairDistance::all_pairs(&points);
    let linkage = SingleLinkage::new(7, 8);
    let result = linkage.estimate_cluster_counts(&pairs, 10);
    assert_eq!(
        result,
        LinkageResult {
            linkage_square_distance: 10,
            count_of_too_large_distances: 2,
            large_cluster_count: 0,
            outlier_cluster_count: 3,
            outlier_count: 7,
        }
    );
}

#[test]
fn estimate_cluster_counts_large_runs() {
    let mut xs: Vec<u32> = (0..12).collect();
    xs.extend(1000..1003);
    let pairs = AdjacentPairDistance::all_pairs(&line_points(&xs));
    let result = SingleLinkage::new(15, 12).estimate_cluster_counts(&pairs, 1);
    assert_eq!(result.large_cluster_count, 1);
    assert_eq!(result.outlier_cluster_count, 1);
    assert_eq!(result.outlier_count, 3);
    assert_eq!(result.count_of_too_large_distances, 1);
}

#[test]
fn threshold_above_every_distance_gives_one_cluster() {
    let points = line_points(&[0, 4, 9, 30, 31, 70]);
    let pairs = AdjacentPairDistance::all_pairs(&points);
    let max = pairs.iter().map(|p| p.square_distance).max().unwrap();
    let result = SingleLinkage::new(6, 8).estimate_cluster_counts(&pairs, max + 1);
    assert_eq!(result.large_cluster_count + result.outlier_cluster_count, 1);
    assert_eq!(result.count_of_too_large_distances, 0);
    assert_eq!(result.outlier_count, 6);
}

#[test]
fn linkage_result_new_is_zero() {
    let r = LinkageResult::new();
    assert_eq!(r.linkage_square_distance, 0);
    assert_eq!(r.large_cluster_count + r.outlier_cluster_count + r.outlier_count, 0);
}

/// One hundred points on a line: 51 two apart, a gap, then 49 more two apart.
fn two_runs() -> Vec<Point> {
    let mut xs: Vec<u32> = (0..51).map(|i| i * 2).collect();
    xs.extend((0..49).map(|i| 10_000 + i * 2));
    line_points(&xs)
}

#[test]
fn find_by_sorting_picks_the_within_run_distance() {
    let mut points = two_runs();
    let finder = SingleLinkage::new(100, 16).with_sort_distances_completely();
    let result = finder.find(&mut points).expect("a window to search");
    assert_eq!(result.linkage_square_distance, 4);
    assert_eq!(result.large_cluster_count, 2);
    assert_eq!(result.outlier_cluster_count, 0);
    assert_eq!(result.count_of_too_large_distances, 1);
    let max = AdjacentPairDistance::all_pairs(&points).iter().map(|p| p.square_distance).max().unwrap();
    assert!(result.linkage_square_distance > 0 && result.linkage_square_distance <= max);
}

#[test]
fn find_needs_enough_points() {
    let mut points = line_points(&[0, 1, 2]);
    assert_eq!(SingleLinkage::new(3, 8).find(&mut points), None);
    let mut one = line_points(&[0]);
    assert_eq!(SingleLinkage::new(1, 8).find(&mut one), None);
}

#[test]
fn find_with_hilbert_sort_orders_a_grid() {
    let mut points = Vec::new();
    for y in 0..4u32 {
        for x in 0..4u32 {
            points.push(Point { id: (y * 4 + x) as usize, coordinates: vec![x, y] });
        }
    }
    let finder = SingleLinkage::new(16, 2).with_need_to_sort_by_hilbert_curve();
    let _ = finder.find(&mut points);
    assert_eq!(points.len(), 16);
    let pairs = AdjacentPairDistance::all_pairs(&points);
    assert!(pairs.iter().all(|p| p.square_distance == 1));
    let mut ids: Vec<usize> = points.iter().map(|p| p.id).collect();
    ids.sort();
    assert_eq!(ids, (0..16).collect::<Vec<usize>>());
}

#[test]
fn builders_set_fields() {
    let mut points = two_runs();
    let finder = SingleLinkage::new(100, 16)
        .with_noise_skip_by(0)
        .with_minimum_cluster_count(2)
        .with_lowest_index_for_checking_growth_ratio(0)
        .without_need_to_sort_by_hilbert_curve()
        .with_sort_distances_completely();
    // minimum cluster count 2 is raised to 6; the window then reaches the gap.
    let result = finder.find(&mut points);
    assert!(result.is_some());
}

#[test]
fn find_by_binning_gives_a_result() {
    let mut points = two_runs();
    let finder = SingleLinkage::new(100, 16).without_sort_distances_completely();
    let result = finder.find(&mut points);
    if let Some(r) = result {
        assert!(r.linkage_square_distance > 0);
    }
}

#[test]
fn growth_stats_track_jumps() {
    let mut stats = DistanceGrowthStats::new();
    stats.accumulate(3, 10, 12);
    stats.accumulate(4, 12, 40);
    stats.accumulate(5, 40, 41);
    assert_eq!(stats.index_of_maximum_increase, 4);
    assert_eq!(stats.index_of_maximum_ratio, 4);
    assert_eq!(stats.index_of_maximum_increase_and_ratio, 4);
    assert_eq!(stats.max_increase_alone, 28);
    stats.accumulate(6, 0, 5);
    assert_eq!(stats.index_of_maximum_increase, 4);
    assert_eq!(stats.get_index_of_max_change(0, 8), 4);
    assert_eq!(stats.get_index_of_max_change(0, 3), 3);
    assert_eq!(stats.get_index_of_max_change(5, 8), 5);
}

#[test]
fn make_bins_grow_geometrically() {
    let bins = DistanceBin::make_bins(20, 100, 5, 1500);
    let bounds: Vec<(u64, u64)> = bins.iter().map(|b| (b.bounds.start, b.bounds.end)).collect();
    assert_eq!(bounds, vec![(0, 20), (20, 30), (30, 45), (45, 68), (68, 102)]);
    let narrow = DistanceBin::make_bins(20, 60, 20, 1001);
    let bounds: Vec<(u64, u64)> = narrow.iter().map(|b| (b.bounds.start, b.bounds.end)).collect();
    assert_eq!(bounds, vec![(0, 20), (20, 40), (40, 60), (60, 61)]);
}

#[test]
fn find_bin_and_add() {
    let mut bins = DistanceBin::make_bins(20, 100, 5, 1500);
    assert_eq!(DistanceBin::find_bin(0, &bins), 0);
    assert_eq!(DistanceBin::find_bin(20, &bins), 1);
    assert_eq!(DistanceBin::find_bin(44, &bins), 2);
    assert_eq!(DistanceBin::find_bin(45, &bins), 3);
    assert_eq!(DistanceBin::find_bin(1000, &bins), 4);
    assert!(bins[2].add(31));
    assert!(!bins[2].add(45));
    assert!(bins[2].add(44));
    assert_eq!(bins[2].len(), 2);
    assert_eq!((bins[2].lowest_value_added, bins[2].highest_value_added), (31, 44));
    assert!(bins[2].is_in_bounds(30));
    assert!(!bins[2].is_in_bounds(45));
}

#[test]
fn consolidate_merges_sparse_bins() {
    let mut bins = vec![DistanceBin::new(0, 10), DistanceBin::new(10, 20), DistanceBin::new(20, 30), DistanceBin::new(30, 40)];
    bins[0].add(1);
    bins[1].add(11);
    bins[1].add(12);
    bins[2].add(25);
    bins[2].add(26);
    bins[2].add(27);
    let merged = DistanceBin::consolidate(bins, 3);
    let shape: Vec<(u64, u64, usize)> = merged.iter().map(|b| (b.bounds.start, b.bounds.end, b.len())).collect();
    assert_eq!(shape, vec![(0, 20, 3), (20, 30, 3), (30, 40, 0)]);
    assert_eq!((merged[0].lowest_value_added, merged[0].highest_value_added), (1, 12));
}

#[test]
fn bin_merge_and_spread() {
    let mut low = DistanceBin::new(0, 10);
    let mut high = DistanceBin::new(10, 30);
    assert_eq!(low.average_spread(), 10);
    low.add(2);
    high.add(12);
    high.add(20);
    let merged = low.merge(&high);
    assert_eq!((merged.bounds.start, merged.bounds.end), (0, 30));
    assert_eq!(merged.values_added, vec![2, 12, 20]);
    assert_eq!(merged.average_spread(), 9);
}

#[test]
fn value_before_largest_jump() {
    let mut bin = DistanceBin::new(100, 200);
    for v in [150u64, 110, 112, 111, 190, 155] {
        bin.add(v);
    }
    assert_eq!(bin.find_square_distance_before_jump(100), 112);
    assert_eq!(bin.values_added, vec![110, 111, 112, 150, 155, 190]);
    let mut small = DistanceBin::new(0, 10);
    small.add(7);
    small.add(3);
    assert_eq!(small.find_square_distance_before_jump(0), 3);
    let mut empty = DistanceBin::new(40, 50);
    assert_eq!(empty.find_square_distance_before_jump(30), 40);
    let mut sorted = DistanceBin::new(0, 10);
    sorted.add(9);
    sorted.add(1);
    sorted.sort();
    assert_eq!(sorted.values_added, vec![1, 9]);
}

#[test]
fn clustered_2d_to_point() {
    let p = Clustered2D { id: 4, x: 10, y: 20, category: 3 }.to_point();
    assert_eq!(p.id, 4);
    assert_eq!(p.coordinates, vec![10, 20]);
}

/// Ten well-separated runs of one hundred points on a line, with varied gaps inside each run
/// and varied gaps between runs.
fn separated_runs() -> Vec<Point> {
    let mut xs: Vec<u32> = Vec::new();
    for k in 0..10u32 {
        let mut x = k * 1_000_000 + k * k * 5_000;
        for i in 0..100u32 {
            xs.push(x);
            x += 1 + (i * 37) % 200;
        }
    }
    line_points(&xs)
}

#[test]
fn exact_and_approximate_methods_agree_on_separated_runs() {
    let mut points = separated_runs();
    let exact = SingleLinkage::new(1000, 24).with_sort_distances_completely().find(&mut points);
    let approximate = SingleLinkage::new(1000, 24).without_sort_distances_completely().find(&mut points);
    let exact = exact.expect("exact result").linkage_square_distance as f64;
    let approximate = approximate.expect("approximate result").linkage_square_distance as f64;
    assert!(
        (exact - approximate).abs() <= 0.1 * exact,
        "exact {} and approximate {} should be close",
        exact,
        approximate
    );
}

#[test]
fn approximate_method_never_exceeds_the_distances() {
    let mut points = line_points(&[0, 1, 2, 3, 4, 5]);
    let result = SingleLinkage::new(6, 1).without_sort_distances_completely().find(&mut points);
    if let Some(r) = result {
        assert!(r.linkage_square_distance > 0 && r.linkage_square_distance <= 1);
    }
    let mut points = two_runs();
    if let Some(r) = SingleLinkage::new(100, 16).without_sort_distances_completely().find(&mut points) {
        let present = AdjacentPairDistance::all_pairs(&points)
            .iter()
            .any(|p| p.square_distance == r.linkage_square_distance);
        assert!(present);
    }
}

#[test]
fn value_before_jump_without_previous_values() {
    let mut bin = DistanceBin::new(0, 100);
    for v in [10u64, 11, 12, 50] {
        bin.add(v);
    }
    assert_eq!(bin.find_square_distance_before_jump(10), 12);
    assert_eq!(bin.values_added, vec![10, 11, 12, 50]);
}

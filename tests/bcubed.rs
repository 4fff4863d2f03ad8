use clusterphobia::clustering::bcubed::{compute_precision_tallies, compute_recall_tallies, tally_squares};
use clusterphobia::clustering::from_delimited_string;

#[test]
fn tally_of_three_and_two() {
    assert_eq!(tally_squares(&vec![7, 7, 7, 4, 4]), 13);
    assert_eq!(tally_squares(&vec![4, 7, 4, 7, 7]), 13);
}

#[test]
fn tally_edge_cases() {
    assert_eq!(tally_squares(&vec![]), 0);
    assert_eq!(tally_squares(&vec![1]), 1);
    assert_eq!(tally_squares(&vec![1, 2, 3]), 3);
    assert_eq!(tally_squares(&vec![5; 10]), 100);
}

fn sorted_pairs(t: &Vec<clusterphobia::clustering::bcubed::ClusterTally>) -> Vec<(usize, u128, usize)> {
    let mut v: Vec<(usize, u128, usize)> = t.iter().map(|x| (x.category, x.sum_of_squares, x.size)).collect();
    v.sort();
    v
}

#[test]
fn precision_tallies_against_gold() {
    let solution = from_delimited_string("1,2,3,4;5,6,7;8,9,10,11,12,13,14").unwrap();
    let gold = from_delimited_string("1,2,3,4,5;6,7,9,12,13,14;8;10;11").unwrap();
    let tallies = compute_precision_tallies(&solution, &gold).unwrap();
    // cluster 0: all gold 0 -> 16; cluster 1: gold [0,1,1] -> 1 + 4 = 5;
    // cluster 2: gold [2,1,3,4,1,1,1] -> 1 + 16 + 1 + 1 = 19
    assert_eq!(sorted_pairs(&tallies), vec![(0, 16, 4), (1, 5, 3), (2, 19, 7)]);
}

#[test]
fn recall_is_precision_swapped() {
    let solution = from_delimited_string("1,2;3").unwrap();
    let gold = from_delimited_string("1;2,3").unwrap();
    let recall = compute_recall_tallies(&solution, &gold).unwrap();
    let precision_swapped = compute_precision_tallies(&gold, &solution).unwrap();
    assert_eq!(sorted_pairs(&recall), sorted_pairs(&precision_swapped));
    assert_eq!(sorted_pairs(&recall), vec![(0, 1, 1), (1, 2, 2)]);
}

#[test]
fn self_comparison_counts_squares() {
    let x = from_delimited_string("1,2,3;4,5;6").unwrap();
    let tallies = compute_precision_tallies(&x, &x).unwrap();
    for t in tallies.iter() {
        assert_eq!(t.sum_of_squares, (t.size * t.size) as u128);
    }
    assert_eq!(tallies.len(), 3);
}

#[test]
fn missing_item_is_reported() {
    let solution = from_delimited_string("1,2;3").unwrap();
    let gold = from_delimited_string("1,2").unwrap();
    assert_eq!(compute_precision_tallies(&solution, &gold).err(), Some(3));
    assert_eq!(compute_recall_tallies(&gold, &solution).err(), Some(3));
}

use clusterphobia::clustering::cluster::Cluster;
use clusterphobia::clustering;
use clusterphobia::clustering::{integer_clustering, Clustering, ClusteringError, DelimitedStringError};

fn sample() -> Clustering {
    clustering::from_delimited_string("1,2,3;4,5,6;7,8,9;10").expect("well formed")
}

#[test]
fn from_delimited_string() {
    let clustering = sample();
    assert_eq!(clustering.cluster_count(), 4);
    assert_eq!(clustering.member_count(), 10);
    assert_eq!(clustering.get_category(4), Some(1));
}

#[test]
fn from_delimited_string_groups_share_a_category() {
    let clustering = sample();
    assert_eq!(clustering.get_category(4), clustering.get_category(5));
    assert_eq!(clustering.get_category(5), clustering.get_category(6));
    assert_eq!(clustering.get_category(1), Some(0));
    assert_eq!(clustering.get_category(10), Some(3));
}

#[test]
fn from_delimited_string_rejects_bad_members() {
    assert_eq!(clustering::from_delimited_string("1,,2").err(), Some(DelimitedStringError::BadMember));
    assert_eq!(clustering::from_delimited_string("1,2;").err(), Some(DelimitedStringError::BadMember));
    assert_eq!(clustering::from_delimited_string("").err(), Some(DelimitedStringError::BadMember));
    assert_eq!(clustering::from_delimited_string("1,x").err(), Some(DelimitedStringError::BadMember));
    assert_eq!(clustering::from_delimited_string("1, 2").err(), Some(DelimitedStringError::BadMember));
    assert_eq!(
        clustering::from_delimited_string("99999999999999999999999").err(),
        Some(DelimitedStringError::BadMember)
    );
}

#[test]
fn from_delimited_string_rejects_repeated_members() {
    assert_eq!(
        clustering::from_delimited_string("1,2;3,2").err(),
        Some(DelimitedStringError::RepeatedMember(2))
    );
    assert_eq!(
        clustering::from_delimited_string("5;5").err(),
        Some(DelimitedStringError::RepeatedMember(5))
    );
}

#[test]
fn from_delimited_string_single_member() {
    let clustering = clustering::from_delimited_string("42").expect("well formed");
    assert_eq!(clustering.cluster_count(), 1);
    assert_eq!(clustering.get_category(42), Some(0));
}

#[test]
fn are_together() {
    let clustering = sample();
    assert!(clustering.are_together(7, 9), "Should be together");
    assert!(!clustering.are_together(2, 4), "Should be apart");
    assert!(!clustering.are_together(2, 11));
}

#[test]
fn get_category() {
    let clustering = sample();
    assert_eq!(clustering.get_category(8), Some(2));
    assert_eq!(clustering.get_category(11), None);
}

#[test]
fn contains_item() {
    let clustering = sample();
    assert!(clustering.contains_item(8), "Should contain item");
    assert!(!clustering.contains_item(11), "Should not contain item");
    assert!(clustering.contains_category(3));
    assert!(!clustering.contains_category(4));
}

#[test]
fn add_to_new_cluster() {
    let mut clustering = sample();
    clustering.add_to_new_cluster(100).expect("Unable to add to new cluster");
    assert!(clustering.contains_item(100), "Should contain item");
    assert_eq!(clustering.get_category(100), Some(4));
    assert_eq!(clustering.add_to_new_cluster(5), Err(ClusteringError::AlreadyClustered(1)));
}

#[test]
fn add_to_new_cluster_exhausts_categories() {
    let mut clustering = Clustering::empty(7..8);
    assert_eq!(clustering.add_to_new_cluster(1), Ok(7));
    assert_eq!(clustering.add_to_new_cluster(2), Err(ClusteringError::CategoryExhausted));
    assert!(!clustering.contains_item(2));
}

#[test]
fn add_to_cluster() {
    let mut clustering = sample();
    clustering.add_to_cluster(100, 1).expect("Unable to add to existing cluster");
    assert!(clustering.contains_item(100), "Should contain item");
    assert_eq!(clustering.get_category(100), Some(1));
    assert_eq!(clustering.add_to_cluster(100, 2), Err(ClusteringError::AlreadyClustered(1)));
    assert_eq!(clustering.add_to_cluster(200, 9), Err(ClusteringError::UnknownCategory(9)));
}

#[test]
fn merge() {
    let mut clustering = sample();
    assert!(clustering.merge(1, 10), "Should merge");
    assert!(clustering.are_together(2, 10), "Should be together");
    assert_eq!(clustering.cluster_count(), 3);
}

#[test]
fn merge_twice_changes_nothing() {
    let mut clustering = sample();
    assert!(clustering.merge(3, 8));
    assert!(clustering.are_together(3, 8));
    assert!(clustering.are_together(1, 9));
    assert!(!clustering.merge(3, 8));
    assert_eq!(clustering.cluster_count(), 3);
    assert_eq!(clustering.member_count(), 10);
}

#[test]
fn merge_with_unclustered_items() {
    let mut clustering = sample();
    assert!(clustering.merge(4, 50));
    assert_eq!(clustering.get_category(50), Some(1));
    assert!(clustering.merge(60, 7));
    assert_eq!(clustering.get_category(60), Some(2));
    assert!(clustering.merge(70, 71));
    assert_eq!(clustering.get_category(70), Some(4));
    assert_eq!(clustering.get_category(71), Some(4));
    assert_eq!(clustering.cluster_count(), 5);
}

#[test]
fn move_item() {
    let mut clustering = sample();
    assert!(clustering.move_item(6, 0));
    assert_eq!(clustering.get_category(6), Some(0), "Membership changed");
    assert_eq!(clustering.get_category(5), Some(1), "Membership unchanged");
    assert!(!clustering.move_item(6, 0));
    assert!(!clustering.move_item(6, 17));
    assert!(clustering.move_item(10, 0));
    assert_eq!(clustering.cluster_count(), 3);
    assert!(clustering.move_item(99, 2));
    assert_eq!(clustering.get_category(99), Some(2));
}

#[test]
fn remove_item() {
    let mut clustering = sample();
    assert!(clustering.remove_item(10));
    assert!(!clustering.contains_item(10));
    assert_eq!(clustering.cluster_count(), 3);
    assert!(!clustering.remove_item(10));
    assert!(clustering.remove_item(1));
    assert_eq!(clustering.cluster_count(), 3);
    assert_eq!(clustering.member_count(), 8);
}

#[test]
fn uncategorized_gives_singletons() {
    let clustering = Clustering::uncategorized(&vec![10, 20, 30], 5..100);
    assert_eq!(clustering.cluster_count(), 3);
    assert_eq!(clustering.get_category(10), Some(5));
    assert_eq!(clustering.get_category(30), Some(7));
}

#[test]
fn integer_clustering_is_empty() {
    let mut clustering = integer_clustering();
    assert_eq!(clustering.cluster_count(), 0);
    assert_eq!(clustering.member_count(), 0);
    assert_eq!(clustering.add_to_new_cluster(3), Ok(0));
}

#[test]
fn get_cluster_and_clusters() {
    let clustering = sample();
    let cluster = clustering.get_cluster(2).expect("present");
    assert_eq!(cluster.get_category(), 2);
    assert_eq!(cluster.len(), 3);
    assert!(cluster.is_member(&8));
    assert!(clustering.get_cluster(8).is_none());
    assert_eq!(clustering.get_clusters().len(), 4);
}

#[test]
fn cluster_members() {
    let mut cluster = Cluster::with_member(3, 1);
    assert_eq!(cluster.get_category(), 3);
    assert!(cluster.add_member(2));
    assert!(!cluster.add_member(2));
    assert_eq!(cluster.len(), 2);
    assert!(cluster.remove_member(&1));
    assert!(!cluster.remove_member(&1));
    assert_eq!(cluster.get_members(), &vec![2]);
    let mut other = Cluster::with_member(4, 9);
    other.add_member(2);
    cluster.merge(&mut other);
    assert!(other.is_empty());
    assert_eq!(cluster.len(), 2);
    assert!(cluster.is_member(&9));
    assert!(Cluster::empty(1).is_empty());
}

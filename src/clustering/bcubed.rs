//! The integer tallies behind the B-Cubed precision and recall of one clustering measured
//! against another.
//!
//! For each cluster of a solution, B-Cubed precision needs the number of ordered pairs of
//! its members that share a category in the gold standard, and the size of the cluster:
//! precision is the sum over clusters of pairs / size, divided by the number of items.
//! Recall is precision with the two clusterings swapped.
use std::collections::HashMap;
use vstd::prelude::*;
use vstd::std_specs::iter::IteratorSpec;

use super::{members_of, Clustering};

verus! {

broadcast use vstd::std_specs::hash::group_hash_axioms;

/// How often `x` occurs in `s`.
pub open spec fn occurrences(s: Seq<usize>, x: usize) -> nat
    decreases s.len(),
{
    if s.len() == 0 {
        0
    } else {
        occurrences(s.drop_last(), x) + if s.last() == x { 1nat } else { 0nat }
    }
}

/// For each element of `t`, how often it occurs in `s`, summed.
pub open spec fn matches_over(s: Seq<usize>, t: Seq<usize>) -> nat
    decreases t.len(),
{
    if t.len() == 0 {
        0
    } else {
        matches_over(s, t.drop_last()) + occurrences(s, t.last())
    }
}

/// The number of ordered pairs `(j, l)` of positions of `s` with `s[j] == s[l]`, counted
/// pair by pair: equivalently, the sum of the squares of the multiplicities.
pub open spec fn same_category_pairs(s: Seq<usize>) -> nat {
    matches_over(s, s)
}

proof fn lemma_occurrences_bound(s: Seq<usize>, x: usize)
    ensures
        occurrences(s, x) <= s.len(),
    decreases s.len(),
{
    if s.len() > 0 {
        lemma_occurrences_bound(s.drop_last(), x);
    }
}

proof fn lemma_matches_over_push_left(s: Seq<usize>, x: usize, t: Seq<usize>)
    ensures
        matches_over(s.push(x), t) == matches_over(s, t) + occurrences(t, x),
    decreases t.len(),
{
    if t.len() > 0 {
        lemma_matches_over_push_left(s, x, t.drop_last());
        assert(s.push(x).drop_last() =~= s);
    }
}

proof fn lemma_matches_over_bound(s: Seq<usize>, t: Seq<usize>)
    ensures
        matches_over(s, t) <= s.len() * t.len(),
    decreases t.len(),
{
    if t.len() > 0 {
        lemma_matches_over_bound(s, t.drop_last());
        lemma_occurrences_bound(s, t.last());
        assert(s.len() * (t.len() - 1) + s.len() == s.len() * t.len()) by (nonlinear_arith);
    }
}

/// Adding a value whose `k` earlier occurrences are already counted adds `2k + 1` pairs.
pub proof fn lemma_pairs_push(s: Seq<usize>, x: usize)
    ensures
        same_category_pairs(s.push(x)) == same_category_pairs(s) + 2 * occurrences(s, x) + 1,
{
    let p = s.push(x);
    assert(p.drop_last() =~= s);
    lemma_matches_over_push_left(s, x, s);
    assert(matches_over(p, p) == matches_over(p, s) + occurrences(p, x));
}

/// Count the pairs of members that share a category, in one pass: the `k`-th earlier
/// occurrence of a category contributes `2k + 1`.
pub fn tally_squares(categories: &Vec<usize>) -> (r: u128)
    ensures
        r == same_category_pairs(categories@),
{
    let mut sum_of_squares: u128 = 0;
    let mut tallies: HashMap<usize, u128> = HashMap::new();
    let mut k: usize = 0;
    let ghost s = categories@;
    assert(s.take(0) =~= Seq::<usize>::empty());
    while k < categories.len()
        invariant
            s == categories@,
            k <= s.len(),
            sum_of_squares == same_category_pairs(s.take(k as int)),
            forall|x: usize| #[trigger] tallies@.contains_key(x) <==> occurrences(s.take(k as int), x) > 0,
            forall|x: usize| #[trigger] tallies@.contains_key(x) ==> tallies@[x] == occurrences(s.take(k as int), x),
        decreases s.len() - k,
    {
        let category = categories[k];
        let ghost prefix = s.take(k as int);
        let ghost next = s.take(k + 1);
        assert(next =~= prefix.push(category));
        proof {
            lemma_pairs_push(prefix, category);
            lemma_occurrences_bound(prefix, category);
            lemma_matches_over_bound(prefix, prefix);
            assert(prefix.len() * prefix.len() + 2 * prefix.len() + 1 <= 0xffff_ffff_ffff_ffff * 0xffff_ffff_ffff_ffffu128 + 0) by (nonlinear_arith)
                requires
                    prefix.len() < 0xffff_ffff_ffff_ffff,
            ;
            assert forall|x: usize| occurrences(next, x) == occurrences(prefix, x) + if x == category { 1nat } else { 0nat } by {
                assert(next.drop_last() =~= prefix);
            }
        }
        let current_tally: u128 = match tallies.get(&category) {
            Some(t) => *t,
            None => 0,
        };
        sum_of_squares = sum_of_squares + 2 * current_tally + 1;
        tallies.insert(category, current_tally + 1);
        k = k + 1;
    }
    assert(s.take(k as int) =~= s);
    sum_of_squares
}

/// The tally of one cluster of a solution against a gold standard.
#[derive(Copy, Clone, Debug, PartialEq, Eq, Structural)]
pub struct ClusterTally {
    /// Category of the cluster in the solution.
    pub category: usize,
    /// Ordered pairs of its members that share a gold category.
    pub sum_of_squares: u128,
    /// Number of its members.
    pub size: usize,
}

/// The gold categories of the members, in order.
pub open spec fn gold_categories(members: Seq<usize>, gold: Map<usize, usize>) -> Seq<usize> {
    members.map_values(|m: usize| gold[m])
}

/// The tally of the cluster of category `c` of `solution` against `gold`.
pub open spec fn cluster_tally(solution: Clustering, gold: Clustering, c: usize) -> ClusterTally {
    ClusterTally {
        category: c,
        sum_of_squares: same_category_pairs(
            gold_categories(solution.cluster_of(c).member_seq(), gold@),
        ) as u128,
        size: solution.cluster_of(c)@.len() as usize,
    }
}

/// `t` holds the tally of each cluster of `solution` against `gold`, once, in some order.
pub open spec fn is_precision_tally(t: Seq<ClusterTally>, solution: Clustering, gold: Clustering) -> bool {
    &&& t.len() == solution.categories().len()
    &&& forall|i: int|
        0 <= i < t.len() ==> solution.categories().contains((#[trigger] t[i]).category) && t[i]
            == cluster_tally(solution, gold, t[i].category)
    &&& forall|c: usize|
        #[trigger] solution.categories().contains(c) ==> exists|i: int|
            0 <= i < t.len() && (#[trigger] t[i]).category == c
}

/// Every item of `solution` has a category in `gold`.
pub open spec fn covered_by(solution: Clustering, gold: Clustering) -> bool {
    forall|m: usize| #[trigger] solution@.contains_key(m) ==> gold@.contains_key(m)
}

/// The tallies for the B-Cubed precision of `solution` against `gold_standard`: for each
/// cluster, the pairs of members that share a gold category, and its size.
/// `Err(m)` names an item of the solution that has no gold category.
pub fn compute_precision_tallies(solution: &Clustering, gold_standard: &Clustering) -> (r: Result<Vec<ClusterTally>, usize>)
    requires
        solution.wf(),
        gold_standard.wf(),
    ensures
        match r {
            Ok(t) => covered_by(*solution, *gold_standard) && is_precision_tally(t@, *solution, *gold_standard),
            Err(m) => solution@.contains_key(m) && !gold_standard@.contains_key(m),
        },
{
    proof {
        solution.lemma_clusters();
    }
    let clusters = solution.get_clusters();
    let mut tallies: Vec<ClusterTally> = Vec::new();
    let ghost mut k: int = 0;
    let ghost categories = solution.categories();
    proof {
        let sq = vstd::std_specs::hash::spec_values_iter(clusters).remaining();
        assert(sq.unref().to_set() == clusters@.values());
        assert forall|c: usize| #[trigger] solution.categories().contains(c) implies
            (exists|i: int| 0 <= i < sq.len() && (#[trigger] sq[i]).spec_category() == c) by {
            assert(clusters@.values().contains(clusters@[c]));
            assert(sq.unref().to_set().contains(clusters@[c]));
            let i = choose|i: int| 0 <= i < sq.unref().len() && sq.unref()[i] == clusters@[c];
            assert(sq.unref()[i] == *sq[i]);
        }
    }
    for cluster in it: clusters.values()
        invariant
            solution.wf(),
            clusters@.dom() == solution.categories(),
            forall|c: usize| #[trigger] clusters@.contains_key(c) ==> clusters@[c] == solution.cluster_of(c),
            k == it.index(),
            0 <= k <= it.seq().len(),
            it.seq().unref().to_set() == clusters@.values(),
            it.seq().len() == clusters@.dom().len(),
            tallies@.len() == k,
            forall|i: int| 0 <= i < k ==> (#[trigger] tallies@[i]).category == it.seq()[i].spec_category()
                && solution.categories().contains(tallies@[i].category)
                && tallies@[i] == cluster_tally(*solution, *gold_standard, tallies@[i].category),
            forall|i: int, x: usize| 0 <= i < k && #[trigger] solution.cluster_of((#[trigger] tallies@[i]).category)@.contains(x)
                ==> gold_standard@.contains_key(x),
            forall|c: usize| #[trigger] solution.categories().contains(c) ==>
                (exists|i: int| 0 <= i < k && (#[trigger] tallies@[i]).category == c)
                || (exists|i: int| k <= i < it.seq().len() && (#[trigger] it.seq()[i]).spec_category() == c),
    {
        let ghost c = cluster.spec_category();
        proof {
            assert(it.seq().unref()[k] == *cluster);
            assert(it.seq().unref().to_set().contains(*cluster));
            assert(clusters@.values().contains(*cluster));
            let key = choose|key: usize| clusters@.contains_key(key) && clusters@[key] == *cluster;
            assert(solution.cluster_of(key).spec_category() == key);
            assert(key == c);
            cluster.lemma_member_seq();
        }
        let members = cluster.get_members();
        let mut gold_cats: Vec<usize> = Vec::new();
        let mut j: usize = 0;
        while j < members.len()
            invariant
                j <= members@.len(),
                members@ == cluster.member_seq(),
                solution.categories().contains(c),
                *cluster == solution.cluster_of(c),
                solution.wf(),
                gold_cats@ == gold_categories(members@.take(j as int), gold_standard@),
                forall|x: int| 0 <= x < j ==> gold_standard@.contains_key(#[trigger] members@[x]),
            decreases members@.len() - j,
        {
            let m = members[j];
            match gold_standard.get_category(m) {
                Some(gc) => {
                    gold_cats.push(gc);
                },
                None => {
                    proof {
                        solution.lemma_clusters();
                        cluster.lemma_member_seq();
                        assert(cluster@.contains(m)) by {
                            assert(members@[j as int] == m);
                        }
                        assert(members_of(solution@, c).contains(m));
                    }
                    return Err(m);
                },
            }
            j = j + 1;
            assert(gold_cats@ =~= gold_categories(members@.take(j as int), gold_standard@));
        }
        assert(members@.take(j as int) =~= members@);
        let sum_of_squares = tally_squares(&gold_cats);
        let size = cluster.len();
        let ghost before = tallies@;
        tallies.push(ClusterTally { category: cluster.get_category(), sum_of_squares, size });
        proof {
            assert(tallies@[k] == cluster_tally(*solution, *gold_standard, c));
            assert forall|i: int| 0 <= i < k + 1 implies (#[trigger] tallies@[i]).category == it.seq()[i].spec_category()
                && solution.categories().contains(tallies@[i].category)
                && tallies@[i] == cluster_tally(*solution, *gold_standard, tallies@[i].category) by {
                if i < k {
                    assert(tallies@[i] == before[i]);
                }
                assert(it.seq().unref()[k] == *it.seq()[k]);
            }
            assert forall|i: int, x: usize| 0 <= i < k + 1 && #[trigger] solution.cluster_of((#[trigger] tallies@[i]).category)@.contains(x)
                implies gold_standard@.contains_key(x) by {
                if i < k {
                    assert(tallies@[i] == before[i]);
                } else {
                    assert(members@.to_set().contains(x));
                    let y = choose|y: int| 0 <= y < members@.len() && members@[y] == x;
                }
            }
            assert forall|c2: usize| #[trigger] solution.categories().contains(c2) implies
                (exists|i: int| 0 <= i < k + 1 && (#[trigger] tallies@[i]).category == c2)
                || (exists|i: int| k + 1 <= i < it.seq().len() && (#[trigger] it.seq()[i]).spec_category() == c2) by {
                if exists|i: int| 0 <= i < k && (#[trigger] before[i]).category == c2 {
                    let i = choose|i: int| 0 <= i < k && (#[trigger] before[i]).category == c2;
                    assert(tallies@[i] == before[i]);
                } else if c2 == c {
                    assert(tallies@[k].category == c2);
                } else {
                    let i = choose|i: int| k <= i < it.seq().len() && (#[trigger] it.seq()[i]).spec_category() == c2;
                    assert(i != k) by {
                        assert(it.seq().unref()[k] == *it.seq()[k]);
                    }
                }
            }
            k = k + 1;
        }
    }
    proof {
        assert forall|m: usize| #[trigger] solution@.contains_key(m) implies gold_standard@.contains_key(m) by {
            let c = solution@[m];
            assert(solution.categories().contains(c));
            let i = choose|i: int| 0 <= i < tallies@.len() && (#[trigger] tallies@[i]).category == c;
            assert(solution.cluster_of(c)@.contains(m));
        }
    }
    Ok(tallies)
}

/// The tallies for the B-Cubed recall of `solution` against `gold_standard`, which are
/// those for the precision with the two swapped.
pub fn compute_recall_tallies(solution: &Clustering, gold_standard: &Clustering) -> (r: Result<Vec<ClusterTally>, usize>)
    requires
        solution.wf(),
        gold_standard.wf(),
    ensures
        match r {
            Ok(t) => covered_by(*gold_standard, *solution) && is_precision_tally(t@, *gold_standard, *solution),
            Err(m) => gold_standard@.contains_key(m) && !solution@.contains_key(m),
        },
{
    compute_precision_tallies(gold_standard, solution)
}

proof fn lemma_constant_pairs(s: Seq<usize>, t: Seq<usize>, x: usize)
    requires
        forall|i: int| 0 <= i < s.len() ==> s[i] == x,
        forall|i: int| 0 <= i < t.len() ==> t[i] == x,
    ensures
        matches_over(s, t) == s.len() * t.len(),
    decreases t.len(),
{
    if t.len() > 0 {
        lemma_constant_pairs(s, t.drop_last(), x);
        lemma_constant_occurrences(s, x);
        assert(s.len() * (t.len() - 1) + s.len() == s.len() * t.len()) by (nonlinear_arith);
    }
}

proof fn lemma_constant_occurrences(s: Seq<usize>, x: usize)
    requires
        forall|i: int| 0 <= i < s.len() ==> s[i] == x,
    ensures
        occurrences(s, x) == s.len(),
    decreases s.len(),
{
    if s.len() > 0 {
        lemma_constant_occurrences(s.drop_last(), x);
    }
}

/// Measured against itself, every cluster is homogeneous: all pairs of its members share a
/// category, so each tally counts the square of the cluster's size, and the cluster
/// contributes its full size to the sum behind precision (and recall). The sizes add up to
/// the number of items, so that precision and recall are both exactly one.
pub proof fn lemma_self_comparison(x: Clustering, t: Seq<ClusterTally>)
    requires
        x.wf(),
        is_precision_tally(t, x, x),
    ensures
        forall|i: int| 0 <= i < t.len() ==> (#[trigger] t[i]).sum_of_squares == t[i].size * t[i].size,
        total_size(t) == x@.len(),
{
    lemma_tally_sizes_add_up(x, x, t);
    x.lemma_clusters();
    assert forall|i: int| 0 <= i < t.len() implies (#[trigger] t[i]).sum_of_squares == t[i].size * t[i].size by {
        let c = t[i].category;
        let cl = x.cluster_of(c);
        cl.lemma_member_seq();
        assert(x.categories().contains(c));
        let g = gold_categories(cl.member_seq(), x@);
        assert forall|j: int| 0 <= j < g.len() implies g[j] == c by {
            let m = cl.member_seq()[j];
            assert(cl.member_seq().to_set().contains(m));
            assert(members_of(x@, c).contains(m));
        }
        lemma_constant_pairs(g, g, c);
        assert(g.len() == cl@.len());
        let n = t[i].size;
        assert(n == g.len());
        assert((n as int) * (n as int) <= 0xffff_ffff_ffff_ffff_ffff_ffff_ffff_ffffu128) by (nonlinear_arith)
            requires n <= 0xffff_ffff_ffff_ffffu64;
    }
}

/// The sizes of the tallies, summed.
pub open spec fn total_size(t: Seq<ClusterTally>) -> int
    decreases t.len(),
{
    if t.len() == 0 {
        0
    } else {
        total_size(t.drop_last()) + t.last().size
    }
}

/// The members of the categories of the first `k` tallies.
spec fn members_of_first(v: Map<usize, usize>, t: Seq<ClusterTally>, k: int) -> Set<usize>
    decreases k,
{
    if k <= 0 {
        Set::empty()
    } else {
        members_of_first(v, t, k - 1) + members_of(v, t[k - 1].category)
    }
}

proof fn lemma_members_of_first(solution: Clustering, gold: Clustering, t: Seq<ClusterTally>, k: int)
    requires
        solution.wf(),
        is_precision_tally(t, solution, gold),
        t.map_values(|x: ClusterTally| x.category).no_duplicates(),
        0 <= k <= t.len(),
    ensures
        members_of_first(solution@, t, k).finite(),
        members_of_first(solution@, t, k).len() == total_size(t.take(k)),
        forall|m: usize| #[trigger] members_of_first(solution@, t, k).contains(m) <==> (solution@.contains_key(m)
            && exists|i: int| 0 <= i < k && t[i].category == solution@[m]),
    decreases k,
{
    let v = solution@;
    if k > 0 {
        lemma_members_of_first(solution, gold, t, k - 1);
        solution.lemma_clusters();
        let c = t[k - 1].category;
        let cl = solution.cluster_of(c);
        cl.lemma_member_seq();
        let prev = members_of_first(v, t, k - 1);
        let next = members_of(v, c);
        assert(next == cl@);
        assert(prev.disjoint(next)) by {
            assert forall|m: usize| prev.contains(m) implies !next.contains(m) by {
                let i = choose|i: int| 0 <= i < k - 1 && t[i].category == v[m];
                let cats = t.map_values(|x: ClusterTally| x.category);
                assert(cats[i] != cats[k - 1]);
            }
        }
        vstd::set_lib::lemma_set_disjoint_lens(prev, next);
        assert(t.take(k).drop_last() =~= t.take(k - 1));
        assert forall|m: usize| #[trigger] members_of_first(v, t, k).contains(m) <==> (v.contains_key(m)
            && exists|i: int| 0 <= i < k && t[i].category == v[m]) by {
            if v.contains_key(m) && v[m] == c {
                assert(t[k - 1].category == v[m]);
            }
            if v.contains_key(m) && (exists|i: int| 0 <= i < k && t[i].category == v[m]) && v[m] != c {
                let i = choose|i: int| 0 <= i < k && t[i].category == v[m];
                assert(i < k - 1);
            }
        }
    } else {
        assert(t.take(0) =~= Seq::<ClusterTally>::empty());
    }
}

/// The clusters of a tally hold every item once: their sizes add up to the number of items.
pub proof fn lemma_tally_sizes_add_up(solution: Clustering, gold: Clustering, t: Seq<ClusterTally>)
    requires
        solution.wf(),
        is_precision_tally(t, solution, gold),
    ensures
        total_size(t) == solution@.len(),
{
    let v = solution@;
    let cats = t.map_values(|x: ClusterTally| x.category);
    solution.lemma_clusters();
    assert(cats.to_set() =~= solution.categories()) by {
        assert forall|c: usize| cats.to_set().contains(c) <==> solution.categories().contains(c) by {
            if solution.categories().contains(c) {
                let i = choose|i: int| 0 <= i < t.len() && (#[trigger] t[i]).category == c;
                assert(cats[i] == c);
            }
            if cats.to_set().contains(c) {
                let i = choose|i: int| 0 <= i < cats.len() && cats[i] == c;
                assert(t[i].category == c);
            }
        }
    }
    cats.lemma_no_dup_set_cardinality();
    lemma_members_of_first(solution, gold, t, t.len() as int);
    assert(members_of_first(v, t, t.len() as int) =~= v.dom()) by {
        assert forall|m: usize| v.dom().contains(m) implies members_of_first(v, t, t.len() as int).contains(m) by {
            assert(solution.categories().contains(v[m]));
            let i = choose|i: int| 0 <= i < t.len() && (#[trigger] t[i]).category == v[m];
        }
    }
    assert(t.take(t.len() as int) =~= t);
}

} // verus!

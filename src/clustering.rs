pub mod bcubed;
pub mod cluster;
pub mod msb;
pub mod single_linkage;

use std::collections::HashMap;
use std::ops::Range;
use vstd::prelude::*;
use vstd::string::StringSliceAdditionalSpecFns;

use self::cluster::Cluster;

verus! {

broadcast use vstd::std_specs::hash::group_hash_axioms;

/// Why a change to a `Clustering` was not made.
#[derive(Copy, Clone, Debug, PartialEq, Eq, Structural)]
pub enum ClusteringError {
    /// The item is already in the cluster of this category.
    AlreadyClustered(usize),
    /// No cluster has this category.
    UnknownCategory(usize),
    /// The supply of fresh categories is used up.
    CategoryExhausted,
}

/// Partitions items into non-overlapping clusters; each item belongs to at most one.
///
/// An item's category is looked up directly, and a category's cluster holds its members.
/// Categories come from a range of fresh values and are never reused; a cluster that
/// becomes empty is removed.
pub struct Clustering {
    /// The category of the cluster of each member.
    member_to_cluster: HashMap<usize, usize>,
    /// The cluster of each category.
    clusters: HashMap<usize, Cluster>,
    /// The categories not yet handed out.
    category_generator: Range<usize>,
}

/// The members whose category is `c`.
pub open spec fn members_of(v: Map<usize, usize>, c: usize) -> Set<usize> {
    Set::new(|m: usize| v.contains_key(m) && v[m] == c)
}

/// The categories after `merge(a, b)`, where `fresh` is the next fresh category.
pub open spec fn merged_view(v: Map<usize, usize>, a: usize, b: usize, fresh: usize) -> Map<usize, usize> {
    if v.contains_key(a) && v.contains_key(b) {
        Map::new(|m: usize| v.contains_key(m), |m: usize| if v[m] == v[b] { v[a] } else { v[m] })
    } else if v.contains_key(a) {
        v.insert(b, v[a])
    } else if v.contains_key(b) {
        v.insert(a, v[b])
    } else {
        v.insert(a, fresh).insert(b, fresh)
    }
}

impl View for Clustering {
    type V = Map<usize, usize>;

    /// The category of each clustered item.
    closed spec fn view(&self) -> Map<usize, usize> {
        self.member_to_cluster@
    }
}

impl Clustering {
    /// The categories that have a cluster.
    pub closed spec fn categories(&self) -> Set<usize> {
        self.clusters@.dom()
    }

    /// The next category that will be handed out.
    pub closed spec fn next_category(&self) -> usize {
        self.category_generator.start
    }

    /// The end of the range of categories that can be handed out.
    pub closed spec fn category_limit(&self) -> usize {
        self.category_generator.end
    }

    /// The cluster of category `c`.
    pub closed spec fn cluster_of(&self, c: usize) -> Cluster {
        self.clusters@[c]
    }

    /// The two indexes agree, clusters are non-empty, and no category is at or past the
    /// next fresh one.
    pub closed spec fn wf(&self) -> bool {
        &&& forall|c: usize|
            #[trigger] self.clusters@.contains_key(c) ==> {
                &&& self.clusters@[c].wf()
                &&& self.clusters@[c].spec_category() == c
                &&& self.clusters@[c]@.len() > 0
                &&& c < self.category_generator.start
            }
        &&& forall|m: usize|
            #[trigger] self.member_to_cluster@.contains_key(m) ==> {
                &&& self.clusters@.contains_key(self.member_to_cluster@[m])
                &&& self.clusters@[self.member_to_cluster@[m]]@.contains(m)
            }
        &&& forall|c: usize, m: usize|
            self.clusters@.contains_key(c) && #[trigger] self.clusters@[c]@.contains(m) ==> {
                &&& self.member_to_cluster@.contains_key(m)
                &&& self.member_to_cluster@[m] == c
            }
    }

    /// Each category that has a cluster is the category of some item, and the cluster holds
    /// exactly the items of that category. Every category lies below the next fresh one,
    /// which is therefore unused.
    pub proof fn lemma_clusters(&self)
        requires
            self.wf(),
        ensures
            forall|c: usize| #[trigger] self.categories().contains(c) ==> {
                &&& self.cluster_of(c)@ == members_of(self@, c)
                &&& self.cluster_of(c).wf()
                &&& self.cluster_of(c).spec_category() == c
                &&& exists|m: usize| self@.contains_key(m) && self@[m] == c
            },
            forall|m: usize| #[trigger] self@.contains_key(m) ==> self.categories().contains(self@[m]),
            forall|c: usize| #[trigger] self.categories().contains(c) ==> c < self.next_category(),
            !self.categories().contains(self.next_category()),
    {
        assert forall|c: usize| #[trigger] self.categories().contains(c) implies {
            &&& self.cluster_of(c)@ == members_of(self@, c)
            &&& exists|m: usize| self@.contains_key(m) && self@[m] == c
        } by {
            let cl = self.clusters@[c];
            assert(cl@ =~= members_of(self@, c));
            cl.lemma_member_seq();
            assert(cl@.len() > 0);
            let m = cl@.choose();
            assert(cl@.contains(m));
        }
    }

    /// An empty clustering that takes fresh categories from `category_generator`.
    pub fn empty(category_generator: Range<usize>) -> (r: Self)
        ensures
            r.wf(),
            r@ == Map::<usize, usize>::empty(),
            r.categories() == Set::<usize>::empty(),
            r.next_category() == category_generator.start,
            r.category_limit() == category_generator.end,
    {
        let r = Clustering {
            member_to_cluster: HashMap::new(),
            clusters: HashMap::new(),
            category_generator,
        };
        assert(r.clusters@.dom() =~= Set::<usize>::empty());
        r
    }

    /// Hand out the next fresh category.
    fn next_fresh_category(&mut self) -> (r: Option<usize>)
        requires
            old(self).wf(),
        ensures
            final(self).wf(),
            final(self)@ == old(self)@,
            final(self).categories() == old(self).categories(),
            final(self).clusters@ == old(self).clusters@,
            final(self).category_limit() == old(self).category_limit(),
            match r {
                Some(c) => c == old(self).next_category() && c < old(self).category_limit()
                    && final(self).next_category() == c + 1,
                None => old(self).next_category() >= old(self).category_limit()
                    && final(self).next_category() == old(self).next_category(),
            },
    {
        if self.category_generator.start < self.category_generator.end {
            let c = self.category_generator.start;
            self.category_generator.start = c + 1;
            Some(c)
        } else {
            None
        }
    }

    /// Create a clustering in which each item is the only member of its own cluster, the
    /// `i`-th item in the category `category_generator.start + i`.
    pub fn uncategorized(items: &Vec<usize>, category_generator: Range<usize>) -> (r: Self)
        requires
            items@.no_duplicates(),
            category_generator.start + items@.len() <= category_generator.end,
        ensures
            r.wf(),
            r@ == Map::new(
                |m: usize| items@.contains(m),
                |m: usize| (category_generator.start + items@.index_of(m)) as usize,
            ),
            r.next_category() == category_generator.start + items@.len(),
            r.category_limit() == category_generator.end,
    {
        let start = category_generator.start;
        let ghost end = category_generator.end;
        let mut clustering = Clustering::empty(category_generator);
        let mut i: usize = 0;
        while i < items.len()
            invariant
                clustering.wf(),
                i <= items@.len(),
                items@.no_duplicates(),
                start + items@.len() <= clustering.category_limit(),
                clustering.category_limit() == end,
                clustering.next_category() == start + i,
                clustering@ == Map::new(
                    |m: usize| items@.take(i as int).contains(m),
                    |m: usize| (start + items@.index_of(m)) as usize,
                ),
            decreases items@.len() - i,
        {
            let item = items[i];
            proof {
                assert(!items@.take(i as int).contains(item)) by {
                    if items@.take(i as int).contains(item) {
                        let j = choose|j: int| 0 <= j < i && items@.take(i as int)[j] == item;
                        assert(items@[j] == items@[i as int]);
                    }
                }
                assert(!clustering@.contains_key(item));
            }
            let r = clustering.add_to_new_cluster(item);
            proof {
                assert(items@.index_of(item) == i) by {
                    items@.index_of_first_ensures(item);
                    assert(items@[i as int] == item);
                }
                let next = items@.take(i + 1);
                let prev = items@.take(i as int);
                assert(next =~= prev.push(item));
                assert(clustering@ =~= Map::new(
                    |m: usize| next.contains(m),
                    |m: usize| (start + items@.index_of(m)) as usize,
                )) by {
                    assert forall|m: usize| next.contains(m) <==> (prev.contains(m) || m == item) by {
                        prev.lemma_push_to_set_commute(item);
                        assert(next.to_set().contains(m) <==> next.contains(m));
                        assert(prev.to_set().contains(m) <==> prev.contains(m));
                    }
                }
            }
            i = i + 1;
        }
        assert(items@.take(i as int) =~= items@);
        clustering
    }

    /// Put the item into a new cluster of a fresh category.
    ///
    ///   - `Ok(category)` - the category of the new cluster
    ///   - `Err(AlreadyClustered(c))` - the item is already in the cluster of category `c`
    ///   - `Err(CategoryExhausted)` - no fresh category is left
    pub fn add_to_new_cluster(&mut self, item: usize) -> (r: Result<usize, ClusteringError>)
        requires
            old(self).wf(),
        ensures
            final(self).wf(),
            final(self).category_limit() == old(self).category_limit(),
            old(self)@.contains_key(item) ==> r == Err::<usize, ClusteringError>(
                ClusteringError::AlreadyClustered(old(self)@[item]),
            ) && *final(self) == *old(self),
            !old(self)@.contains_key(item) && old(self).next_category() >= old(self).category_limit()
                ==> r == Err::<usize, ClusteringError>(ClusteringError::CategoryExhausted) && final(self)@
                == old(self)@ && final(self).categories() == old(self).categories()
                && final(self).next_category() == old(self).next_category(),
            !old(self)@.contains_key(item) && old(self).next_category() < old(self).category_limit()
                ==> {
                &&& r == Ok::<usize, ClusteringError>(old(self).next_category())
                &&& !old(self).categories().contains(old(self).next_category())
                &&& final(self)@ == old(self)@.insert(item, old(self).next_category())
                &&& final(self).categories() == old(self).categories().insert(old(self).next_category())
                &&& final(self).next_category() == old(self).next_category() + 1
            },
    {
        match self.member_to_cluster.get(&item) {
            Some(current_category) => Err(ClusteringError::AlreadyClustered(*current_category)),
            None => {
                match self.next_fresh_category() {
                    Some(category) => {
                        let ghost before = *self;
                        let cluster = Cluster::with_member(category, item);
                        self.clusters.insert(category, cluster);
                        self.member_to_cluster.insert(item, category);
                        proof {
                            assert(!before.clusters@.contains_key(category));
                            assert(set![item].len() > 0) by {
                                assert(set![item].contains(item));
                            }
                            assert(self.clusters@.dom() =~= before.clusters@.dom().insert(category));
                            assert forall|c: usize, m: usize|
                                self.clusters@.contains_key(c) && #[trigger] self.clusters@[c]@.contains(m) implies {
                                    &&& self.member_to_cluster@.contains_key(m)
                                    &&& self.member_to_cluster@[m] == c
                                } by {
                                if c != category {
                                    assert(before.clusters@[c]@.contains(m));
                                    if m == item {
                                        assert(before.member_to_cluster@.contains_key(m));
                                    }
                                }
                            }
                        }
                        Ok(category)
                    },
                    None => Err(ClusteringError::CategoryExhausted),
                }
            },
        }
    }

    /// Put the item, which is not yet clustered, into the existing cluster of `category`.
    ///
    ///   - `Ok(category)` - the item was added
    ///   - `Err(AlreadyClustered(c))` - the item is already in the cluster of category `c`
    ///   - `Err(UnknownCategory(category))` - no cluster has that category
    pub fn add_to_cluster(&mut self, item: usize, category: usize) -> (r: Result<usize, ClusteringError>)
        requires
            old(self).wf(),
        ensures
            final(self).wf(),
            final(self).categories() == old(self).categories(),
            final(self).next_category() == old(self).next_category(),
            final(self).category_limit() == old(self).category_limit(),
            old(self)@.contains_key(item) ==> r == Err::<usize, ClusteringError>(
                ClusteringError::AlreadyClustered(old(self)@[item]),
            ) && final(self)@ == old(self)@,
            !old(self)@.contains_key(item) && !old(self).categories().contains(category) ==> r
                == Err::<usize, ClusteringError>(ClusteringError::UnknownCategory(category))
                && final(self)@ == old(self)@,
            !old(self)@.contains_key(item) && old(self).categories().contains(category) ==> r
                == Ok::<usize, ClusteringError>(category) && final(self)@ == old(self)@.insert(
                item,
                category,
            ),
    {
        match self.member_to_cluster.get(&item) {
            Some(current_category) => Err(ClusteringError::AlreadyClustered(*current_category)),
            None => {
                let ghost before = *self;
                match self.clusters.remove(&category) {
                    Some(cluster) => {
                        let mut cluster = cluster;
                        cluster.add_member(item);
                        self.clusters.insert(category, cluster);
                        self.member_to_cluster.insert(item, category);
                        proof {
                            assert(self.clusters@.dom() =~= before.clusters@.dom());
                            assert(cluster@.len() > 0) by {
                                cluster.lemma_member_seq();
                                before.clusters@[category].lemma_member_seq();
                                assert(cluster@.contains(item));
                            }
                            assert forall|m: usize| #[trigger] self.member_to_cluster@.contains_key(m) implies {
                                &&& self.clusters@.contains_key(self.member_to_cluster@[m])
                                &&& self.clusters@[self.member_to_cluster@[m]]@.contains(m)
                            } by {
                                if m != item {
                                    assert(before.member_to_cluster@.contains_key(m));
                                }
                            }
                            assert forall|c: usize, m: usize|
                                self.clusters@.contains_key(c) && #[trigger] self.clusters@[c]@.contains(m) implies {
                                    &&& self.member_to_cluster@.contains_key(m)
                                    &&& self.member_to_cluster@[m] == c
                                } by {
                                if c != category {
                                    assert(before.clusters@[c]@.contains(m));
                                    if m == item {
                                        assert(before.member_to_cluster@.contains_key(m));
                                    }
                                } else if m != item {
                                    assert(before.clusters@[c]@.contains(m));
                                }
                            }
                        }
                        Ok(category)
                    },
                    None => {
                        Err(ClusteringError::UnknownCategory(category))
                    },
                }
            },
        }
    }

    /// Move every member of the cluster of `category2` into the cluster of `category1`,
    /// and drop the emptied cluster.
    fn merge_clusters(&mut self, category1: usize, category2: usize)
        requires
            old(self).wf(),
            old(self).categories().contains(category1),
            old(self).categories().contains(category2),
            category1 != category2,
        ensures
            final(self).wf(),
            final(self)@ == Map::new(
                |m: usize| old(self)@.contains_key(m),
                |m: usize| if old(self)@[m] == category2 { category1 } else { old(self)@[m] },
            ),
            final(self).categories() == old(self).categories().remove(category2),
            final(self).next_category() == old(self).next_category(),
            final(self).category_limit() == old(self).category_limit(),
    {
        let ghost before = *self;
        let ghost v = self@;
        proof {
            self.lemma_clusters();
        }
        let cluster2 = match self.clusters.remove(&category2) {
            Some(c) => c,
            None => {
                assert(false);
                return ;
            },
        };
        let mut cluster1 = match self.clusters.remove(&category1) {
            Some(c) => c,
            None => {
                assert(false);
                return ;
            },
        };
        let mut cluster2 = cluster2;
        let ghost seq2 = cluster2.member_seq();
        proof {
            cluster2.lemma_member_seq();
            cluster1.lemma_member_seq();
            assert(cluster2@ == members_of(v, category2));
        }
        let members = cluster2.get_members();
        let ghost clusters_now = self.clusters@;
        assert(clusters_now == before.clusters@.remove(category2).remove(category1));
        let mut i: usize = 0;
        while i < members.len()
            invariant
                self.clusters@ == clusters_now,
                self.category_generator == before.category_generator,
                members@ == seq2,
                seq2.to_set() == members_of(v, category2),
                i <= seq2.len(),
                self.member_to_cluster@ == Map::new(
                    |m: usize| v.contains_key(m),
                    |m: usize| if seq2.take(i as int).contains(m) { category1 } else { v[m] },
                ),
            decreases seq2.len() - i,
        {
            let m = members[i];
            proof {
                assert(seq2.to_set().contains(m)) by {
                    assert(seq2.contains(m)) by {
                        assert(seq2[i as int] == m);
                    }
                }
            }
            let ghost map_before = self.member_to_cluster@;
            self.member_to_cluster.insert(m, category1);
            proof {
                let next = seq2.take(i + 1);
                let prev = seq2.take(i as int);
                assert(next =~= prev.push(m));
                assert forall|x: usize| next.contains(x) <==> (prev.contains(x) || x == m) by {
                    prev.lemma_push_to_set_commute(m);
                    assert(next.to_set().contains(x) <==> next.contains(x));
                    assert(prev.to_set().contains(x) <==> prev.contains(x));
                }
                assert(self.member_to_cluster@ =~= Map::new(
                    |x: usize| v.contains_key(x),
                    |x: usize| if next.contains(x) { category1 } else { v[x] },
                ));
            }
            i = i + 1;
        }
        proof {
            assert(seq2.take(i as int) =~= seq2);
            assert forall|x: usize| seq2.contains(x) <==> members_of(v, category2).contains(x) by {
                assert(seq2.to_set().contains(x) <==> seq2.contains(x));
            }
            assert(self.member_to_cluster@ =~= Map::new(
                |m: usize| v.contains_key(m),
                |m: usize| if v[m] == category2 { category1 } else { v[m] },
            ));
        }
        cluster1.merge(&mut cluster2);
        self.clusters.insert(category1, cluster1);
        proof {
            let nv = self.member_to_cluster@;
            assert(self.clusters@.dom() =~= before.clusters@.dom().remove(category2));
            assert(cluster1@ =~= members_of(nv, category1));
            cluster1.lemma_member_seq();
            assert(cluster1@.contains(choose|m: usize| v.contains_key(m) && v[m] == category1));
            assert forall|c: usize| #[trigger] self.clusters@.contains_key(c) implies {
                &&& self.clusters@[c].wf()
                &&& self.clusters@[c].spec_category() == c
                &&& self.clusters@[c]@.len() > 0
                &&& c < self.category_generator.start
            } by {
                if c != category1 {
                    assert(self.clusters@[c] == before.clusters@[c]);
                }
            }
            assert forall|m: usize| #[trigger] self.member_to_cluster@.contains_key(m) implies {
                &&& self.clusters@.contains_key(self.member_to_cluster@[m])
                &&& self.clusters@[self.member_to_cluster@[m]]@.contains(m)
            } by {
                if nv[m] != category1 {
                    assert(before.member_to_cluster@.contains_key(m));
                    assert(self.clusters@[nv[m]] == before.clusters@[nv[m]]);
                }
            }
            assert forall|c: usize, m: usize|
                self.clusters@.contains_key(c) && #[trigger] self.clusters@[c]@.contains(m) implies {
                    &&& self.member_to_cluster@.contains_key(m)
                    &&& self.member_to_cluster@[m] == c
                } by {
                if c != category1 {
                    assert(self.clusters@[c] == before.clusters@[c]);
                    assert(before.clusters@[c]@.contains(m));
                }
            }
        }
    }

    /// Merge the cluster of `item1` with that of `item2`, transitively.
    ///
    ///  - Both clustered, apart: every member of `item2`'s cluster moves to `item1`'s, and
    ///    the emptied cluster is dropped.
    ///  - One clustered: the other joins its cluster.
    ///  - Neither clustered: both go into a new cluster of a fresh category.
    ///
    /// Returns false, changing nothing, when the items are already together.
    pub fn merge(&mut self, item1: usize, item2: usize) -> (r: bool)
        requires
            old(self).wf(),
            !old(self)@.contains_key(item1) && !old(self)@.contains_key(item2) ==> old(self).next_category()
                < old(self).category_limit(),
        ensures
            final(self).wf(),
            r == !(old(self)@.contains_key(item1) && old(self)@.contains_key(item2) && old(self)@[item1]
                == old(self)@[item2]),
            final(self)@ == if r {
                merged_view(old(self)@, item1, item2, old(self).next_category())
            } else {
                old(self)@
            },
            final(self).category_limit() == old(self).category_limit(),
            final(self).next_category() == if !old(self)@.contains_key(item1) && !old(self)@.contains_key(
                item2,
            ) {
                old(self).next_category() + 1
            } else {
                old(self).next_category() as int
            },
            final(self).categories() == if !r {
                old(self).categories()
            } else if old(self)@.contains_key(item1) && old(self)@.contains_key(item2) {
                old(self).categories().remove(old(self)@[item2])
            } else if old(self)@.contains_key(item1) || old(self)@.contains_key(item2) {
                old(self).categories()
            } else {
                old(self).categories().insert(old(self).next_category())
            },
            !old(self)@.contains_key(item1) && !old(self)@.contains_key(item2) ==> !old(
                self,
            ).categories().contains(old(self).next_category()),
    {
        match (self.get_category(item1), self.get_category(item2)) {
            (Some(category1), Some(category2)) => {
                if category1 == category2 {
                    return false;
                }
                proof {
                    self.lemma_clusters();
                }
                self.merge_clusters(category1, category2);
                assert(self@ =~= merged_view(old(self)@, item1, item2, old(self).next_category()));
            },
            (Some(category1), None) => {
                proof {
                    self.lemma_clusters();
                }
                let _ = self.add_to_cluster(item2, category1);
            },
            (None, Some(category2)) => {
                proof {
                    self.lemma_clusters();
                }
                let _ = self.add_to_cluster(item1, category2);
            },
            (None, None) => {
                let added = self.add_to_new_cluster(item1);
                if let Ok(new_category) = added {
                    proof {
                        self.lemma_clusters();
                    }
                    let _ = self.add_to_cluster(item2, new_category);
                    assert(self@ =~= merged_view(old(self)@, item1, item2, old(self).next_category()));
                }
            },
        }
        true
    }

    /// Take the item out of its cluster, dropping the cluster if it becomes empty.
    /// Returns whether the item was clustered.
    pub fn remove_item(&mut self, item: usize) -> (r: bool)
        requires
            old(self).wf(),
        ensures
            final(self).wf(),
            r == old(self)@.contains_key(item),
            final(self)@ == old(self)@.remove(item),
            final(self).categories() == if r && members_of(old(self)@, old(self)@[item]) == set![item] {
                old(self).categories().remove(old(self)@[item])
            } else {
                old(self).categories()
            },
            final(self).next_category() == old(self).next_category(),
            final(self).category_limit() == old(self).category_limit(),
    {
        match self.get_category(item) {
            Some(category) => {
                let ghost before = *self;
                proof {
                    self.lemma_clusters();
                }
                let mut cluster = match self.clusters.remove(&category) {
                    Some(c) => c,
                    None => {
                        assert(false);
                        return false;
                    },
                };
                cluster.remove_member(&item);
                let emptied = cluster.is_empty();
                if !emptied {
                    self.clusters.insert(category, cluster);
                }
                self.member_to_cluster.remove(&item);
                proof {
                    let v = before@;
                    let nv = self.member_to_cluster@;
                    cluster.lemma_member_seq();
                    assert(cluster@ =~= members_of(v, category).remove(item));
                    assert(emptied == (members_of(v, category) =~= set![item])) by {
                        if emptied {
                            assert forall|m: usize| members_of(v, category).contains(m) implies m == item by {
                                if m != item {
                                    assert(cluster@.contains(m));
                                }
                            }
                        } else {
                            assert(cluster@.len() > 0);
                            let x = cluster@.choose();
                            assert(cluster@.contains(x));
                            assert(members_of(v, category).contains(x) && x != item);
                        }
                    }
                    if emptied {
                        assert(self.clusters@.dom() =~= before.clusters@.dom().remove(category));
                    } else {
                        assert(self.clusters@.dom() =~= before.clusters@.dom());
                    }
                    assert forall|c: usize| #[trigger] self.clusters@.contains_key(c) implies {
                        &&& self.clusters@[c].wf()
                        &&& self.clusters@[c].spec_category() == c
                        &&& self.clusters@[c]@.len() > 0
                        &&& c < self.category_generator.start
                    } by {
                        if c != category {
                            assert(self.clusters@[c] == before.clusters@[c]);
                        }
                    }
                    assert forall|m: usize| #[trigger] self.member_to_cluster@.contains_key(m) implies {
                        &&& self.clusters@.contains_key(self.member_to_cluster@[m])
                        &&& self.clusters@[self.member_to_cluster@[m]]@.contains(m)
                    } by {
                        assert(before.member_to_cluster@.contains_key(m));
                        if nv[m] == category {
                            assert(cluster@.contains(m));
                        } else {
                            assert(self.clusters@[nv[m]] == before.clusters@[nv[m]]);
                        }
                    }
                    assert forall|c: usize, m: usize|
                        self.clusters@.contains_key(c) && #[trigger] self.clusters@[c]@.contains(m) implies {
                            &&& self.member_to_cluster@.contains_key(m)
                            &&& self.member_to_cluster@[m] == c
                        } by {
                        if c != category {
                            assert(self.clusters@[c] == before.clusters@[c]);
                            assert(before.clusters@[c]@.contains(m));
                        } else {
                            assert(cluster@.contains(m));
                        }
                    }
                }
                true
            },
            None => {
                assert(self@ =~= old(self)@.remove(item));
                false
            },
        }
    }

    /// Move the item alone to the existing cluster of `new_category`; the members it was
    /// clustered with stay behind. Returns whether anything changed: nothing does when no
    /// cluster has `new_category`, or the item is already in it.
    pub fn move_item(&mut self, item: usize, new_category: usize) -> (r: bool)
        requires
            old(self).wf(),
        ensures
            final(self).wf(),
            r == (old(self).categories().contains(new_category) && !(old(self)@.contains_key(item)
                && old(self)@[item] == new_category)),
            final(self)@ == if r { old(self)@.insert(item, new_category) } else { old(self)@ },
            final(self).next_category() == old(self).next_category(),
            final(self).category_limit() == old(self).category_limit(),
    {
        if !self.contains_category(new_category) {
            return false;
        }
        match self.get_category(item) {
            Some(current_category) => {
                if current_category == new_category {
                    false
                } else {
                    proof {
                        self.lemma_clusters();
                    }
                    self.remove_item(item);
                    assert(self.categories().contains(new_category)) by {
                        if members_of(old(self)@, current_category) == set![item] {
                        }
                    }
                    let _ = self.add_to_cluster(item, new_category);
                    assert(self@ =~= old(self)@.insert(item, new_category));
                    true
                }
            },
            None => {
                let _ = self.add_to_cluster(item, new_category);
                true
            },
        }
    }

    /// Whether the item is in some cluster.
    pub fn contains_item(&self, item: usize) -> (r: bool)
        ensures
            r == self@.contains_key(item),
    {
        self.member_to_cluster.contains_key(&item)
    }

    /// Whether some cluster has the category.
    pub fn contains_category(&self, category: usize) -> (r: bool)
        ensures
            r == self.categories().contains(category),
    {
        self.clusters.contains_key(&category)
    }

    /// The category of the item's cluster, if it is clustered.
    pub fn get_category(&self, item: usize) -> (r: Option<usize>)
        ensures
            r == if self@.contains_key(item) { Some(self@[item]) } else { None::<usize> },
    {
        match self.member_to_cluster.get(&item) {
            Some(c) => Some(*c),
            None => None,
        }
    }

    /// The cluster of the category, if there is one.
    pub fn get_cluster(&self, category: usize) -> (r: Option<&Cluster>)
        requires
            self.wf(),
        ensures
            match r {
                Some(cl) => {
                    &&& self.categories().contains(category)
                    &&& cl.spec_category() == category
                    &&& cl.wf()
                    &&& cl@ == members_of(self@, category)
                },
                None => !self.categories().contains(category),
            },
    {
        proof {
            self.lemma_clusters();
        }
        self.clusters.get(&category)
    }

    /// All the clusters, by category.
    pub fn get_clusters(&self) -> (r: &HashMap<usize, Cluster>)
        requires
            self.wf(),
        ensures
            r@.dom() == self.categories(),
            forall|c: usize| #[trigger] r@.contains_key(c) ==> r@[c] == self.cluster_of(c),
    {
        &self.clusters
    }

    /// Whether both items are clustered, in the same cluster.
    pub fn are_together(&self, item1: usize, item2: usize) -> (r: bool)
        ensures
            r == (self@.contains_key(item1) && self@.contains_key(item2) && self@[item1]
                == self@[item2]),
    {
        match (self.get_category(item1), self.get_category(item2)) {
            (Some(category1), Some(category2)) => category1 == category2,
            _ => false,
        }
    }

    /// Number of clusters.
    pub fn cluster_count(&self) -> (r: usize)
        ensures
            r == self.categories().len(),
    {
        self.clusters.len()
    }

    /// Number of clustered items.
    pub fn member_count(&self) -> (r: usize)
        ensures
            r == self@.len(),
    {
        self.member_to_cluster.len()
    }
}

/// A clustering whose categories are handed out from zero up.
pub fn integer_clustering() -> (r: Clustering)
    ensures
        r.wf(),
        r@ == Map::<usize, usize>::empty(),
        r.categories() == Set::<usize>::empty(),
        r.next_category() == 0,
        r.category_limit() == usize::MAX,
{
    Clustering::empty(Range { start: 0, end: usize::MAX })
}

proof fn lemma_split_nonempty(s: Seq<u8>, sep: u8)
    ensures
        split_on(s, sep).len() >= 1,
    decreases s.len(),
{
    if s.len() > 0 {
        lemma_split_nonempty(s.drop_last(), sep);
    }
}

proof fn lemma_assign_error_extends(a: Seq<(Seq<u8>, nat)>, b: Seq<(Seq<u8>, nat)>)
    requires
        assign_members(a) is Err,
    ensures
        assign_members(a + b) == assign_members(a),
    decreases b.len(),
{
    if b.len() > 0 {
        lemma_assign_error_extends(a, b.drop_last());
        assert((a + b).drop_last() =~= a + b.drop_last());
    } else {
        assert(a + b =~= a);
    }
}

proof fn lemma_tagged_prefix(groups: Seq<Seq<u8>>, j: int)
    requires
        0 <= j <= groups.len(),
    ensures
        tagged_pieces(groups.take(j)).len() <= tagged_pieces(groups).len(),
        tagged_pieces(groups).take(tagged_pieces(groups.take(j)).len() as int) == tagged_pieces(groups.take(j)),
    decreases groups.len(),
{
    if j == groups.len() {
        assert(groups.take(j) =~= groups);
        assert(tagged_pieces(groups).take(tagged_pieces(groups).len() as int) =~= tagged_pieces(groups));
    } else {
        let d = groups.drop_last();
        assert(d.take(j) =~= groups.take(j));
        lemma_tagged_prefix(d, j);
        let a = tagged_pieces(d);
        let p = tagged_pieces(groups.take(j));
        assert(tagged_pieces(groups).take(p.len() as int) =~= a.take(p.len() as int));
    }
}

/// An error met in a prefix of the member texts is the error of the whole.
proof fn lemma_error_in_prefix(t: Seq<(Seq<u8>, nat)>, p: Seq<(Seq<u8>, nat)>)
    requires
        p.len() <= t.len(),
        t.take(p.len() as int) == p,
        assign_members(p) is Err,
    ensures
        assign_members(t) == assign_members(p),
{
    assert(t =~= p + t.skip(p.len() as int));
    lemma_assign_error_extends(p, t.skip(p.len() as int));
}

proof fn lemma_next_is_prefix(
    gv: Seq<Seq<u8>>,
    g: int,
    base: Seq<(Seq<u8>, nat)>,
    tagged: Seq<(Seq<u8>, nat)>,
    k: int,
)
    requires
        0 <= g < gv.len(),
        0 <= k < tagged.len(),
        base == tagged_pieces(gv.take(g)),
        tagged_pieces(gv.take(g + 1)) == base + tagged,
    ensures
        (base + tagged.take(k + 1)).len() <= tagged_pieces(gv).len(),
        tagged_pieces(gv).take((base + tagged.take(k + 1)).len() as int) == base + tagged.take(k + 1),
{
    lemma_tagged_prefix(gv, g + 1);
    let whole = tagged_pieces(gv);
    let q = base + tagged;
    let n = base + tagged.take(k + 1);
    assert(q.take(n.len() as int) =~= n);
    assert(whole.take(n.len() as int) =~= q.take(n.len() as int));
}

/// Why a delimited text does not describe a clustering.
#[derive(Copy, Clone, Debug, PartialEq, Eq, Structural)]
pub enum DelimitedStringError {
    /// A member is empty, holds something other than decimal digits, or does not fit.
    BadMember,
    /// A member occurs twice.
    RepeatedMember(usize),
}

/// The pieces of `s` between occurrences of `sep`; always at least one.
pub open spec fn split_on(s: Seq<u8>, sep: u8) -> Seq<Seq<u8>>
    decreases s.len(),
{
    if s.len() == 0 {
        seq![Seq::<u8>::empty()]
    } else {
        let p = split_on(s.drop_last(), sep);
        if s.last() == sep {
            p.push(Seq::<u8>::empty())
        } else {
            p.update(p.len() - 1, p.last().push(s.last()))
        }
    }
}

/// A non-empty run of decimal digits.
pub open spec fn is_digits(s: Seq<u8>) -> bool {
    s.len() > 0 && forall|i: int| 0 <= i < s.len() ==> 48 <= #[trigger] s[i] <= 57
}

/// The number that the decimal digits denote.
pub open spec fn digits_value(s: Seq<u8>) -> nat
    decreases s.len(),
{
    if s.len() == 0 {
        0
    } else {
        digits_value(s.drop_last()) * 10 + (s.last() - 48) as nat
    }
}

/// Each member text of the groups, with the position of its group.
pub open spec fn tagged_pieces(groups: Seq<Seq<u8>>) -> Seq<(Seq<u8>, nat)>
    decreases groups.len(),
{
    if groups.len() == 0 {
        Seq::empty()
    } else {
        tagged_pieces(groups.drop_last()) + split_on(groups.last(), 44).map_values(
            |p: Seq<u8>| (p, (groups.len() - 1) as nat),
        )
    }
}

/// The categories that the member texts describe, each member in the category of its
/// group; the error of the first text that is no number or repeats a member.
pub open spec fn assign_members(t: Seq<(Seq<u8>, nat)>) -> Result<Map<usize, usize>, DelimitedStringError>
    decreases t.len(),
{
    if t.len() == 0 {
        Ok(Map::empty())
    } else {
        match assign_members(t.drop_last()) {
            Err(e) => Err(e),
            Ok(m) => {
                let p = t.last().0;
                if !(is_digits(p) && digits_value(p) <= usize::MAX) {
                    Err(DelimitedStringError::BadMember)
                } else if m.contains_key(digits_value(p) as usize) {
                    Err(DelimitedStringError::RepeatedMember(digits_value(p) as usize))
                } else {
                    Ok(m.insert(digits_value(p) as usize, t.last().1 as usize))
                }
            },
        }
    }
}

/// What a text of groups separated by `;`, of members separated by `,`, describes.
pub open spec fn parse_delimited(s: Seq<u8>) -> Result<Map<usize, usize>, DelimitedStringError> {
    assign_members(tagged_pieces(split_on(s, 59)))
}

/// The views of byte vectors.
pub open spec fn byte_views(v: Seq<Vec<u8>>) -> Seq<Seq<u8>> {
    v.map_values(|x: Vec<u8>| x@)
}

/// Split the bytes at each occurrence of `sep`.
fn split_bytes(s: &[u8], sep: u8) -> (r: Vec<Vec<u8>>)
    ensures
        byte_views(r@) == split_on(s@, sep),
{
    let mut pieces: Vec<Vec<u8>> = Vec::new();
    let mut current: Vec<u8> = Vec::new();
    let mut k: usize = 0;
    assert(s@.take(0) =~= Seq::<u8>::empty());
    assert(byte_views(pieces@).push(current@) =~= split_on(s@.take(0), sep));
    while k < s.len()
        invariant
            k <= s@.len(),
            byte_views(pieces@).push(current@) == split_on(s@.take(k as int), sep),
        decreases s@.len() - k,
    {
        let b = s[k];
        let ghost prev = s@.take(k as int);
        assert(s@.take(k + 1).drop_last() =~= prev);
        assert(s@.take(k + 1).last() == b);
        if b == sep {
            let ghost old_pieces = pieces@;
            let finished = current;
            pieces.push(finished);
            current = Vec::new();
            assert(byte_views(pieces@) =~= byte_views(old_pieces).push(finished@));
            assert(byte_views(pieces@).push(current@) =~= split_on(prev, sep).push(Seq::<u8>::empty()));
        } else {
            let ghost old_current = current@;
            current.push(b);
            assert(byte_views(pieces@).push(current@) =~= split_on(prev, sep).update(
                split_on(prev, sep).len() - 1,
                split_on(prev, sep).last().push(b),
            ));
        }
        k = k + 1;
    }
    assert(s@.take(k as int) =~= s@);
    let ghost old_pieces = pieces@;
    pieces.push(current);
    assert(byte_views(pieces@) =~= byte_views(old_pieces).push(current@));
    pieces
}

proof fn lemma_digits_value_prefix(s: Seq<u8>, k: int)
    requires
        0 <= k <= s.len(),
    ensures
        digits_value(s.take(k)) <= digits_value(s),
    decreases s.len(),
{
    if k < s.len() {
        assert(s.drop_last().take(k) =~= s.take(k));
        lemma_digits_value_prefix(s.drop_last(), k);
    } else {
        assert(s.take(k) =~= s);
    }
}

/// The number that a piece of decimal digits denotes, if it is one and fits.
fn parse_member(piece: &[u8]) -> (r: Option<usize>)
    ensures
        r == if is_digits(piece@) && digits_value(piece@) <= usize::MAX {
            Some(digits_value(piece@) as usize)
        } else {
            None::<usize>
        },
{
    if piece.len() == 0 {
        return None;
    }
    let mut value: usize = 0;
    let mut k: usize = 0;
    assert(piece@.take(0) =~= Seq::<u8>::empty());
    while k < piece.len()
        invariant
            k <= piece@.len(),
            piece@.len() > 0,
            value == digits_value(piece@.take(k as int)),
            forall|i: int| 0 <= i < k ==> 48 <= #[trigger] piece@[i] <= 57,
        decreases piece@.len() - k,
    {
        let b = piece[k];
        assert(piece@.take(k + 1).drop_last() =~= piece@.take(k as int));
        if b < 48 || b > 57 {
            return None;
        }
        let digit = (b - 48) as usize;
        if value > (usize::MAX - digit) / 10 {
            proof {
                assert(value * 10 + digit > usize::MAX) by (nonlinear_arith)
                    requires
                        value > (usize::MAX - digit) / 10,
                        digit <= 9,
                ;
                lemma_digits_value_prefix(piece@, k + 1);
            }
            return None;
        }
        assert(value * 10 + digit <= usize::MAX) by (nonlinear_arith)
            requires
                value <= (usize::MAX - digit) / 10,
                digit <= 9,
        ;
        value = value * 10 + digit;
        k = k + 1;
    }
    assert(piece@.take(k as int) =~= piece@);
    Some(value)
}

/// Build a clustering from text with groups separated by `;` and members, non-negative
/// integers, separated by `,`. The groups become clusters of the categories 0, 1, 2, ...
/// in order. For example `"1,2,3;4,5,6;7,8,9;10"` gives four clusters of ten members.
///
/// Fails on an empty member, a member that is no number or does not fit, and a member
/// given twice.
pub fn from_delimited_string(clustering_string: &str) -> (r: Result<Clustering, DelimitedStringError>)
    ensures
        match r {
            Ok(c) => {
                &&& c.wf()
                &&& parse_delimited(clustering_string.spec_bytes()) == Ok::<
                    Map<usize, usize>,
                    DelimitedStringError,
                >(c@)
                &&& c.next_category() == split_on(clustering_string.spec_bytes(), 59).len()
                &&& c.category_limit() == usize::MAX
                &&& c.categories() == Set::new(
                    |k: usize| k < split_on(clustering_string.spec_bytes(), 59).len(),
                )
            },
            Err(e) => parse_delimited(clustering_string.spec_bytes()) == Err::<
                Map<usize, usize>,
                DelimitedStringError,
            >(e),
        },
{
    let bytes = clustering_string.as_bytes();
    let groups = split_bytes(bytes, 59);
    let ghost gv = byte_views(groups@);
    let mut clustering = integer_clustering();
    let mut g: usize = 0;
    while g < groups.len()
        invariant
            gv == byte_views(groups@),
            gv == split_on(bytes@, 59),
            bytes@ == clustering_string.spec_bytes(),
            g <= groups@.len(),
            clustering.wf(),
            clustering.next_category() == g,
            clustering.category_limit() == usize::MAX,
            forall|c: usize| #[trigger] clustering.categories().contains(c) ==> c < g,
            forall|c: usize| c < g ==> #[trigger] clustering.categories().contains(c),
            assign_members(tagged_pieces(gv.take(g as int))) == Ok::<Map<usize, usize>, DelimitedStringError>(clustering@),
        decreases groups@.len() - g,
    {
        let pieces = split_bytes(groups[g].as_slice(), 44);
        let ghost pv = byte_views(pieces@);
        let ghost base = tagged_pieces(gv.take(g as int));
        let ghost tagged = pv.map_values(|p: Seq<u8>| (p, g as nat));
        proof {
            lemma_split_nonempty(groups@[g as int]@, 44);
        }
        assert(gv.take(g + 1).drop_last() =~= gv.take(g as int));
        assert(tagged_pieces(gv.take(g + 1)) == base + tagged);
        let group_count = groups.len();
        let mut k: usize = 0;
        assert(base + tagged.take(0) =~= base);
        while k < pieces.len()
            invariant
                gv == byte_views(groups@),
                gv == split_on(bytes@, 59),
                bytes@ == clustering_string.spec_bytes(),
                base == tagged_pieces(gv.take(g as int)),
                tagged_pieces(gv.take(g + 1)) == base + tagged,
                g < groups@.len(),
                g < group_count,
                pv == byte_views(pieces@),
                pv.len() >= 1,
                tagged == pv.map_values(|p: Seq<u8>| (p, g as nat)),
                k <= pv.len(),
                clustering.wf(),
                clustering.next_category() == if k == 0 { g } else { (g + 1) as usize },
                clustering.category_limit() == usize::MAX,
                forall|c: usize| #[trigger] clustering.categories().contains(c) ==> c < g || (k > 0 && c == g),
                forall|c: usize| (c < g || (k > 0 && c == g)) ==> #[trigger] clustering.categories().contains(c),
                assign_members(base + tagged.take(k as int)) == Ok::<Map<usize, usize>, DelimitedStringError>(clustering@),
            decreases pv.len() - k,
        {
            let ghost prefix = base + tagged.take(k as int);
            let ghost next = base + tagged.take(k + 1);
            assert(next.drop_last() =~= prefix);
            assert(next.last() == (pv[k as int], g as nat));
            let member = match parse_member(pieces[k].as_slice()) {
                Some(m) => m,
                None => {
                    assert(assign_members(next) == Err::<Map<usize, usize>, DelimitedStringError>(DelimitedStringError::BadMember));
                    proof {
                        lemma_next_is_prefix(gv, g as int, base, tagged, k as int);
                        lemma_error_in_prefix(tagged_pieces(gv), next);
                    }
                    return Err(DelimitedStringError::BadMember);
                },
            };
            let ghost old_view = clustering@;
            let added = if k == 0 {
                clustering.add_to_new_cluster(member)
            } else {
                clustering.add_to_cluster(member, g)
            };
            match added {
                Ok(_) => {},
                Err(_) => {
                    assert(g < usize::MAX);
                    assert(k > 0 ==> clustering.categories().contains(g));
                    assert(old_view.contains_key(member));
                    assert(pv[k as int] == pieces@[k as int]@);
                    assert(assign_members(next) == Err::<Map<usize, usize>, DelimitedStringError>(DelimitedStringError::RepeatedMember(member)));
                    proof {
                        lemma_next_is_prefix(gv, g as int, base, tagged, k as int);
                        lemma_error_in_prefix(tagged_pieces(gv), next);
                    }
                    return Err(DelimitedStringError::RepeatedMember(member));
                },
            }
            k = k + 1;
        }
        assert(tagged.take(k as int) =~= tagged);
        g = g + 1;
    }
    assert(gv.take(g as int) =~= gv);
    assert(clustering.categories() =~= Set::new(|k: usize| k < gv.len()));
    Ok(clustering)
}

/// Merging two items that are not together brings them together, so that merging them a
/// second time changes nothing and returns false.
pub proof fn lemma_merge_brings_together(v: Map<usize, usize>, a: usize, b: usize, fresh: usize)
    requires
        !(v.contains_key(a) && v.contains_key(b) && v[a] == v[b]),
    ensures
        merged_view(v, a, b, fresh).contains_key(a),
        merged_view(v, a, b, fresh).contains_key(b),
        merged_view(v, a, b, fresh)[a] == merged_view(v, a, b, fresh)[b],
{
}

} // verus!

use vstd::prelude::*;

verus! {

/// Groups zero or more members under one category, as part of a `Clustering`.
///
/// Members are usually integer ids that the caller uses to look up the real objects.
/// They are held without repetition.
#[derive(Clone)]
pub struct Cluster {
    /// Category of the cluster.
    category: usize,
    /// Members of the cluster, each once.
    members: Vec<usize>,
}

impl View for Cluster {
    type V = Set<usize>;

    /// The set of members.
    closed spec fn view(&self) -> Set<usize> {
        self.members@.to_set()
    }
}

impl Cluster {
    /// The category of the cluster.
    pub closed spec fn spec_category(&self) -> usize {
        self.category
    }

    /// The members in the order in which they are held.
    pub closed spec fn member_seq(&self) -> Seq<usize> {
        self.members@
    }

    /// No member is held twice.
    pub closed spec fn wf(&self) -> bool {
        self.members@.no_duplicates()
    }

    /// The held sequence lists exactly the members, each once.
    pub proof fn lemma_member_seq(&self)
        requires
            self.wf(),
        ensures
            self.member_seq().to_set() == self@,
            self.member_seq().no_duplicates(),
            self.member_seq().len() == self@.len(),
            self@.finite(),
            self@.len() <= usize::MAX,
    {
        assert(self.members@.len() == self.members.len());
        self.members@.unique_seq_to_set();
        vstd::seq_lib::seq_to_set_is_finite(self.members@);
    }

    /// Create an empty cluster.
    pub fn empty(category: usize) -> (r: Self)
        ensures
            r.wf(),
            r.spec_category() == category,
            r@ == Set::<usize>::empty(),
    {
        let r = Cluster { category, members: Vec::new() };
        assert(r@ =~= Set::<usize>::empty());
        r
    }

    /// Create a cluster holding a single member.
    pub fn with_member(category: usize, member: usize) -> (r: Self)
        ensures
            r.wf(),
            r.spec_category() == category,
            r@ == set![member],
    {
        let mut members: Vec<usize> = Vec::new();
        members.push(member);
        let cluster = Cluster { category, members };
        assert(cluster.members@ =~= seq![member]);
        assert(cluster@ =~= set![member]) by {
            assert(seq![member][0] == member);
        }
        cluster
    }

    /// Number of members in the cluster.
    pub fn len(&self) -> (r: usize)
        requires
            self.wf(),
        ensures
            r == self@.len(),
    {
        proof {
            self.lemma_member_seq();
        }
        self.members.len()
    }

    /// Whether the cluster has no members.
    pub fn is_empty(&self) -> (r: bool)
        requires
            self.wf(),
        ensures
            r == (self@.len() == 0),
            r == (self@ == Set::<usize>::empty()),
    {
        proof {
            self.lemma_member_seq();
            if self@.len() == 0 {
                self@.lemma_len0_is_empty();
            }
        }
        self.len() == 0
    }

    /// The category of the cluster.
    pub fn get_category(&self) -> (r: usize)
        ensures
            r == self.spec_category(),
    {
        self.category
    }

    /// The members of the cluster, each once.
    pub fn get_members(&self) -> (r: &Vec<usize>)
        ensures
            r@ == self.member_seq(),
    {
        &self.members
    }

    /// Position of the item among the held members, if it is one.
    fn position_of(&self, item: usize) -> (r: Option<usize>)
        ensures
            match r {
                Some(i) => i < self.members@.len() && self.members@[i as int] == item,
                None => !self.members@.contains(item),
            },
    {
        let mut i: usize = 0;
        while i < self.members.len()
            invariant
                i <= self.members@.len(),
                forall|j: int| 0 <= j < i ==> self.members@[j] != item,
            decreases self.members@.len() - i,
        {
            if self.members[i] == item {
                return Some(i);
            }
            i = i + 1;
        }
        None
    }

    /// Whether the given item is a member of the cluster.
    pub fn is_member(&self, item: &usize) -> (r: bool)
        ensures
            r == self@.contains(*item),
    {
        self.position_of(*item).is_some()
    }

    /// Add a member. Returns true when the item was not yet present.
    pub fn add_member(&mut self, item: usize) -> (r: bool)
        requires
            old(self).wf(),
        ensures
            final(self).wf(),
            final(self).spec_category() == old(self).spec_category(),
            final(self)@ == old(self)@.insert(item),
            r == !old(self)@.contains(item),
    {
        if self.position_of(item).is_some() {
            assert(self@ =~= old(self)@.insert(item));
            false
        } else {
            self.members.push(item);
            proof {
                old(self).members@.lemma_push_to_set_commute(item);
            }
            true
        }
    }

    /// Remove a member. Returns true when the item was present.
    pub fn remove_member(&mut self, item: &usize) -> (r: bool)
        requires
            old(self).wf(),
        ensures
            final(self).wf(),
            final(self).spec_category() == old(self).spec_category(),
            final(self)@ == old(self)@.remove(*item),
            r == old(self)@.contains(*item),
    {
        match self.position_of(*item) {
            Some(i) => {
                let ghost s = self.members@;
                self.members.remove(i);
                assert(self.members@ =~= s.remove(i as int));
                assert(self@ =~= old(self)@.remove(*item)) by {
                    assert forall|x: usize| self@.contains(x) <==> old(self)@.remove(*item).contains(x) by {
                        if old(self)@.remove(*item).contains(x) {
                            let j = choose|j: int| 0 <= j < s.len() && s[j] == x;
                            if j < i {
                                assert(self.members@[j] == x);
                            } else {
                                assert(self.members@[j - 1] == x);
                            }
                        }
                    }
                }
                true
            },
            None => {
                assert(self@ =~= old(self)@.remove(*item));
                false
            },
        }
    }

    /// Move every member of `other` into this cluster, leaving `other` empty.
    pub fn merge(&mut self, other: &mut Self)
        requires
            old(self).wf(),
            old(other).wf(),
        ensures
            final(self).wf(),
            final(other).wf(),
            final(self).spec_category() == old(self).spec_category(),
            final(other).spec_category() == old(other).spec_category(),
            final(self)@ == old(self)@.union(old(other)@),
            final(other)@ == Set::<usize>::empty(),
    {
        let mut i: usize = 0;
        while i < other.members.len()
            invariant
                self.wf(),
                other.wf(),
                *other == *old(other),
                i <= other.members@.len(),
                self.spec_category() == old(self).spec_category(),
                self@ == old(self)@.union(other.members@.take(i as int).to_set()),
            decreases other.members@.len() - i,
        {
            let m = other.members[i];
            self.add_member(m);
            proof {
                assert(other.members@.take(i + 1) =~= other.members@.take(i as int).push(m));
                other.members@.take(i as int).lemma_push_to_set_commute(m);
            }
            i = i + 1;
        }
        assert(other.members@.take(i as int) =~= other.members@);
        assert(self@ =~= old(self)@.union(old(other)@));
        other.members.clear();
        assert(other@ =~= Set::<usize>::empty());
    }
}

} // verus!

//! Cluster membership: a finite set of node identities, kept in ascending order
//! so that its encoding is canonical.

use crate::clock::NodeId;
use vstd::prelude::*;

verus! {

/// Every element is smaller than the one after it.
pub open spec fn strictly_ascending(s: Seq<NodeId>) -> bool {
    forall|i: int, j: int| 0 <= i < j < s.len() ==> s[i] < s[j]
}

/// The size of a strict majority among `n` voters.
pub open spec fn quorum_of(n: nat) -> nat {
    n / 2 + 1
}

/// A strictly ascending sequence lists each of its members once.
pub proof fn lemma_ascending_len_is_cardinality(s: Seq<NodeId>)
    requires
        strictly_ascending(s),
    ensures
        s.no_duplicates(),
        s.to_set().finite(),
        s.to_set().len() == s.len(),
{
    s.unique_seq_to_set();
}

/// Two strictly ascending sequences with the same members are the same sequence.
pub proof fn lemma_ascending_unique(a: Seq<NodeId>, b: Seq<NodeId>)
    requires
        strictly_ascending(a),
        strictly_ascending(b),
        a.to_set() == b.to_set(),
    ensures
        a == b,
    decreases a.len(),
{
    lemma_ascending_len_is_cardinality(a);
    lemma_ascending_len_is_cardinality(b);
    if a.len() > 0 {
        let x = a.last();
        let y = b.last();
        assert(a.contains(x));
        assert(b.contains(y));
        assert(a.to_set().contains(x));
        assert(b.to_set().contains(y));
        assert(b.contains(x));
        assert(a.contains(y));
        assert(x == y);
        let a0 = a.drop_last();
        let b0 = b.drop_last();
        assert forall|v: NodeId| a0.to_set().contains(v) == b0.to_set().contains(v) by {
            if a0.contains(v) {
                let i = choose|i: int| 0 <= i < a0.len() && a0[i] == v;
                assert(a[i] == v);
                assert(v < x);
                assert(a.to_set().contains(v));
                assert(b.contains(v));
                let j = choose|j: int| 0 <= j < b.len() && b[j] == v;
                assert(j < b.len() - 1);
                assert(b0[j] == v);
            }
            if b0.contains(v) {
                let i = choose|i: int| 0 <= i < b0.len() && b0[i] == v;
                assert(b[i] == v);
                assert(v < y);
                assert(b.to_set().contains(v));
                assert(a.contains(v));
                let j = choose|j: int| 0 <= j < a.len() && a[j] == v;
                assert(j < a.len() - 1);
                assert(a0[j] == v);
            }
        }
        assert(a0.to_set() =~= b0.to_set());
        lemma_ascending_unique(a0, b0);
        assert(a =~= a0.push(x));
        assert(b =~= b0.push(y));
    } else {
        assert(a =~= b);
    }
}

/// The set of voting members of one lane. The members are kept as a list in
/// ascending order, so that a membership is written into an entry in the
/// same way on every node.
#[derive(Debug)]
pub struct Membership {
    ids: Vec<NodeId>,
}

impl View for Membership {
    type V = Seq<NodeId>;

    /// The members in ascending order.
    closed spec fn view(&self) -> Seq<NodeId> {
        self.ids@
    }
}

impl Membership {
    /// The representation invariant: members are listed in strictly ascending order.
    pub open spec fn wf(&self) -> bool {
        strictly_ascending(self@)
    }

    /// The members as a set.
    pub open spec fn members(&self) -> Set<NodeId> {
        self@.to_set()
    }

    /// The empty membership.
    pub fn new() -> (m: Membership)
        ensures
            m.wf(),
            m@ == Seq::<NodeId>::empty(),
    {
        Membership { ids: Vec::new() }
    }

    /// Builds a membership from identities listed in strictly ascending order;
    /// any other listing is refused.
    pub fn from_sorted(ids: Vec<NodeId>) -> (r: Option<Membership>)
        ensures
            r.is_some() == strictly_ascending(ids@),
            r matches Some(m) ==> m@ == ids@ && m.wf(),
    {
        if is_strictly_ascending(&ids) {
            Some(Membership { ids })
        } else {
            None
        }
    }

    /// Builds a membership from identities listed in any order, with or without repeats.
    pub fn from_ids(ids: &Vec<NodeId>) -> (m: Membership)
        ensures
            m.wf(),
            m.members() == ids@.to_set(),
    {
        let mut m = Membership::new();
        let n: usize = ids.len();
        let mut i: usize = 0;
        assert(m.members() =~= ids@.take(0).to_set());
        while i < n
            invariant
                n == ids.len(),
                i <= n,
                m.wf(),
                m.members() == ids@.take(i as int).to_set(),
            decreases n - i,
        {
            m.insert(ids[i]);
            proof {
                let before = ids@.take(i as int);
                let after = ids@.take(i + 1);
                assert(after =~= before.push(ids@[i as int]));
                before.lemma_push_to_set_commute(ids@[i as int]);
            }
            i = i + 1;
        }
        assert(ids@.take(n as int) =~= ids@);
        m
    }

    /// The number of members.
    pub fn len(&self) -> (n: usize)
        ensures
            n == self@.len(),
    {
        self.ids.len()
    }

    /// The smallest number of members that forms a strict majority.
    pub fn quorum(&self) -> (q: usize)
        ensures
            q == quorum_of(self@.len()),
    {
        self.ids.len() / 2 + 1
    }

    /// The members in ascending order.
    pub fn to_vec(&self) -> (v: Vec<NodeId>)
        ensures
            v@ == self@,
    {
        let mut v: Vec<NodeId> = Vec::new();
        let n: usize = self.ids.len();
        let mut i: usize = 0;
        while i < n
            invariant
                n == self.ids.len(),
                i <= n,
                v@ == self.ids@.take(i as int),
            decreases n - i,
        {
            v.push(self.ids[i]);
            assert(self.ids@.take(i + 1) =~= self.ids@.take(i as int).push(self.ids@[i as int]));
            i = i + 1;
        }
        assert(self.ids@.take(n as int) =~= self.ids@);
        v
    }

    /// The member at position `i` of the ascending order.
    pub fn get(&self, i: usize) -> (id: NodeId)
        requires
            i < self@.len(),
        ensures
            id == self@[i as int],
    {
        self.ids[i]
    }

    /// A copy of this membership.
    pub fn duplicate(&self) -> (m: Membership)
        ensures
            m@ == self@,
    {
        Membership { ids: self.to_vec() }
    }

    /// Whether both memberships hold the same nodes.
    pub fn same_as(&self, other: &Membership) -> (b: bool)
        ensures
            b == (self@ == other@),
    {
        same_ids(&self.ids, &other.ids)
    }

    /// The position of the first member that is not below `id`.
    fn lower_bound(&self, id: NodeId) -> (p: usize)
        requires
            self.wf(),
        ensures
            p <= self@.len(),
            forall|k: int| 0 <= k < p ==> self@[k] < id,
            forall|k: int| p <= k < self@.len() ==> self@[k] >= id,
    {
        let n: usize = self.ids.len();
        let mut p: usize = 0;
        while p < n && self.ids[p] < id
            invariant
                n == self.ids.len(),
                p <= n,
                self.wf(),
                forall|k: int| 0 <= k < p ==> self.ids@[k] < id,
            decreases n - p,
        {
            p = p + 1;
        }
        p
    }

    /// Whether `id` is a member.
    pub fn contains(&self, id: NodeId) -> (b: bool)
        requires
            self.wf(),
        ensures
            b == self.members().contains(id),
    {
        let p: usize = self.lower_bound(id);
        let b: bool = p < self.ids.len() && self.ids[p] == id;
        proof {
            if !b && self@.contains(id) {
                let k = choose|k: int| 0 <= k < self@.len() && self@[k] == id;
                assert(k >= p);
                assert(k > p);
                assert(self@[p as int] < self@[k]);
            }
        }
        b
    }

    /// Adds `id`; returns whether it was absent before.
    pub fn insert(&mut self, id: NodeId) -> (added: bool)
        requires
            old(self).wf(),
        ensures
            final(self).wf(),
            final(self).members() == old(self).members().insert(id),
            added == !old(self).members().contains(id),
            !added ==> final(self)@ == old(self)@,
    {
        let p: usize = self.lower_bound(id);
        if p < self.ids.len() && self.ids[p] == id {
            assert(self@.contains(id));
            assert(self.members() =~= self.members().insert(id));
            return false;
        }
        proof {
            if self@.contains(id) {
                let k = choose|k: int| 0 <= k < self@.len() && self@[k] == id;
                assert(k >= p);
            }
        }
        let ghost before = self.ids@;
        self.ids.insert(p, id);
        proof {
            let after = self.ids@;
            before.insert_ensures(p as int, id);
            assert forall|i: int, j: int| 0 <= i < j < after.len() implies after[i] < after[j] by {
                if i < p && j > p {
                    assert(after[i] == before[i]);
                    assert(after[j] == before[j - 1]);
                } else if i < p && j < p {
                } else if i < p && j == p {
                } else if i == p {
                    assert(after[j] == before[j - 1]);
                } else {
                    assert(after[i] == before[i - 1]);
                    assert(after[j] == before[j - 1]);
                }
            }
            assert forall|v: NodeId| after.to_set().contains(v) == before.to_set().insert(
                id,
            ).contains(v) by {
                if after.contains(v) {
                    let k = choose|k: int| 0 <= k < after.len() && after[k] == v;
                    if k < p {
                        assert(before[k] == v);
                    } else if k > p {
                        assert(before[k - 1] == v);
                    }
                }
                if before.contains(v) {
                    let k = choose|k: int| 0 <= k < before.len() && before[k] == v;
                    if k < p {
                        assert(after[k] == v);
                    } else {
                        assert(after[k + 1] == v);
                    }
                }
                if v == id {
                    assert(after[p as int] == v);
                }
            }
            assert(after.to_set() =~= before.to_set().insert(id));
        }
        true
    }

    /// Removes `id`; returns whether it was present before.
    pub fn remove(&mut self, id: NodeId) -> (removed: bool)
        requires
            old(self).wf(),
        ensures
            final(self).wf(),
            final(self).members() == old(self).members().remove(id),
            removed == old(self).members().contains(id),
            !removed ==> final(self)@ == old(self)@,
    {
        let p: usize = self.lower_bound(id);
        if !(p < self.ids.len() && self.ids[p] == id) {
            proof {
                if self@.contains(id) {
                    let k = choose|k: int| 0 <= k < self@.len() && self@[k] == id;
                    assert(k >= p);
                    assert(k > p);
                    assert(self@[p as int] < self@[k]);
                }
                assert(self.members() =~= self.members().remove(id));
            }
            return false;
        }
        let ghost before = self.ids@;
        assert(before.contains(id));
        self.ids.remove(p);
        proof {
            let after = self.ids@;
            before.remove_ensures(p as int);
            assert forall|i: int, j: int| 0 <= i < j < after.len() implies after[i] < after[j] by {
                let bi = if i < p { i } else { i + 1 };
                let bj = if j < p { j } else { j + 1 };
                assert(after[i] == before[bi]);
                assert(after[j] == before[bj]);
            }
            assert forall|v: NodeId| after.to_set().contains(v) == before.to_set().remove(
                id,
            ).contains(v) by {
                if after.contains(v) {
                    let k = choose|k: int| 0 <= k < after.len() && after[k] == v;
                    let bk = if k < p { k } else { k + 1 };
                    assert(before[bk] == v);
                    assert(bk != p);
                    if bk < p {
                        assert(before[bk] < before[p as int]);
                    } else {
                        assert(before[p as int] < before[bk]);
                    }
                }
                if before.contains(v) && v != id {
                    let k = choose|k: int| 0 <= k < before.len() && before[k] == v;
                    if k < p {
                        assert(after[k] == v);
                    } else {
                        assert(k > p);
                        assert(after[k - 1] == v);
                    }
                }
            }
            assert(after.to_set() =~= before.to_set().remove(id));
        }
        true
    }
}

/// Whether every identity listed is smaller than the one after it.
pub fn is_strictly_ascending(ids: &Vec<NodeId>) -> (b: bool)
    ensures
        b == strictly_ascending(ids@),
{
    let n: usize = ids.len();
    let mut i: usize = 1;
    while i < n
        invariant
            n == ids.len(),
            1 <= i,
            forall|a: int| 0 <= a && a + 1 < i ==> #[trigger] ids@[a] < ids@[a + 1],
        decreases n - i,
    {
        if ids[i - 1] >= ids[i] {
            return false;
        }
        i = i + 1;
    }
    proof {
        lemma_adjacent_ascending(ids@);
    }
    true
}

/// Whether both listings hold the same identities in the same order.
pub fn same_ids(a: &Vec<NodeId>, b: &Vec<NodeId>) -> (r: bool)
    ensures
        r == (a@ == b@),
{
    let n: usize = a.len();
    if n != b.len() {
        return false;
    }
    let mut i: usize = 0;
    while i < n
        invariant
            n == a@.len(),
            n == b@.len(),
            i <= n,
            forall|k: int| 0 <= k < i ==> a@[k] == b@[k],
        decreases n - i,
    {
        if a[i] != b[i] {
            return false;
        }
        i = i + 1;
    }
    assert(a@ =~= b@);
    true
}

/// A sequence whose neighbours ascend is strictly ascending throughout.
pub proof fn lemma_adjacent_ascending(s: Seq<NodeId>)
    requires
        forall|a: int| 0 <= a && a + 1 < s.len() ==> #[trigger] s[a] < s[a + 1],
    ensures
        strictly_ascending(s),
    decreases s.len(),
{
    if s.len() >= 2 {
        let t = s.drop_last();
        assert forall|a: int| 0 <= a && a + 1 < t.len() implies #[trigger] t[a] < t[a + 1] by {
            assert(s[a] < s[a + 1]);
        }
        lemma_adjacent_ascending(t);
        assert forall|i: int, j: int| 0 <= i < j < s.len() implies s[i] < s[j] by {
            if j == s.len() - 1 {
                assert(s[j - 1] < s[j - 1 + 1]);
                if i < j - 1 {
                    assert(t[i] < t[j - 1]);
                }
            } else {
                assert(t[i] < t[j]);
            }
        }
    }
}

} // verus!

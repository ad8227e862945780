use vstd::arithmetic::power2::pow2;
use vstd::prelude::*;

verus! {

/// Strictly increasing: sorted without repeats.
pub open spec fn strictly_sorted(s: Seq<usize>) -> bool {
    forall|i: int, j: int| 0 <= i < j < s.len() ==> s[i] < s[j]
}

/// Strictly increasing, every element below `n`.
pub open spec fn sorted_below(s: Seq<usize>, n: nat) -> bool {
    &&& strictly_sorted(s)
    &&& forall|i: int| 0 <= i < s.len() ==> s[i] < n
}

/// Membership in the set of a sequence is membership in the sequence.
pub broadcast proof fn lemma_to_set_contains(s: Seq<usize>, x: usize)
    ensures
        #[trigger] s.to_set().contains(x) == s.contains(x),
{
}

/// A set of NFA node indices, kept sorted.
#[derive(Clone, Debug, PartialEq, Eq)]
pub struct NodeSet {
    items: Vec<usize>,
}

impl View for NodeSet {
    type V = Seq<usize>;

    closed spec fn view(&self) -> Seq<usize> {
        self.items@
    }
}

impl NodeSet {
    pub open spec fn wf(&self) -> bool {
        strictly_sorted(self@)
    }

    pub fn new() -> (r: NodeSet)
        ensures
            r@ == Seq::<usize>::empty(),
            r.wf(),
    {
        NodeSet { items: Vec::new() }
    }

    /// A set holding the elements of `list`.
    pub fn from_vec(list: Vec<usize>) -> (r: NodeSet)
        ensures
            r.wf(),
            r@.to_set() == list@.to_set(),
    {
        let mut r = NodeSet::new();
        let mut i: usize = 0;
        while i < list.len()
            invariant
                i <= list@.len(),
                r.wf(),
                r@.to_set() == list@.take(i as int).to_set(),
            decreases list@.len() - i,
        {
            r.insert(list[i]);
            assert(list@.take(i + 1) == list@.take(i as int).push(list@[i as int]));
            proof {
                list@.take(i as int).lemma_push_to_set_commute(list@[i as int]);
            }
            i += 1;
        }
        assert(list@.take(list@.len() as int) == list@);
        r
    }

    pub fn len(&self) -> (r: usize)
        ensures
            r == self@.len(),
    {
        self.items.len()
    }

    pub fn is_empty(&self) -> (r: bool)
        ensures
            r == (self@.len() == 0),
    {
        self.items.len() == 0
    }

    pub fn get(&self, i: usize) -> (r: usize)
        requires
            i < self@.len(),
        ensures
            r == self@[i as int],
    {
        self.items[i]
    }

    pub fn copy(&self) -> (r: NodeSet)
        ensures
            r@ == self@,
    {
        let mut items: Vec<usize> = Vec::new();
        let mut i: usize = 0;
        while i < self.items.len()
            invariant
                i <= self@.len(),
                items@ == self@.take(i as int),
            decreases self@.len() - i,
        {
            items.push(self.items[i]);
            assert(self@.take(i + 1) == self@.take(i as int).push(self@[i as int]));
            i += 1;
        }
        assert(self@.take(self@.len() as int) == self@);
        NodeSet { items }
    }

    pub fn contains(&self, x: usize) -> (r: bool)
        ensures
            r == self@.contains(x),
    {
        let mut i: usize = 0;
        while i < self.items.len()
            invariant
                i <= self@.len(),
                forall|k: int| 0 <= k < i ==> self@[k] != x,
            decreases self@.len() - i,
        {
            if self.items[i] == x {
                return true;
            }
            i += 1;
        }
        false
    }

    /// Same elements in both.
    pub fn same(&self, other: &NodeSet) -> (r: bool)
        ensures
            r == (self@ == other@),
    {
        if self.items.len() != other.items.len() {
            return false;
        }
        let mut i: usize = 0;
        while i < self.items.len()
            invariant
                self@.len() == other@.len(),
                i <= self@.len(),
                forall|k: int| 0 <= k < i ==> self@[k] == other@[k],
            decreases self@.len() - i,
        {
            if self.items[i] != other.items[i] {
                return false;
            }
            i += 1;
        }
        assert(self@ =~= other@);
        true
    }

    /// Adds `x`, keeping the order.
    pub fn insert(&mut self, x: usize)
        requires
            old(self).wf(),
        ensures
            final(self).wf(),
            final(self)@.to_set() == old(self)@.to_set().insert(x),
            forall|y: usize| #[trigger] final(self)@.contains(y) <==> old(self)@.contains(y) || y == x,
            forall|n: nat| sorted_below(old(self)@, n) && x < n ==> sorted_below(final(self)@, n),
    {
        broadcast use lemma_to_set_contains;

        let ghost s = self@;
        let mut pos: usize = 0;
        while pos < self.items.len() && self.items[pos] < x
            invariant
                pos <= s.len(),
                self@ == s,
                forall|k: int| 0 <= k < pos ==> s[k] < x,
            decreases s.len() - pos,
        {
            pos += 1;
        }
        if pos < self.items.len() && self.items[pos] == x {
            assert(s.to_set().insert(x) =~= s.to_set());
            assert forall|y: usize| #[trigger] s.contains(y) <==> s.contains(y) || y == x by {
                if y == x {
                    assert(s[pos as int] == x);
                }
            }
            return;
        }
        self.items.insert(pos, x);
        proof {
            let t = self@;
            assert(t == s.insert(pos as int, x));
            assert forall|i: int, j: int| 0 <= i < j < t.len() implies t[i] < t[j] by {
                if j < pos {
                } else if j == pos {
                } else if i < pos {
                } else if i == pos {
                    assert(t[j] == s[j - 1]);
                    assert(s[pos as int] >= x);
                    if j - 1 > pos {
                        assert(s[pos as int] < s[j - 1]);
                    }
                } else {
                }
            }
            assert(t.to_set() =~= s.to_set().insert(x)) by {
                assert forall|y: usize| t.to_set().contains(y) <==> s.to_set().insert(x).contains(y) by {
                    if t.contains(y) {
                        let k = choose|k: int| 0 <= k < t.len() && t[k] == y;
                        if k < pos {
                            assert(s[k] == y);
                        } else if k > pos {
                            assert(s[k - 1] == y);
                        }
                    }
                    if s.contains(y) {
                        let k = choose|k: int| 0 <= k < s.len() && s[k] == y;
                        if k < pos {
                            assert(t[k] == y);
                        } else {
                            assert(t[k + 1] == y);
                        }
                    }
                    if y == x {
                        assert(t[pos as int] == x);
                    }
                }
            }
            assert forall|y: usize| #[trigger] t.contains(y) <==> s.contains(y) || y == x by {
                assert(t.to_set().contains(y) == t.contains(y));
                assert(s.to_set().contains(y) == s.contains(y));
            }
        }
    }

    /// Adds every element of `other`.
    pub fn merge(&mut self, other: &NodeSet)
        requires
            old(self).wf(),
        ensures
            final(self).wf(),
            final(self)@.to_set() == old(self)@.to_set().union(other@.to_set()),
            forall|y: usize| #[trigger] final(self)@.contains(y) <==> old(self)@.contains(y) || other@.contains(y),
            forall|n: nat| sorted_below(old(self)@, n) && sorted_below(other@, n) ==> sorted_below(
                final(self)@,
                n,
            ),
    {
        broadcast use lemma_to_set_contains;

        let ghost s0 = self@;
        let mut i: usize = 0;
        while i < other.items.len()
            invariant
                i <= other@.len(),
                self.wf(),
                self@.to_set() == s0.to_set().union(other@.take(i as int).to_set()),
                forall|n: nat| sorted_below(s0, n) && sorted_below(other@, n) ==> sorted_below(
                    self@,
                    n,
                ),
            decreases other@.len() - i,
        {
            self.insert(other.items[i]);
            proof {
                assert(other@.take(i + 1) == other@.take(i as int).push(other@[i as int]));
                other@.take(i as int).lemma_push_to_set_commute(other@[i as int]);
                assert(self@.to_set() =~= s0.to_set().union(other@.take(i + 1).to_set()));
            }
            i += 1;
        }
        assert(other@.take(other@.len() as int) == other@);
        assert forall|y: usize| #[trigger] self@.contains(y) <==> s0.contains(y) || other@.contains(y) by {
            assert(self@.to_set().contains(y) == self@.contains(y));
            assert(s0.to_set().contains(y) == s0.contains(y));
            assert(other@.to_set().contains(y) == other@.contains(y));
        }
    }

    /// Removes and returns the largest element.
    pub fn pop(&mut self) -> (r: Option<usize>)
        requires
            old(self).wf(),
        ensures
            final(self).wf(),
            old(self)@.len() == 0 ==> r is None && final(self)@ == old(self)@,
            old(self)@.len() > 0 ==> r == Some(old(self)@.last()) && final(self)@
                == old(self)@.drop_last(),
    {
        self.items.pop()
    }
}

/// Every strictly increasing sequence of indices below `n`.
pub open spec fn all_sorted_below(n: nat) -> Set<Seq<usize>>
    decreases n,
{
    if n == 0 {
        set![Seq::<usize>::empty()]
    } else {
        let prev = all_sorted_below((n - 1) as nat);
        prev.union(prev.map(|s: Seq<usize>| s.push((n - 1) as usize)))
    }
}

/// There are at most `2^n` such sequences.
pub proof fn lemma_all_sorted_below_len(n: nat)
    ensures
        all_sorted_below(n).finite(),
        all_sorted_below(n).len() <= pow2(n),
    decreases n,
{
    if n == 0 {
        assert(set![Seq::<usize>::empty()].len() == 1) by {
            vstd::set_lib::lemma_set_empty_equivalency_len(Set::<Seq<usize>>::empty());
        }
        vstd::arithmetic::power2::lemma2_to64();
    } else {
        let prev = all_sorted_below((n - 1) as nat);
        lemma_all_sorted_below_len((n - 1) as nat);
        let f = |s: Seq<usize>| s.push((n - 1) as usize);
        vstd::set_lib::lemma_map_size_bound(prev, prev.map(f), f);
        vstd::set_lib::lemma_len_union(prev, prev.map(f));
        vstd::arithmetic::power2::lemma_pow2_unfold(n);
    }
}

/// A strictly increasing sequence of indices below `n` is one of them.
pub proof fn lemma_all_sorted_below_contains(s: Seq<usize>, n: nat)
    requires
        sorted_below(s, n),
    ensures
        all_sorted_below(n).contains(s),
    decreases n,
{
    if n == 0 {
        if s.len() > 0 {
            assert(s[0] < 0);
        }
        assert(s == Seq::<usize>::empty());
    } else {
        let prev = all_sorted_below((n - 1) as nat);
        if s.len() > 0 && s.last() == (n - 1) as usize {
            let t = s.drop_last();
            assert forall|i: int| 0 <= i < t.len() implies t[i] < (n - 1) as nat by {
                assert(s[i] < s[s.len() - 1]);
            }
            lemma_all_sorted_below_contains(t, (n - 1) as nat);
            assert(t.push((n - 1) as usize) == s);
            let f = |s: Seq<usize>| s.push((n - 1) as usize);
            assert(prev.map(f).contains(f(t)));
        } else {
            assert forall|i: int| 0 <= i < s.len() implies s[i] < (n - 1) as nat by {
                if s[i] == n - 1 {
                    if i < s.len() - 1 {
                        assert(s[i] < s[s.len() - 1]);
                    }
                }
            }
            lemma_all_sorted_below_contains(s, (n - 1) as nat);
        }
    }
}

/// A list of distinct strictly increasing sequences below `n` has at most `2^n` entries.
pub proof fn lemma_distinct_sorted_count(list: Seq<Seq<usize>>, n: nat)
    requires
        list.no_duplicates(),
        forall|i: int| 0 <= i < list.len() ==> sorted_below(#[trigger] list[i], n),
    ensures
        list.len() <= pow2(n),
{
    lemma_all_sorted_below_len(n);
    assert forall|s: Seq<usize>| list.to_set().contains(s) implies all_sorted_below(n).contains(
        s,
    ) by {
        let i = choose|i: int| 0 <= i < list.len() && list[i] == s;
        lemma_all_sorted_below_contains(s, n);
    }
    vstd::set_lib::lemma_len_subset(list.to_set(), all_sorted_below(n));
    list.unique_seq_to_set();
}

/// A strictly increasing sequence below `n` has at most `n` entries.
pub proof fn lemma_sorted_below_len(s: Seq<usize>, n: nat)
    requires
        sorted_below(s, n),
    ensures
        s.len() <= n,
{
    assert forall|i: int| 0 <= i < s.len() implies s[i] >= i by {
        lemma_sorted_ge_index(s, i);
    }
    if s.len() > 0 {
        assert(s[s.len() - 1] >= s.len() - 1);
    }
}

proof fn lemma_sorted_ge_index(s: Seq<usize>, i: int)
    requires
        strictly_sorted(s),
        0 <= i < s.len(),
    ensures
        s[i] >= i,
    decreases i,
{
    if i > 0 {
        lemma_sorted_ge_index(s, i - 1);
    }
}

} // verus!

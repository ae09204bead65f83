use vstd::prelude::*;

verus! {

/// Keys that a `MoveSorter` can order its elements by: a strict weak order.
pub trait SortKey: Sized {
    /// `self` sorts strictly below `other`.
    spec fn spec_less(self, other: Self) -> bool;

    /// The order is asymmetric, and "not below" is transitive.
    proof fn lemma_order(a: Self, b: Self, c: Self)
        ensures
            !(a.spec_less(b) && b.spec_less(a)),
            !a.spec_less(b) && !b.spec_less(c) ==> !a.spec_less(c),
    ;

    /// Does `self` sort strictly below `other`?
    fn less(&self, other: &Self) -> (r: bool)
        ensures
            r == self.spec_less(*other),
    ;
}

impl SortKey for isize {
    open spec fn spec_less(self, other: Self) -> bool {
        self < other
    }

    proof fn lemma_order(a: Self, b: Self, c: Self) {
    }

    fn less(&self, other: &Self) -> (r: bool) {
        *self < *other
    }
}

impl SortKey for usize {
    open spec fn spec_less(self, other: Self) -> bool {
        self < other
    }

    proof fn lemma_order(a: Self, b: Self, c: Self) {
    }

    fn less(&self, other: &Self) -> (r: bool) {
        *self < *other
    }
}

impl SortKey for (usize, usize) {
    /// Lexicographic order.
    open spec fn spec_less(self, other: Self) -> bool {
        self.0 < other.0 || (self.0 == other.0 && self.1 < other.1)
    }

    proof fn lemma_order(a: Self, b: Self, c: Self) {
    }

    fn less(&self, other: &Self) -> (r: bool) {
        self.0 < other.0 || (self.0 == other.0 && self.1 < other.1)
    }
}

/// Where `push_sorting` puts a new element with key `k`: just after the last
/// element whose key is not below `k`, i.e. before the trailing run of
/// elements with keys below `k`.
pub open spec fn insert_pos<K: SortKey, T>(s: Seq<(K, T)>, k: K) -> int
    decreases s.len(),
{
    if s.len() == 0 {
        0
    } else if s.last().0.spec_less(k) {
        insert_pos(s.drop_last(), k)
    } else {
        s.len() as int
    }
}

/// Sorted descending: no key is below a later one.
pub open spec fn sorted_desc<K: SortKey, T>(s: Seq<(K, T)>) -> bool {
    forall|i: int, j: int| 0 <= i < j < s.len() ==> !(#[trigger] s[i].0).spec_less(#[trigger] s[j].0)
}

/// Every element after the insert position has a key below `k`, and the one
/// just before it has not.
pub proof fn lemma_insert_pos<K: SortKey, T>(s: Seq<(K, T)>, k: K)
    ensures
        0 <= insert_pos(s, k) <= s.len(),
        forall|j: int| insert_pos(s, k) <= j < s.len() ==> (#[trigger] s[j].0).spec_less(k),
        insert_pos(s, k) > 0 ==> !s[insert_pos(s, k) - 1].0.spec_less(k),
    decreases s.len(),
{
    if s.len() > 0 && s.last().0.spec_less(k) {
        lemma_insert_pos(s.drop_last(), k);
        assert forall|j: int| insert_pos(s, k) <= j < s.len() implies (#[trigger] s[j].0).spec_less(
            k,
        ) by {
            if j < s.len() - 1 {
                assert(s[j] == s.drop_last()[j]);
            }
        }
    }
}

/// The elements of `s` pushed one by one, the way `push_sorting` does.
pub open spec fn sort_all<K: SortKey, T>(s: Seq<(K, T)>) -> Seq<(K, T)>
    decreases s.len(),
{
    if s.len() == 0 {
        Seq::empty()
    } else {
        let p = sort_all(s.drop_last());
        p.insert(insert_pos(p, s.last().0), s.last())
    }
}

/// Pushing elements one by one gives a sorted sequence with the same elements.
pub proof fn lemma_sort_all<K: SortKey, T>(s: Seq<(K, T)>)
    ensures
        sorted_desc(sort_all(s)),
        sort_all(s).len() == s.len(),
        sort_all(s).to_multiset() == s.to_multiset(),
    decreases s.len(),
{
    if s.len() > 0 {
        let p = sort_all(s.drop_last());
        lemma_sort_all(s.drop_last());
        lemma_insert_pos(p, s.last().0);
        lemma_push_sorted(p, s.last().0, s.last().1);
        vstd::seq_lib::to_multiset_insert(p, insert_pos(p, s.last().0), s.last());
        s.drop_last().to_multiset_ensures();
        assert(s.drop_last().push(s.last()) =~= s);
    } else {
        s.to_multiset_ensures();
        sort_all(s).to_multiset_ensures();
        assert(sort_all(s).to_multiset() =~= s.to_multiset());
    }
}

/// Inserting at the insert position keeps a descending sequence sorted, and
/// places the new element after every element with an equal key.
pub proof fn lemma_push_sorted<K: SortKey, T>(s: Seq<(K, T)>, k: K, e: T)
    requires
        sorted_desc(s),
    ensures
        sorted_desc(s.insert(insert_pos(s, k), (k, e))),
{
    lemma_insert_pos(s, k);
    let p = insert_pos(s, k);
    let q = s.insert(p, (k, e));
    assert forall|i: int, j: int| 0 <= i < j < q.len() implies !(#[trigger] q[i].0).spec_less(
        #[trigger] q[j].0,
    ) by {
        if i < p && j < p {
            assert(q[i] == s[i] && q[j] == s[j]);
        } else if i < p && j == p {
            assert(q[i] == s[i]);
            if i < p - 1 {
                assert(!s[i].0.spec_less(s[p - 1].0));
                K::lemma_order(s[i].0, s[p - 1].0, k);
            }
        } else if i < p {
            assert(q[i] == s[i] && q[j] == s[j - 1]);
        } else if i == p {
            assert(q[j] == s[j - 1]);
            assert(s[j - 1].0.spec_less(k));
            K::lemma_order(s[j - 1].0, k, k);
        } else {
            assert(q[i] == s[i - 1] && q[j] == s[j - 1]);
        }
    }
}

/// Datastructure optimised for a fast push
/// and sort (descending) iteration,
/// i.e. for algorithms to push possible moves onto
/// and then go through them
/// ordered (descending) by some heuristic.
/// Current implementation is an insertion sort on each
/// push, which is fast for small arrays and stable.
/// It holds at most `N` elements.
pub struct MoveSorter<const N: usize, K: SortKey, T> {
    elems: Vec<(K, T)>,
}

impl<const N: usize, K: SortKey, T> View for MoveSorter<N, K, T> {
    type V = Seq<(K, T)>;

    closed spec fn view(&self) -> Seq<(K, T)> {
        self.elems@
    }
}

impl<const N: usize, K: SortKey, T> MoveSorter<N, K, T> {
    /// Construct a new empty MoveSorter
    pub fn new() -> (s: Self)
        ensures
            s@ == Seq::<(K, T)>::empty(),
    {
        MoveSorter { elems: Vec::new() }
    }

    /// Is the sorter empty?
    pub fn is_empty(&self) -> (b: bool)
        ensures
            b == (self@.len() == 0),
    {
        self.elems.len() == 0
    }

    /// Number of elements in the sorter.
    pub fn len(&self) -> (n: usize)
        ensures
            n == self@.len(),
    {
        self.elems.len()
    }

    /// Move sorter containing a single element
    pub fn singleton(key: K, elem: T) -> (s: Self)
        requires
            0 < N,
        ensures
            s@ == seq![(key, elem)],
    {
        let mut elems = Vec::new();
        elems.push((key, elem));
        MoveSorter { elems }
    }

    /// Add the elem and sort descending by the given score:
    /// it goes after every element whose key is not below `score`.
    pub fn push_sorting(&mut self, score: K, elem: T)
        requires
            old(self)@.len() < N,
        ensures
            final(self)@ == old(self)@.insert(insert_pos(old(self)@, score), (score, elem)),
    {
        let ghost s = self@;
        proof {
            assert(s.subrange(0, s.len() as int) =~= s);
        }
        let mut i = self.elems.len();
        while i > 0 && self.elems[i - 1].0.less(&score)
            invariant
                self@ == s,
                i <= s.len(),
                insert_pos(s, score) == insert_pos(s.subrange(0, i as int), score),
            decreases i,
        {
            proof {
                assert(s.subrange(0, i as int).drop_last() =~= s.subrange(0, i - 1));
            }
            i -= 1;
        }
        proof {
            if i > 0 {
                assert(s.subrange(0, i as int).last() == s[i - 1]);
            }
        }
        self.elems.insert(i, (score, elem));
    }

    /// The sorter holding the given elements, pushed one by one.
    pub fn from_items(items: Vec<(K, T)>) -> (s: Self)
        requires
            items.len() <= N,
        ensures
            s@ == sort_all(items@),
    {
        let mut items = items;
        let ghost all = items@;
        let mut rest: Vec<(K, T)> = Vec::new();
        while items.len() > 0
            invariant
                items@ == all.subrange(0, items@.len() as int),
                rest@.len() + items@.len() == all.len(),
                forall|j: int| 0 <= j < rest@.len() ==> #[trigger] rest@[j] == all[all.len() - 1 - j],
            decreases items.len(),
        {
            let x = items.pop().unwrap();
            rest.push(x);
        }
        let mut sorter = Self::new();
        proof {
            assert(all.subrange(0, 0) =~= Seq::<(K, T)>::empty());
        }
        while rest.len() > 0
            invariant
                all.len() <= N,
                rest@.len() <= all.len(),
                forall|j: int| 0 <= j < rest@.len() ==> #[trigger] rest@[j] == all[all.len() - 1 - j],
                sorter@ == sort_all(all.subrange(0, all.len() - rest@.len())),
                sorter@.len() == all.len() - rest@.len(),
            decreases rest.len(),
        {
            let ghost k = all.len() - rest@.len();
            let (key, elem) = rest.pop().unwrap();
            proof {
                lemma_insert_pos(sorter@, key);
                assert(all.subrange(0, k + 1).drop_last() =~= all.subrange(0, k));
                assert(all.subrange(0, k + 1).last() == all[k]);
            }
            sorter.push_sorting(key, elem);
        }
        proof {
            assert(all.subrange(0, all.len() as int) =~= all);
        }
        sorter
    }

    /// The elements in order, without their keys.
    pub fn into_items(self) -> (v: Vec<T>)
        ensures
            v@.len() == self@.len(),
            forall|i: int| 0 <= i < v@.len() ==> v@[i] == (#[trigger] self@[i]).1,
    {
        let mut elems = self.elems;
        let ghost s = elems@;
        let mut out: Vec<T> = Vec::new();
        let mut i: usize = 0;
        while elems.len() > 0
            invariant
                elems@.len() + out@.len() == s.len(),
                forall|j: int| 0 <= j < out@.len() ==> out@[j] == (#[trigger] s[s.len() - 1 - j]).1,
                elems@ == s.subrange(0, elems@.len() as int),
            decreases elems.len(),
        {
            let (_, elem) = elems.pop().unwrap();
            out.push(elem);
        }
        let mut v: Vec<T> = Vec::new();
        while out.len() > 0
            invariant
                v@.len() + out@.len() == s.len(),
                forall|j: int| 0 <= j < out@.len() ==> out@[j] == (#[trigger] s[s.len() - 1 - j]).1,
                forall|j: int| 0 <= j < v@.len() ==> v@[j] == (#[trigger] s[j]).1,
            decreases out.len(),
        {
            proof {
                let n = out@.len() - 1;
                assert(out@[n] == s[s.len() - 1 - n].1);
            }
            let elem = out.pop().unwrap();
            v.push(elem);
        }
        v
    }
}

} // verus!

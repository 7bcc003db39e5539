//! An ascending sequence of timestamps with rank queries.

use vstd::prelude::*;

verus! {

/// The elements of `s` never decrease from left to right.
pub open spec fn is_sorted(s: Seq<i64>) -> bool {
    forall|i: int, j: int| 0 <= i <= j < s.len() ==> s[i] <= s[j]
}

/// The predicate "is less than or equal to `key`".
pub open spec fn at_most(key: i64) -> spec_fn(i64) -> bool {
    |x: i64| x <= key
}

/// The predicate "is strictly greater than `key`".
pub open spec fn above(key: i64) -> spec_fn(i64) -> bool {
    |x: i64| x > key
}

/// How many elements of `s` are less than or equal to `key`.
pub open spec fn count_le(s: Seq<i64>, key: i64) -> nat {
    s.filter(at_most(key)).len()
}

/// `s` with `key` placed directly behind every element that is less than or
/// equal to it.
pub open spec fn insert_sorted(s: Seq<i64>, key: i64) -> Seq<i64> {
    s.insert(count_le(s, key) as int, key)
}

/// `idx` parts `s` into the elements that are at most `key` and those above it.
pub open spec fn is_boundary(s: Seq<i64>, key: i64, idx: int) -> bool {
    &&& 0 <= idx <= s.len()
    &&& forall|i: int| 0 <= i < idx ==> s[i] <= key
    &&& forall|i: int| idx <= i < s.len() ==> s[i] > key
}

/// A filter keeps a sequence whole when every element passes.
pub proof fn lemma_filter_keeps_all(s: Seq<i64>, pred: spec_fn(i64) -> bool)
    requires
        forall|i: int| 0 <= i < s.len() ==> pred(s[i]),
    ensures
        s.filter(pred) == s,
    decreases s.len(),
{
    reveal(Seq::filter);
    if s.len() > 0 {
        lemma_filter_keeps_all(s.drop_last(), pred);
        assert(s.drop_last().push(s.last()) =~= s);
    }
}

/// A filter leaves nothing when no element passes.
pub proof fn lemma_filter_drops_all(s: Seq<i64>, pred: spec_fn(i64) -> bool)
    requires
        forall|i: int| 0 <= i < s.len() ==> !pred(s[i]),
    ensures
        s.filter(pred) == Seq::<i64>::empty(),
    decreases s.len(),
{
    reveal(Seq::filter);
    if s.len() > 0 {
        lemma_filter_drops_all(s.drop_last(), pred);
    }
}

/// At a boundary the two filters are the prefix and the suffix.
pub proof fn lemma_boundary_splits(s: Seq<i64>, key: i64, idx: int)
    requires
        is_boundary(s, key, idx),
    ensures
        s.filter(at_most(key)) == s.take(idx),
        s.filter(above(key)) == s.skip(idx),
        count_le(s, key) == idx,
{
    let head = s.take(idx);
    let tail = s.skip(idx);
    assert(s =~= head + tail);
    Seq::filter_distributes_over_add(head, tail, at_most(key));
    Seq::filter_distributes_over_add(head, tail, above(key));
    lemma_filter_keeps_all(head, at_most(key));
    lemma_filter_drops_all(tail, at_most(key));
    lemma_filter_drops_all(head, above(key));
    lemma_filter_keeps_all(tail, above(key));
    assert(head + Seq::<i64>::empty() =~= head);
    assert(Seq::<i64>::empty() + tail =~= tail);
}

/// A sorted sequence has a boundary for every key.
pub proof fn lemma_sorted_has_boundary(s: Seq<i64>, key: i64) -> (idx: int)
    requires
        is_sorted(s),
    ensures
        is_boundary(s, key, idx),
    decreases s.len(),
{
    if s.len() == 0 {
        0
    } else if s.last() <= key {
        assert forall|i: int| 0 <= i < s.len() implies s[i] <= key by {
            assert(s[i] <= s[s.len() - 1]);
        }
        s.len() as int
    } else {
        let front = s.drop_last();
        assert forall|i: int, j: int| 0 <= i <= j < front.len() implies front[i] <= front[j] by {
            assert(s[i] <= s[j]);
        }
        let idx = lemma_sorted_has_boundary(front, key);
        assert forall|i: int| 0 <= i < idx implies s[i] <= key by {
            assert(front[i] <= key);
        }
        assert forall|i: int| idx <= i < s.len() implies s[i] > key by {
            if i < front.len() {
                assert(front[i] > key);
            }
        }
        idx
    }
}

/// In a sorted sequence the count of elements at most `key` is a boundary.
pub proof fn lemma_count_is_boundary(s: Seq<i64>, key: i64)
    requires
        is_sorted(s),
    ensures
        is_boundary(s, key, count_le(s, key) as int),
{
    let idx = lemma_sorted_has_boundary(s, key);
    lemma_boundary_splits(s, key, idx);
}

/// Placing `key` at its boundary keeps a sorted sequence sorted and adds
/// exactly one occurrence of `key`.
pub proof fn lemma_insert_sorted(s: Seq<i64>, key: i64)
    requires
        is_sorted(s),
    ensures
        is_sorted(insert_sorted(s, key)),
        insert_sorted(s, key).to_multiset() == s.to_multiset().insert(key),
        insert_sorted(s, key).len() == s.len() + 1,
{
    lemma_count_is_boundary(s, key);
    let idx = count_le(s, key) as int;
    let t = insert_sorted(s, key);
    assert forall|i: int, j: int| 0 <= i <= j < t.len() implies t[i] <= t[j] by {
        if i < idx && j > idx {
            assert(s[i] <= key && key < s[j - 1]);
        } else if i < idx && j < idx {
            assert(s[i] <= s[j]);
        } else if i > idx {
            assert(s[i - 1] <= s[j - 1]);
        }
    }
    broadcast use vstd::seq_lib::group_to_multiset_ensures;
    assert(t.remove(idx) =~= s);
    assert(t[idx] == key);
    assert(t.to_multiset().remove(key) =~= s.to_multiset());
    assert(t.contains(key));
    assert(t.to_multiset() =~= s.to_multiset().insert(key));
}

/// What a collection holds after the elements of `keys` have been inserted
/// one by one, from left to right, into an empty one.
pub open spec fn insert_all(keys: Seq<i64>) -> Seq<i64>
    decreases keys.len(),
{
    if keys.len() == 0 {
        Seq::empty()
    } else {
        insert_sorted(insert_all(keys.drop_last()), keys.last())
    }
}

/// Whatever is inserted, and in whatever order, the collection is sorted
/// after every insertion and holds exactly what was inserted.
pub proof fn lemma_insertions_stay_sorted(keys: Seq<i64>)
    ensures
        is_sorted(insert_all(keys)),
        insert_all(keys).to_multiset() == keys.to_multiset(),
        insert_all(keys).len() == keys.len(),
    decreases keys.len(),
{
    broadcast use vstd::seq_lib::group_to_multiset_ensures;
    if keys.len() > 0 {
        lemma_insertions_stay_sorted(keys.drop_last());
        lemma_insert_sorted(insert_all(keys.drop_last()), keys.last());
        assert(keys.drop_last().push(keys.last()) =~= keys);
    }
}

/// After any insertions, the rank of the greatest inserted value is the
/// number of insertions.
pub proof fn lemma_rank_of_greatest(keys: Seq<i64>, greatest: i64)
    requires
        keys.contains(greatest),
        forall|i: int| 0 <= i < keys.len() ==> keys[i] <= greatest,
    ensures
        count_le(insert_all(keys), greatest) == keys.len(),
{
    broadcast use vstd::seq_lib::group_to_multiset_ensures;
    lemma_insertions_stay_sorted(keys);
    let all = insert_all(keys);
    assert forall|i: int| 0 <= i < all.len() implies at_most(greatest)(all[i]) by {
        assert(all.contains(all[i]));
        assert(keys.to_multiset().count(all[i]) > 0);
        assert(keys.contains(all[i]));
    }
    lemma_filter_keeps_all(all, at_most(greatest));
}

/// Removing up to a cutoff leaves exactly the elements above it, so that
/// removing up to the same cutoff once more changes nothing.
pub proof fn lemma_remove_le_idempotent(s: Seq<i64>, cutoff: i64)
    ensures
        forall|i: int| 0 <= i < s.filter(above(cutoff)).len() ==> s.filter(above(cutoff))[i] > cutoff,
        s.filter(above(cutoff)).filter(above(cutoff)) == s.filter(above(cutoff)),
{
    let kept = s.filter(above(cutoff));
    assert forall|i: int| 0 <= i < kept.len() implies above(cutoff)(kept[i]) by {
        s.lemma_filter_pred(above(cutoff), i);
    }
    lemma_filter_keeps_all(kept, above(cutoff));
}

/// A sorted arrangement of given elements is the only one: two sorted
/// sequences that hold the same elements equally often are equal.
pub proof fn lemma_sorted_is_unique(x: Seq<i64>, y: Seq<i64>)
    requires
        is_sorted(x),
        is_sorted(y),
        x.to_multiset() == y.to_multiset(),
    ensures
        x == y,
{
    let leq = |a: i64, b: i64| a <= b;
    assert(vstd::relations::total_ordering(leq));
    vstd::seq_lib::lemma_sorted_unique(x, y, leq);
}

/// An ascending collection of timestamps in which duplicates may occur.
pub struct SortedVec {
    vec: Vec<i64>,
}

impl View for SortedVec {
    type V = Seq<i64>;

    closed spec fn view(&self) -> Seq<i64> {
        self.vec@
    }
}

impl SortedVec {
    /// The stored elements are in ascending order. Every constructor
    /// establishes this and every method keeps it.
    pub open spec fn wf(&self) -> bool {
        is_sorted(self@)
    }

    /// An empty collection.
    pub fn new() -> (out: Self)
        ensures
            out.wf(),
            out@ == Seq::<i64>::empty(),
    {
        Self { vec: Vec::new() }
    }

    /// The number of stored elements.
    pub fn len(&self) -> (n: usize)
        ensures
            n == self@.len(),
    {
        self.vec.len()
    }

    /// Whether nothing is stored.
    pub fn is_empty(&self) -> (b: bool)
        ensures
            b == (self@.len() == 0),
    {
        self.vec.len() == 0
    }

    /// The number of stored elements that are less than or equal to `key`.
    ///
    /// A binary search narrows down to the neighbourhood of `key`; a forward
    /// scan from there passes the run of elements that are still at most `key`.
    pub fn rank(&self, key: &i64) -> (count: usize)
        requires
            self.wf(),
        ensures
            count == count_le(self@, *key),
            is_boundary(self@, *key, count as int),
    {
        if self.vec.is_empty() {
            proof {
                lemma_boundary_splits(self@, *key, 0);
            }
            return 0;
        }
        let mut l: usize = 0;
        let mut r: usize = self.vec.len() - 1;
        let mut mid: usize = 0;

        while l < r
            invariant_except_break
                (forall|i: int| 0 <= i < mid ==> self.vec@[i] <= *key) || (mid == r && l <= r),
            invariant
                is_sorted(self.vec@),
                r < self.vec.len(),
                mid < self.vec.len(),
                forall|i: int| 0 <= i < l ==> self.vec@[i] < *key,
            ensures
                forall|i: int| 0 <= i < mid ==> self.vec@[i] <= *key,
            decreases r - l,
        {
            mid = l + (r - l) / 2;

            if self.vec[mid] < *key {
                l = mid + 1;
            } else if self.vec[mid] > *key {
                r = mid;
            } else {
                break;
            }
        }

        let mut end: usize = mid;
        while end < self.vec.len() && self.vec[end] <= *key
            invariant
                mid <= end <= self.vec.len(),
                forall|i: int| 0 <= i < end ==> self.vec@[i] <= *key,
            decreases self.vec.len() - end,
        {
            end += 1;
        }
        proof {
            lemma_boundary_splits(self@, *key, end as int);
        }
        end
    }
    /// Stores `key` directly behind every element that is less than or equal
    /// to it, so that equal elements stay in the order of their arrival.
    pub fn insert(&mut self, key: i64)
        requires
            old(self).wf(),
        ensures
            final(self).wf(),
            final(self)@ == insert_sorted(old(self)@, key),
    {
        let index = self.rank(&key);
        proof {
            lemma_insert_sorted(self@, key);
        }
        self.vec.insert(index, key);
    }

    /// The index of the last element equal to `key`, if there is one.
    pub fn position(&self, key: &i64) -> (found: Option<usize>)
        requires
            self.wf(),
        ensures
            found.is_none() <==> !self@.contains(*key),
            found matches Some(i) ==> {
                &&& i < self@.len()
                &&& self@[i as int] == *key
                &&& forall|j: int| i < j < self@.len() ==> self@[j] != *key
                &&& i + 1 == count_le(self@, *key)
            },
    {
        let pos = self.rank(key);
        if pos != 0 && self.vec[pos - 1] == *key {
            Some(pos - 1)
        } else {
            None
        }
    }

    /// The stored elements that are less than or equal to `key`, in order.
    pub fn get_le(&self, key: &i64) -> (prefix: &[i64])
        requires
            self.wf(),
        ensures
            prefix@ == self@.filter(at_most(*key)),
            prefix@ == self@.take(count_le(self@, *key) as int),
    {
        let index = self.rank(key);
        proof {
            lemma_boundary_splits(self@, *key, index as int);
        }
        vstd::slice::slice_subrange(self.vec.as_slice(), 0, index)
    }

    /// Discards every element that is less than or equal to `key`; the
    /// strictly greater ones stay, in order.
    pub fn remove_le(&mut self, key: &i64)
        requires
            old(self).wf(),
        ensures
            final(self).wf(),
            final(self)@ == old(self)@.filter(above(*key)),
            final(self)@ == old(self)@.skip(count_le(old(self)@, *key) as int),
    {
        let index = self.rank(key);
        proof {
            lemma_boundary_splits(self@, *key, index as int);
        }
        let kept = self.vec.split_off(index);
        self.vec = kept;
    }

    /// The collection that holds the elements of `vec`, put in ascending order.
    pub fn from_vec(vec: Vec<i64>) -> (out: Self)
        ensures
            out.wf(),
            out@.to_multiset() == vec@.to_multiset(),
            out@.len() == vec@.len(),
    {
        let mut out = Self::new();
        let mut i: usize = 0;
        proof {
            assert(vec@.take(0) =~= out@);
        }
        while i < vec.len()
            invariant
                i <= vec.len(),
                out.wf(),
                out@.to_multiset() == vec@.take(i as int).to_multiset(),
                out@.len() == i,
            decreases vec.len() - i,
        {
            proof {
                lemma_insert_sorted(out@, vec@[i as int]);
                broadcast use vstd::seq_lib::group_to_multiset_ensures;
                assert(vec@.take(i as int).push(vec@[i as int]) =~= vec@.take(i + 1));
            }
            out.insert(vec[i]);
            i += 1;
        }
        proof {
            assert(vec@.take(vec.len() as int) =~= vec@);
        }
        out
    }
}

impl AsRef<[i64]> for SortedVec {
    /// All stored elements, in ascending order.
    fn as_ref(&self) -> (all: &[i64])
        ensures
            all@ == self@,
    {
        self.vec.as_slice()
    }
}

} // verus!

//! Sorted collections over a user-defined strict total order.
//!
//! [`OrderedSet`] keeps its items in increasing order, so that the least and
//! the greatest item, and the predecessor of any item, are found by position.
//! [`OrderedMap`] pairs such a set with one value per key.

use vstd::prelude::*;

verus! {

/// A strict total order on the view of a type.
pub trait Ordered: View + Sized {
    /// Whether `a` comes strictly before `b`.
    spec fn before(a: Self::V, b: Self::V) -> bool;

    /// Nothing comes before itself.
    proof fn before_irreflexive(a: Self::V)
        ensures
            !Self::before(a, a),
    ;

    /// The order is transitive.
    proof fn before_transitive(a: Self::V, b: Self::V, c: Self::V)
        requires
            Self::before(a, b),
            Self::before(b, c),
        ensures
            Self::before(a, c),
    ;

    /// Any two different views are ordered one way or the other.
    proof fn before_total(a: Self::V, b: Self::V)
        ensures
            a == b || Self::before(a, b) || Self::before(b, a),
    ;

    /// Decides the order.
    fn is_before(&self, other: &Self) -> (r: bool)
        ensures
            r == Self::before(self@, other@),
    ;
}

/// Whether a sequence is strictly increasing.
pub open spec fn increasing<T: Ordered>(s: Seq<T::V>) -> bool {
    forall|i: int, j: int| #![trigger s[i], s[j]] 0 <= i < j < s.len() ==> T::before(s[i], s[j])
}

/// How many items of `s` come before `x`.
pub open spec fn rank<T: Ordered>(s: Seq<T::V>, x: T::V) -> nat
    decreases s.len(),
{
    if s.len() == 0 {
        0
    } else if T::before(s.last(), x) {
        rank::<T>(s.drop_last(), x) + 1
    } else {
        rank::<T>(s.drop_last(), x)
    }
}

/// The increasing sequence `s` with `x` added, unless it is there already.
pub open spec fn with_item<T: Ordered>(s: Seq<T::V>, x: T::V) -> Seq<T::V> {
    if s.contains(x) {
        s
    } else {
        s.insert(rank::<T>(s, x) as int, x)
    }
}

/// The increasing sequence `s` without `x`.
pub open spec fn without_item<T: Ordered>(s: Seq<T::V>, x: T::V) -> Seq<T::V> {
    if s.contains(x) {
        s.remove(rank::<T>(s, x) as int)
    } else {
        s
    }
}

/// The greatest item of the increasing sequence `s` that comes before `x`.
pub open spec fn predecessor<T: Ordered>(s: Seq<T::V>, x: T::V) -> Option<T::V> {
    if rank::<T>(s, x) == 0 {
        None
    } else {
        Some(s[rank::<T>(s, x) - 1])
    }
}

/// The rank of an item never exceeds the length.
pub proof fn lemma_rank_bound<T: Ordered>(s: Seq<T::V>, x: T::V)
    ensures
        rank::<T>(s, x) <= s.len(),
    decreases s.len(),
{
    if s.len() > 0 {
        lemma_rank_bound::<T>(s.drop_last(), x);
    }
}

/// In an increasing sequence the items before `x` are exactly the first
/// `rank(s, x)` ones.
pub proof fn lemma_rank_splits<T: Ordered>(s: Seq<T::V>, x: T::V)
    requires
        increasing::<T>(s),
    ensures
        rank::<T>(s, x) <= s.len(),
        forall|i: int| #![trigger s[i]] 0 <= i < s.len() ==> (T::before(s[i], x) <==> i < rank::<T>(s, x)),
    decreases s.len(),
{
    lemma_rank_bound::<T>(s, x);
    if s.len() > 0 {
        let front = s.drop_last();
        assert(increasing::<T>(front)) by {
            assert forall|i: int, j: int| #![trigger front[i], front[j]] 0 <= i < j < front.len() implies T::before(
                front[i],
                front[j],
            ) by {
                assert(front[i] == s[i] && front[j] == s[j]);
            }
        }
        lemma_rank_splits::<T>(front, x);
        let last = s.len() - 1;
        if T::before(s.last(), x) {
            assert forall|i: int| #![trigger s[i]] 0 <= i < s.len() implies T::before(s[i], x) by {
                if i < last {
                    T::before_transitive(s[i], s[last], x);
                }
            }
            assert(rank::<T>(front, x) == front.len()) by {
                if rank::<T>(front, x) < front.len() {
                    let i = rank::<T>(front, x) as int;
                    assert(front[i] == s[i]);
                }
            }
        } else {
            assert forall|i: int| #![trigger s[i]] 0 <= i < s.len() implies (T::before(s[i], x) <==> i < rank::<T>(s, x)) by {
                if i < last {
                    assert(front[i] == s[i]);
                }
            }
        }
    }
}

/// A position that splits an increasing sequence at `x` is the rank of `x`.
pub proof fn lemma_rank_unique<T: Ordered>(s: Seq<T::V>, x: T::V, n: int)
    requires
        increasing::<T>(s),
        0 <= n <= s.len(),
        forall|i: int| #![trigger s[i]] 0 <= i < n ==> T::before(s[i], x),
        n < s.len() ==> !T::before(s[n], x),
    ensures
        n == rank::<T>(s, x),
{
    lemma_rank_splits::<T>(s, x);
    if n < rank::<T>(s, x) {
        assert(T::before(s[n], x));
    } else if n > rank::<T>(s, x) {
        let r = rank::<T>(s, x) as int;
        assert(T::before(s[r], x));
    }
}

/// `x` is in an increasing sequence exactly when it stands at its rank.
pub proof fn lemma_contains_at_rank<T: Ordered>(s: Seq<T::V>, x: T::V)
    requires
        increasing::<T>(s),
    ensures
        s.contains(x) <==> (rank::<T>(s, x) < s.len() && s[rank::<T>(s, x) as int] == x),
{
    lemma_rank_splits::<T>(s, x);
    if s.contains(x) {
        let i = s.index_of(x);
        assert(s[i] == x);
        T::before_irreflexive(x);
        let r = rank::<T>(s, x) as int;
        if r < i {
            assert(T::before(s[r], s[i]));
            assert(!T::before(s[r], x));
        }
    }
}

/// Adding an item keeps the sequence increasing and adds that item alone.
pub proof fn lemma_with_item<T: Ordered>(s: Seq<T::V>, x: T::V)
    requires
        increasing::<T>(s),
    ensures
        increasing::<T>(with_item::<T>(s, x)),
        forall|y: T::V| #[trigger] with_item::<T>(s, x).contains(y) <==> (s.contains(y) || y == x),
        with_item::<T>(s, x).len() == s.len() + if s.contains(x) { 0int } else { 1 },
{
    lemma_rank_splits::<T>(s, x);
    let t = with_item::<T>(s, x);
    let r = rank::<T>(s, x) as int;
    if !s.contains(x) {
        assert forall|i: int, j: int| #![trigger t[i], t[j]] 0 <= i < j < t.len() implies T::before(t[i], t[j]) by {
            let si = if i < r { i } else { i - 1 };
            let sj = if j < r { j } else { j - 1 };
            if i != r && j != r {
                assert(t[i] == s[si] && t[j] == s[sj]);
            } else if j == r {
                assert(t[i] == s[i]);
            } else {
                assert(t[j] == s[sj]);
                assert(s.contains(s[sj]));
                T::before_total(s[sj], x);
            }
        }
        assert forall|y: T::V| #[trigger] t.contains(y) <==> (s.contains(y) || y == x) by {
            if s.contains(y) {
                let i = s.index_of(y);
                let k = if i < r { i } else { i + 1 };
                assert(t[k] == y);
            }
            if y == x {
                assert(t[r] == x);
            }
            if t.contains(y) && y != x {
                let k = t.index_of(y);
                let i = if k < r { k } else { k - 1 };
                assert(s[i] == y);
            }
        }
    }
}

/// Removing an item keeps the sequence increasing and removes that item alone.
pub proof fn lemma_without_item<T: Ordered>(s: Seq<T::V>, x: T::V)
    requires
        increasing::<T>(s),
    ensures
        increasing::<T>(without_item::<T>(s, x)),
        forall|y: T::V| #[trigger] without_item::<T>(s, x).contains(y) <==> (s.contains(y) && y != x),
        without_item::<T>(s, x).len() == s.len() - if s.contains(x) { 1int } else { 0 },
{
    lemma_contains_at_rank::<T>(s, x);
    let t = without_item::<T>(s, x);
    let r = rank::<T>(s, x) as int;
    if s.contains(x) {
        assert forall|i: int, j: int| #![trigger t[i], t[j]] 0 <= i < j < t.len() implies T::before(t[i], t[j]) by {
            let si = if i < r { i } else { i + 1 };
            let sj = if j < r { j } else { j + 1 };
            assert(t[i] == s[si] && t[j] == s[sj]);
        }
        assert forall|y: T::V| #[trigger] t.contains(y) <==> (s.contains(y) && y != x) by {
            if s.contains(y) && y != x {
                let i = s.index_of(y);
                let k = if i < r { i } else { i - 1 };
                assert(t[k] == y);
            }
            if t.contains(y) {
                let k = t.index_of(y);
                let i = if k < r { k } else { k + 1 };
                assert(s[i] == y);
                T::before_irreflexive(x);
                if y == x {
                    if i < r {
                        assert(T::before(s[i], s[r]));
                    } else {
                        assert(T::before(s[r], s[i]));
                    }
                }
            }
        }
    }
}

/// A part of an increasing sequence is increasing.
pub proof fn lemma_increasing_subrange<T: Ordered>(s: Seq<T::V>, from: int, to: int)
    requires
        increasing::<T>(s),
        0 <= from <= to <= s.len(),
    ensures
        increasing::<T>(s.subrange(from, to)),
{
    let t = s.subrange(from, to);
    assert forall|i: int, j: int| #![trigger t[i], t[j]] 0 <= i < j < t.len() implies T::before(t[i], t[j]) by {
        assert(t[i] == s[from + i] && t[j] == s[from + j]);
    }
}

/// A set whose items are kept in increasing order.
pub struct OrderedSet<T> {
    pub items: Vec<T>,
}

impl<T: Ordered> View for OrderedSet<T> {
    type V = Seq<T::V>;

    open spec fn view(&self) -> Seq<T::V> {
        self.items@.map_values(|t: T| t@)
    }
}

impl<T: Ordered> OrderedSet<T> {
    /// The items are in increasing order.
    pub open spec fn wf(&self) -> bool {
        increasing::<T>(self@)
    }

    /// An empty set.
    pub fn new() -> (s: Self)
        ensures
            s@ == Seq::<T::V>::empty(),
            s.wf(),
    {
        OrderedSet { items: Vec::new() }
    }

    /// Number of items.
    pub fn len(&self) -> (n: usize)
        ensures
            n == self@.len(),
    {
        self.items.len()
    }

    /// Whether there is no item.
    pub fn is_empty(&self) -> (r: bool)
        ensures
            r == (self@.len() == 0),
    {
        self.items.len() == 0
    }

    /// The position of `x`, or the one at which it would be inserted.
    pub fn rank_of(&self, x: &T) -> (r: usize)
        requires
            self.wf(),
        ensures
            r == rank::<T>(self@, x@),
            r <= self@.len(),
    {
        let mut lo: usize = 0;
        let mut hi: usize = self.items.len();
        while lo < hi
            invariant
                lo <= hi <= self@.len(),
                self.wf(),
                self@.len() == self.items@.len(),
                forall|i: int| #![trigger self@[i]] 0 <= i < lo ==> T::before(self@[i], x@),
                hi < self@.len() ==> !T::before(self@[hi as int], x@),
            decreases hi - lo,
        {
            let mid: usize = lo + (hi - lo) / 2;
            assert(self@[mid as int] == self.items@[mid as int]@);
            if self.items[mid].is_before(x) {
                assert forall|i: int| #![trigger self@[i]] 0 <= i < mid + 1 implies T::before(self@[i], x@) by {
                    if i < mid {
                        T::before_transitive(self@[i], self@[mid as int], x@);
                    }
                }
                lo = mid + 1;
            } else {
                hi = mid;
            }
        }
        proof {
            lemma_rank_unique::<T>(self@, x@, lo as int);
        }
        lo
    }

    /// Whether `x` is in the set.
    pub fn contains(&self, x: &T) -> (r: bool)
        requires
            self.wf(),
        ensures
            r == self@.contains(x@),
    {
        let i: usize = self.rank_of(x);
        proof {
            lemma_contains_at_rank::<T>(self@, x@);
            lemma_rank_splits::<T>(self@, x@);
        }
        if i < self.items.len() {
            assert(self@[i as int] == self.items@[i as int]@);
            proof {
                T::before_irreflexive(x@);
                T::before_total(self@[i as int], x@);
            }
            !x.is_before(&self.items[i])
        } else {
            false
        }
    }

    /// Adds `x`; tells whether it was not there before.
    pub fn insert(&mut self, x: T) -> (added: bool)
        requires
            old(self).wf(),
        ensures
            final(self).wf(),
            final(self)@ == with_item::<T>(old(self)@, x@),
            added == !old(self)@.contains(x@),
    {
        proof {
            lemma_with_item::<T>(old(self)@, x@);
        }
        if self.contains(&x) {
            false
        } else {
            let i: usize = self.rank_of(&x);
            self.items.insert(i, x);
            assert(self@ =~= with_item::<T>(old(self)@, x@));
            true
        }
    }

    /// Removes `x`; tells whether it was there.
    pub fn remove(&mut self, x: &T) -> (removed: bool)
        requires
            old(self).wf(),
        ensures
            final(self).wf(),
            final(self)@ == without_item::<T>(old(self)@, x@),
            removed == old(self)@.contains(x@),
    {
        proof {
            lemma_without_item::<T>(old(self)@, x@);
            lemma_contains_at_rank::<T>(old(self)@, x@);
        }
        if self.contains(x) {
            let i: usize = self.rank_of(x);
            self.items.remove(i);
            assert(self@ =~= without_item::<T>(old(self)@, x@));
            true
        } else {
            false
        }
    }

    /// The least item.
    pub fn first(&self) -> (r: Option<&T>)
        ensures
            match r {
                Some(t) => self@.len() > 0 && t@ == self@.first(),
                None => self@.len() == 0,
            },
    {
        if self.items.len() == 0 {
            None
        } else {
            Some(&self.items[0])
        }
    }

    /// The greatest item.
    pub fn last(&self) -> (r: Option<&T>)
        ensures
            match r {
                Some(t) => self@.len() > 0 && t@ == self@.last(),
                None => self@.len() == 0,
            },
    {
        if self.items.len() == 0 {
            None
        } else {
            Some(&self.items[self.items.len() - 1])
        }
    }

    /// Removes and returns the least item.
    pub fn pop_first(&mut self) -> (r: Option<T>)
        requires
            old(self).wf(),
        ensures
            final(self).wf(),
            match r {
                Some(t) => old(self)@.len() > 0 && t@ == old(self)@.first() && final(self)@
                    == old(self)@.drop_first(),
                None => old(self)@.len() == 0 && final(self)@ == old(self)@,
            },
    {
        if self.items.len() == 0 {
            None
        } else {
            proof {
                lemma_increasing_subrange::<T>(self@, 1, self@.len() as int);
            }
            let t = self.items.remove(0);
            assert(self@ =~= old(self)@.drop_first());
            Some(t)
        }
    }

    /// Removes and returns the greatest item.
    pub fn pop_last(&mut self) -> (r: Option<T>)
        requires
            old(self).wf(),
        ensures
            final(self).wf(),
            match r {
                Some(t) => old(self)@.len() > 0 && t@ == old(self)@.last() && final(self)@
                    == old(self)@.drop_last(),
                None => old(self)@.len() == 0 && final(self)@ == old(self)@,
            },
    {
        proof {
            if self@.len() > 0 {
                lemma_increasing_subrange::<T>(self@, 0, self@.len() - 1);
            }
        }
        let r = self.items.pop();
        proof {
            if old(self)@.len() > 0 {
                assert(self@ =~= old(self)@.drop_last());
            }
        }
        r
    }

    /// The item at a position.
    pub fn at(&self, i: usize) -> (r: &T)
        requires
            i < self@.len(),
        ensures
            r@ == self@[i as int],
    {
        &self.items[i]
    }

    /// Takes out the item at a position.
    pub fn remove_at(&mut self, i: usize) -> (r: T)
        requires
            old(self).wf(),
            i < old(self)@.len(),
        ensures
            final(self).wf(),
            r@ == old(self)@[i as int],
            final(self)@ == old(self)@.remove(i as int),
    {
        let t = self.items.remove(i);
        proof {
            let s = old(self)@;
            assert(self@ =~= s.remove(i as int));
            assert forall|a: int, b: int| #![trigger self@[a], self@[b]] 0 <= a < b < self@.len() implies T::before(
                self@[a],
                self@[b],
            ) by {
                let sa = if a < i { a } else { a + 1 };
                let sb = if b < i { b } else { b + 1 };
                assert(self@[a] == s[sa] && self@[b] == s[sb]);
            }
        }
        t
    }

    /// The greatest item that comes before `x`.
    pub fn before(&self, x: &T) -> (r: Option<&T>)
        requires
            self.wf(),
        ensures
            match r {
                Some(t) => predecessor::<T>(self@, x@) == Some(t@),
                None => predecessor::<T>(self@, x@) is None,
            },
    {
        let i: usize = self.rank_of(x);
        if i == 0 {
            None
        } else {
            Some(&self.items[i - 1])
        }
    }
}

/// A map whose keys are kept in increasing order.
pub struct OrderedMap<K, T> {
    pub keys: OrderedSet<K>,
    pub values: Vec<T>,
}

impl<K: Ordered, T: View> View for OrderedMap<K, T> {
    type V = Map<K::V, T::V>;

    open spec fn view(&self) -> Map<K::V, T::V> {
        Map::new(
            |k: K::V| self.keys@.contains(k),
            |k: K::V| self.values@[rank::<K>(self.keys@, k) as int]@,
        )
    }
}

/// Inserting a key keeps the rank of the smaller ones and raises that of the
/// greater ones by one.
proof fn lemma_rank_after_insert<T: Ordered>(s: Seq<T::V>, x: T::V, y: T::V)
    requires
        increasing::<T>(s),
        !s.contains(x),
        s.contains(y),
    ensures
        ({
            let t = with_item::<T>(s, x);
            let r = rank::<T>(s, y);
            rank::<T>(t, y) == if r < rank::<T>(s, x) { r } else { r + 1 }
        }),
{
    let t = with_item::<T>(s, x);
    lemma_with_item::<T>(s, x);
    lemma_contains_at_rank::<T>(s, y);
    lemma_contains_at_rank::<T>(t, y);
    lemma_rank_splits::<T>(s, x);
    let r = rank::<T>(s, y) as int;
    let k = if r < rank::<T>(s, x) { r } else { r + 1 };
    assert(t[k] == y);
    let q = rank::<T>(t, y) as int;
    T::before_irreflexive(y);
    if q < k {
        assert(T::before(t[q], t[k]));
    } else if k < q {
        assert(T::before(t[k], t[q]));
    }
}

/// Removing a key keeps the rank of the smaller ones and lowers that of the
/// greater ones by one.
proof fn lemma_rank_after_remove<T: Ordered>(s: Seq<T::V>, x: T::V, y: T::V)
    requires
        increasing::<T>(s),
        s.contains(x),
        s.contains(y),
        x != y,
    ensures
        ({
            let t = without_item::<T>(s, x);
            let r = rank::<T>(s, y);
            rank::<T>(t, y) == if r < rank::<T>(s, x) { r as int } else { r - 1 }
        }),
{
    let t = without_item::<T>(s, x);
    lemma_without_item::<T>(s, x);
    lemma_contains_at_rank::<T>(s, x);
    lemma_contains_at_rank::<T>(s, y);
    lemma_contains_at_rank::<T>(t, y);
    let r = rank::<T>(s, y) as int;
    let k = if r < rank::<T>(s, x) { r } else { r - 1 };
    assert(t[k] == y);
    let q = rank::<T>(t, y) as int;
    T::before_irreflexive(y);
    if q < k {
        assert(T::before(t[q], t[k]));
    } else if k < q {
        assert(T::before(t[k], t[q]));
    }
}

impl<K: Ordered, T: View> OrderedMap<K, T> {
    /// The keys are in increasing order and each has a value.
    pub open spec fn wf(&self) -> bool {
        self.keys.wf() && self.values@.len() == self.keys@.len()
    }

    /// An empty map.
    pub fn new() -> (m: Self)
        ensures
            m.wf(),
            m.values@.len() == 0,
            m@ == Map::<K::V, T::V>::empty(),
    {
        let m = OrderedMap { keys: OrderedSet::new(), values: Vec::new() };
        assert(m@ =~= Map::<K::V, T::V>::empty());
        m
    }

    /// Number of keys.
    pub fn len(&self) -> (n: usize)
        requires
            self.wf(),
        ensures
            n == self@.dom().len(),
    {
        proof {
            let s = self.keys@;
            assert(s.no_duplicates()) by {
                assert forall|i: int, j: int| 0 <= i < s.len() && 0 <= j < s.len() && i != j implies s[i]
                    != s[j] by {
                    K::before_irreflexive(s[i]);
                    if i < j {
                        assert(K::before(s[i], s[j]));
                    } else {
                        assert(K::before(s[j], s[i]));
                    }
                }
            }
            s.unique_seq_to_set();
            assert(self@.dom() =~= s.to_set());
        }
        self.keys.len()
    }

    /// The position of a key.
    pub fn get_at(&self, k: &K) -> (r: Option<usize>)
        requires
            self.wf(),
        ensures
            match r {
                Some(i) => i < self.values@.len() && self@.contains_key(k@) && self@[k@]
                    == self.values@[i as int]@ && i == rank::<K>(self.keys@, k@),
                None => !self@.contains_key(k@),
            },
    {
        proof {
            lemma_contains_at_rank::<K>(self.keys@, k@);
        }
        if self.keys.contains(k) {
            Some(self.keys.rank_of(k))
        } else {
            None
        }
    }

    /// Takes out a key at its position, with its value.
    pub fn remove_at(&mut self, k: &K, i: usize) -> (v: T)
        requires
            old(self).wf(),
            old(self)@.contains_key(k@),
            i == rank::<K>(old(self).keys@, k@),
        ensures
            final(self).wf(),
            final(self)@ == old(self)@.remove(k@),
            old(self)@[k@] == v@,
            v == old(self).values@[i as int],
            final(self).values@ == old(self).values@.remove(i as int),
    {
        let ghost s = self.keys@;
        proof {
            lemma_contains_at_rank::<K>(s, k@);
        }
        self.keys.remove(k);
        let v = self.values.remove(i);
        proof {
            lemma_without_item::<K>(s, k@);
            assert forall|y: K::V| #[trigger] old(self)@.remove(k@).contains_key(y) implies self@[y]
                == old(self)@[y] by {
                lemma_rank_after_remove::<K>(s, k@, y);
                lemma_contains_at_rank::<K>(s, y);
                lemma_contains_at_rank::<K>(s, k@);
            }
            assert(self@ =~= old(self)@.remove(k@));
        }
        v
    }

    /// The value of a key.
    pub fn get(&self, k: &K) -> (r: Option<&T>)
        requires
            self.wf(),
        ensures
            match r {
                Some(v) => self@.contains_key(k@) && self@[k@] == v@,
                None => !self@.contains_key(k@),
            },
    {
        match self.get_at(k) {
            Some(i) => Some(&self.values[i]),
            None => None,
        }
    }

    /// Takes a key out, with its value.
    pub fn remove(&mut self, k: &K) -> (r: Option<T>)
        requires
            old(self).wf(),
        ensures
            final(self).wf(),
            final(self)@ == old(self)@.remove(k@),
            match r {
                Some(v) => old(self)@.contains_key(k@) && old(self)@[k@] == v@,
                None => !old(self)@.contains_key(k@),
            },
    {
        match self.get_at(k) {
            Some(i) => Some(self.remove_at(k, i)),
            None => {
                assert(self@ =~= old(self)@.remove(k@));
                None
            },
        }
    }

    /// Adds a key that is not there yet; tells its position.
    pub fn insert_new(&mut self, k: K, v: T) -> (at: usize)
        requires
            old(self).wf(),
            !old(self)@.contains_key(k@),
        ensures
            final(self).wf(),
            final(self)@ == old(self)@.insert(k@, v@),
            at <= old(self).values@.len(),
            final(self).values@ == old(self).values@.insert(at as int, v),
    {
        let ghost s = self.keys@;
        let ghost kv = k@;
        let i: usize = self.keys.rank_of(&k);
        self.values.insert(i, v);
        self.keys.insert(k);
        proof {
            lemma_with_item::<K>(s, kv);
            lemma_contains_at_rank::<K>(self.keys@, kv);
            lemma_rank_splits::<K>(s, kv);
            assert(rank::<K>(self.keys@, kv) == i) by {
                assert(self.keys@[i as int] == kv);
                K::before_irreflexive(kv);
                let q = rank::<K>(self.keys@, kv) as int;
                if q < i {
                    assert(K::before(self.keys@[q], self.keys@[i as int]));
                } else if i < q {
                    assert(K::before(self.keys@[i as int], self.keys@[q]));
                }
            }
            assert forall|y: K::V| #[trigger] old(self)@.contains_key(y) implies self@[y]
                == old(self)@[y] by {
                lemma_rank_after_insert::<K>(s, kv, y);
                lemma_contains_at_rank::<K>(s, y);
            }
            let after = old(self)@.insert(kv, v@);
            assert(self.keys@ == with_item::<K>(s, kv));
            assert forall|y: K::V| #[trigger] self@.contains_key(y) <==> after.contains_key(y) by {
                assert(with_item::<K>(s, kv).contains(y) <==> (s.contains(y) || y == kv));
            }
            assert forall|y: K::V| #[trigger] self@.contains_key(y) implies self@[y] == after[y] by {
                if y == kv {
                    assert(self.values@[i as int] == v);
                } else {
                    assert(old(self)@.contains_key(y));
                }
            }
            assert(self@ =~= after);
        }
        i
    }
}

} // verus!

//! A presence-only set of unsigned integer keys, backed by a bitmap window.
//!
//! Slot `k` of the backing vector records whether key `k` is a member, so
//! membership and insertion are constant-time for keys inside the window.
//! The window grows by exact resize when a key falls outside it and never
//! shrinks on removal.  The abstract value of a [`USet`] is the mathematical
//! set of its member keys, `Set<int>`.

use vstd::prelude::*;
use vstd::set_lib::lemma_len_subset;
use vstd::set_lib::lemma_int_range;
use vstd::set_lib::set_int_range;

verus! {

/// The set of keys present in a bitmap: the indices of the `true` slots.
pub open spec fn key_set(s: Seq<bool>) -> Set<int> {
    Set::new(|k: int| 0 <= k < s.len() && s[k])
}

/// The keys present in a bitmap, listed in ascending order.
pub open spec fn keys_seq(s: Seq<bool>) -> Seq<int>
    decreases s.len(),
{
    if s.len() == 0 {
        Seq::empty()
    } else if s.last() {
        keys_seq(s.drop_last()).push(s.len() - 1)
    } else {
        keys_seq(s.drop_last())
    }
}

/// The key set of a bitmap is finite, has the ascending key list as its
/// enumeration, and is never larger than the bitmap itself.
pub proof fn lemma_bitmap_keys(s: Seq<bool>)
    ensures
        key_set(s).finite(),
        key_set(s).len() == keys_seq(s).len(),
        keys_seq(s).len() <= s.len(),
        forall|i: int|
            0 <= i < keys_seq(s).len() ==> 0 <= #[trigger] keys_seq(s)[i] < s.len()
                && s[keys_seq(s)[i]],
        forall|i: int, j: int| 0 <= i < j < keys_seq(s).len() ==> keys_seq(s)[i] < keys_seq(s)[j],
        forall|k: int| #[trigger] key_set(s).contains(k) <==> keys_seq(s).contains(k),
    decreases s.len(),
{
    if s.len() == 0 {
        assert(key_set(s) =~= Set::<int>::empty());
        assert forall|k: int| keys_seq(s).contains(k) implies key_set(s).contains(k) by {}
    } else {
        let t = s.drop_last();
        lemma_bitmap_keys(t);
        if s.last() {
            let m = s.len() - 1;
            assert(key_set(s) =~= key_set(t).insert(m));
            assert(!key_set(t).contains(m));
            assert(keys_seq(s) == keys_seq(t).push(m));
            assert forall|k: int| #[trigger] key_set(s).contains(k) implies keys_seq(
                s,
            ).contains(k) by {
                if k == m {
                    assert(keys_seq(s)[keys_seq(s).len() - 1] == m);
                } else {
                    let i = choose|i: int| 0 <= i < keys_seq(t).len() && keys_seq(t)[i] == k;
                    assert(keys_seq(s)[i] == k);
                }
            }
            assert forall|k: int| keys_seq(s).contains(k) implies key_set(s).contains(k) by {
                let i = choose|i: int| 0 <= i < keys_seq(s).len() && keys_seq(s)[i] == k;
                if i < keys_seq(t).len() {
                    assert(keys_seq(t)[i] == k);
                }
            }
        } else {
            assert(key_set(s) =~= key_set(t));
            assert(keys_seq(s) == keys_seq(t));
        }
    }
}

/// Appending one slot to a bitmap extends its key set and key list by the
/// new index exactly when the slot is occupied.
pub proof fn lemma_bitmap_push(s: Seq<bool>, b: bool)
    ensures
        key_set(s.push(b)) == if b {
            key_set(s).insert(s.len() as int)
        } else {
            key_set(s)
        },
        keys_seq(s.push(b)) == if b {
            keys_seq(s).push(s.len() as int)
        } else {
            keys_seq(s)
        },
        key_set(s.push(b)).len() == key_set(s).len() + if b {
            1int
        } else {
            0int
        },
{
    lemma_bitmap_keys(s);
    let s2 = s.push(b);
    assert(s2.drop_last() =~= s);
    assert(s2.last() == b);
    if b {
        assert(key_set(s2) =~= key_set(s).insert(s.len() as int));
        assert(!key_set(s).contains(s.len() as int));
    } else {
        assert(key_set(s2) =~= key_set(s));
    }
}

/// Truncating a bitmap one slot before index `i` relates its key set and
/// key list to those of the truncation at `i`.
pub proof fn lemma_bitmap_take_step(s: Seq<bool>, i: int)
    requires
        0 <= i < s.len(),
    ensures
        key_set(s.take(i + 1)) == if s[i] {
            key_set(s.take(i)).insert(i)
        } else {
            key_set(s.take(i))
        },
        keys_seq(s.take(i + 1)) == if s[i] {
            keys_seq(s.take(i)).push(i)
        } else {
            keys_seq(s.take(i))
        },
        key_set(s.take(i + 1)).len() == key_set(s.take(i)).len() + if s[i] {
            1int
        } else {
            0int
        },
{
    assert(s.take(i + 1) =~= s.take(i).push(s[i]));
    lemma_bitmap_push(s.take(i), s[i]);
}

/// The key list of a bitmap prefix is a prefix of the full key list.
pub proof fn lemma_keys_seq_take_prefix(s: Seq<bool>, n: int)
    requires
        0 <= n <= s.len(),
    ensures
        keys_seq(s.take(n)).is_prefix_of(keys_seq(s)),
    decreases s.len() - n,
{
    if n == s.len() {
        assert(s.take(n) =~= s);
    } else {
        lemma_bitmap_take_step(s, n);
        lemma_keys_seq_take_prefix(s, n + 1);
        assert(keys_seq(s.take(n)).is_prefix_of(keys_seq(s.take(n + 1))));
    }
}

/// Bitmap-backed set of unsigned integer keys.
///
/// Key `k` is a member exactly when slot `k` of the backing vector holds
/// `true`.  The tracked `len` field caches the number of members.
pub struct USet {
    slots: Vec<bool>,
    len: usize,
}

impl View for USet {
    type V = Set<int>;

    closed spec fn view(&self) -> Set<int> {
        key_set(self.slots@)
    }
}

/// State-carrying cursor for bidirectional traversal of a [`USet`].
///
/// `index` is the next slot the forward direction will examine; `rindex`
/// counts the slots already consumed from the rear.  Both directions may be
/// interleaved: they meet in the middle without revisiting a key.
pub struct USetIter {
    index: usize,
    rindex: usize,
}

impl USet {
    /// The cached member count agrees with the bitmap.
    pub closed spec fn inv(self) -> bool {
        self.len == key_set(self.slots@).len()
    }

    /// Length of the backing window.
    pub closed spec fn spec_capacity(self) -> nat {
        self.slots@.len()
    }

    /// The member keys in ascending order.
    pub closed spec fn keys(self) -> Seq<int> {
        keys_seq(self.slots@)
    }

    /// The member count never exceeds the window size, the key list
    /// enumerates the abstract set in ascending order, and every member
    /// fits inside the window.
    pub proof fn lemma_keys(self)
        requires
            self.inv(),
        ensures
            self@.finite(),
            self@.len() == self.keys().len(),
            self@.len() <= self.spec_capacity(),
            forall|i: int|
                0 <= i < self.keys().len() ==> 0 <= #[trigger] self.keys()[i]
                    < self.spec_capacity() && self@.contains(self.keys()[i]),
            forall|i: int, j: int|
                0 <= i < j < self.keys().len() ==> self.keys()[i] < self.keys()[j],
            forall|k: int| #[trigger] self@.contains(k) <==> self.keys().contains(k),
            forall|k: int| self@.contains(k) ==> 0 <= k < self.spec_capacity(),
    {
        lemma_bitmap_keys(self.slots@);
    }

    /// An empty set with no backing window.
    pub fn new() -> (r: USet)
        ensures
            r.inv(),
            r@ == Set::<int>::empty(),
            r.spec_capacity() == 0,
    {
        USet::with_capacity(0)
    }

    /// Same as [`USet::new`].
    pub fn default() -> (r: USet)
        ensures
            r.inv(),
            r@ == Set::<int>::empty(),
            r.spec_capacity() == 0,
    {
        USet::new()
    }

    /// An empty set whose window already spans the keys `0 .. size`.
    pub fn with_capacity(size: usize) -> (r: USet)
        ensures
            r.inv(),
            r@ == Set::<int>::empty(),
            r.spec_capacity() == size,
    {
        let mut slots: Vec<bool> = Vec::new();
        proof {
            assert(key_set(slots@) =~= Set::<int>::empty());
        }
        let mut i: usize = 0;
        while i < size
            invariant
                i <= size,
                slots@.len() == i,
                key_set(slots@) == Set::<int>::empty(),
                keys_seq(slots@) == Seq::<int>::empty(),
            decreases size - i,
        {
            proof {
                lemma_bitmap_push(slots@, false);
            }
            slots.push(false);
            i = i + 1;
        }
        proof {
            assert(Set::<int>::empty().len() == 0);
        }
        USet { slots, len: 0 }
    }

    /// Number of member keys.
    pub fn len(&self) -> (r: usize)
        requires
            self.inv(),
        ensures
            r == self@.len(),
    {
        self.len
    }

    /// Whether the set has no members.
    pub fn is_empty(&self) -> (r: bool)
        requires
            self.inv(),
        ensures
            r == (self@.len() == 0),
            r == self@.is_empty(),
    {
        proof {
            self.lemma_keys();
            if self.len == 0 {
                self@.lemma_len0_is_empty();
            }
        }
        self.len == 0
    }

    /// Size of the backing window: the exclusive upper bound on keys the
    /// window can currently record.
    pub fn capacity(&self) -> (r: usize)
        ensures
            r == self.spec_capacity(),
    {
        self.slots.len()
    }

    /// Constant-time membership test; `false` for any key outside the window.
    pub fn contains(&self, key: usize) -> (r: bool)
        ensures
            r == self@.contains(key as int),
    {
        key < self.slots.len() && self.slots[key]
    }

    /// Inserts a key, growing the window by exact resize when the key falls
    /// outside it.  Inserting a present key is a no-op.
    pub fn add(&mut self, key: usize)
        requires
            old(self).inv(),
            key < usize::MAX,
        ensures
            final(self).inv(),
            final(self)@ == old(self)@.insert(key as int),
            final(self)@.len() == old(self)@.len() + if old(self)@.contains(key as int) {
                0int
            } else {
                1int
            },
            final(self).spec_capacity() == if key as int >= old(self).spec_capacity() {
                key + 1
            } else {
                old(self).spec_capacity() as int
            },
    {
        proof {
            self.lemma_keys();
        }
        if key >= self.slots.len() {
            let ghost before = self.slots@;
            self.slots.resize(key + 1, false);
            proof {
                assert forall|i: int| 0 <= i < self.slots@.len() implies self.slots@[i] == (0 <= i
                    < before.len() && before[i]) by {
                    if i >= before.len() {
                        assert(cloned::<bool>(false, self.slots@[i]));
                    }
                }
                assert(key_set(self.slots@) =~= key_set(before));
            }
        }
        if !self.slots[key] {
            let cap = self.slots.len();
            proof {
                lemma_bitmap_keys(self.slots@);
                lemma_int_range(0, cap as int);
                assert(key_set(self.slots@).subset_of(
                    set_int_range(0, cap as int).remove(key as int),
                ));
                lemma_len_subset(
                    key_set(self.slots@),
                    set_int_range(0, cap as int).remove(key as int),
                );
            }
            let ghost before = self.slots@;
            self.slots.set(key, true);
            self.len = self.len + 1;
            proof {
                assert(key_set(self.slots@) =~= key_set(before).insert(key as int));
                assert(!key_set(before).contains(key as int));
                assert(final(self)@ =~= old(self)@.insert(key as int));
            }
        } else {
            proof {
                assert(final(self)@ =~= old(self)@.insert(key as int));
            }
        }
    }

    /// Removes a key; a no-op when the key is absent.  The window never
    /// shrinks on removal.
    pub fn remove(&mut self, key: usize)
        requires
            old(self).inv(),
        ensures
            final(self).inv(),
            final(self)@ == old(self)@.remove(key as int),
            final(self)@.len() == old(self)@.len() - if old(self)@.contains(key as int) {
                1int
            } else {
                0int
            },
            final(self).spec_capacity() == old(self).spec_capacity(),
    {
        proof {
            self.lemma_keys();
        }
        if key < self.slots.len() && self.slots[key] {
            let ghost before = self.slots@;
            self.slots.set(key, false);
            proof {
                assert(key_set(before).contains(key as int));
                if self.len == 0 {
                    key_set(before).lemma_len0_is_empty();
                }
                assert(key_set(self.slots@) =~= key_set(before).remove(key as int));
            }
            self.len = self.len - 1;
        } else {
            proof {
                assert(final(self)@ =~= old(self)@.remove(key as int));
            }
        }
    }

    /// Smallest member key.
    fn min_key(&self) -> (r: usize)
        requires
            self.inv(),
            self@.len() > 0,
        ensures
            self@.contains(r as int),
            forall|k: int| self@.contains(k) ==> r <= k,
    {
        let mut i: usize = 0;
        while i < self.slots.len()
            invariant
                i <= self.slots@.len(),
                forall|j: int| 0 <= j < i ==> !self@.contains(j),
            decreases self.slots@.len() - i,
        {
            if self.slots[i] {
                return i;
            }
            i = i + 1;
        }
        proof {
            self.lemma_keys();
            assert(self@ =~= Set::<int>::empty());
        }
        unreached()
    }

    /// Largest member key.
    fn max_key(&self) -> (r: usize)
        requires
            self.inv(),
            self@.len() > 0,
        ensures
            self@.contains(r as int),
            forall|k: int| self@.contains(k) ==> k <= r,
    {
        let mut i: usize = self.slots.len();
        while i > 0
            invariant
                i <= self.slots@.len(),
                forall|j: int| i <= j < self.slots@.len() ==> !self@.contains(j),
            decreases i,
        {
            i = i - 1;
            if self.slots[i] {
                return i;
            }
        }
        proof {
            self.lemma_keys();
            assert(self@ =~= Set::<int>::empty());
        }
        unreached()
    }

    /// The `rank`-th smallest member key, or `None` when fewer than
    /// `rank + 1` keys are present.
    fn find_by_index(&self, rank: usize) -> (r: Option<usize>)
        requires
            self.inv(),
        ensures
            match r {
                Some(k) => rank < self@.len() && k as int == self.keys()[rank as int],
                None => rank >= self@.len(),
            },
    {
        proof {
            self.lemma_keys();
        }
        let ghost s = self.slots@;
        let mut count: usize = 0;
        let mut i: usize = 0;
        while i < self.slots.len()
            invariant
                self.inv(),
                s == self.slots@,
                i <= s.len(),
                count <= rank,
                count == keys_seq(s.take(i as int)).len(),
            decreases s.len() - i,
        {
            proof {
                lemma_bitmap_take_step(s, i as int);
                lemma_bitmap_keys(s.take(i as int));
            }
            if self.slots[i] {
                if count == rank {
                    proof {
                        lemma_keys_seq_take_prefix(s, i + 1);
                        self.lemma_keys();
                        assert(keys_seq(s.take(i + 1))[rank as int] == i as int);
                        assert(self.keys()[rank as int] == i as int);
                    }
                    return Some(i);
                }
                count = count + 1;
            }
            i = i + 1;
        }
        proof {
            assert(s.take(s.len() as int) =~= s);
            self.lemma_keys();
        }
        None
    }

    /// Removes and returns the `rank`-th smallest member key; `None` when
    /// fewer than `rank + 1` keys are present, leaving the set unchanged.
    pub fn pop(&mut self, rank: usize) -> (r: Option<usize>)
        requires
            old(self).inv(),
        ensures
            final(self).inv(),
            final(self).spec_capacity() == old(self).spec_capacity(),
            match r {
                Some(k) => {
                    &&& rank < old(self)@.len()
                    &&& k as int == old(self).keys()[rank as int]
                    &&& old(self)@.contains(k as int)
                    &&& final(self)@ == old(self)@.remove(k as int)
                    &&& final(self)@.len() == old(self)@.len() - 1
                },
                None => rank >= old(self)@.len() && final(self)@ == old(self)@,
            },
    {
        let d = self.find_by_index(rank);
        proof {
            self.lemma_keys();
        }
        match d {
            Some(k) => {
                self.remove(k);
                Some(k)
            },
            None => None,
        }
    }

    /// The member keys in ascending order.
    pub fn to_vec(&self) -> (r: Vec<usize>)
        requires
            self.inv(),
        ensures
            r@.len() == self@.len(),
            r@.len() == self.keys().len(),
            forall|i: int| 0 <= i < r@.len() ==> r@[i] as int == self.keys()[i],
    {
        proof {
            self.lemma_keys();
        }
        let ghost s = self.slots@;
        let mut r: Vec<usize> = Vec::new();
        let mut i: usize = 0;
        while i < self.slots.len()
            invariant
                self.inv(),
                s == self.slots@,
                i <= s.len(),
                r@.len() == keys_seq(s.take(i as int)).len(),
                forall|j: int| 0 <= j < r@.len() ==> r@[j] as int == keys_seq(s.take(i as int))[j],
            decreases s.len() - i,
        {
            proof {
                lemma_bitmap_take_step(s, i as int);
            }
            if self.slots[i] {
                r.push(i);
            }
            i = i + 1;
        }
        proof {
            assert(s.take(s.len() as int) =~= s);
            self.lemma_keys();
        }
        r
    }

    /// Builds a set from a slice of distinct keys.  The window is sized
    /// exactly to the largest key (one slot when the slice is empty).
    pub fn from_vec(keys: &[usize]) -> (r: USet)
        requires
            keys@.no_duplicates(),
            forall|i: int| 0 <= i < keys@.len() ==> keys@[i] < usize::MAX,
        ensures
            r.inv(),
            forall|i: int| 0 <= i < keys@.len() ==> r@.contains(#[trigger] keys@[i] as int),
            forall|k: int|
                #[trigger] r@.contains(k) ==> exists|i: int|
                    0 <= i < keys@.len() && keys@[i] as int == k,
            r@.len() == keys@.len(),
            r.spec_capacity() == seq_max_plus_one(keys@),
    {
        let mut mx: usize = 0;
        let mut i: usize = 0;
        while i < keys.len()
            invariant
                i <= keys@.len(),
                mx < usize::MAX,
                seq_max_plus_one(keys@.take(i as int)) == mx + 1,
                forall|j: int| 0 <= j < keys@.len() ==> keys@[j] < usize::MAX,
            decreases keys@.len() - i,
        {
            proof {
                assert(keys@.take(i + 1).drop_last() =~= keys@.take(i as int));
            }
            let k = keys[i];
            if k > mx {
                mx = k;
            }
            i = i + 1;
        }
        proof {
            assert(keys@.take(keys@.len() as int) =~= keys@);
            lemma_seq_max_bound(keys@);
        }
        let mut r = USet::with_capacity(mx + 1);
        let mut j: usize = 0;
        while j < keys.len()
            invariant
                j <= keys@.len(),
                r.inv(),
                keys@.no_duplicates(),
                forall|i2: int| 0 <= i2 < keys@.len() ==> keys@[i2] < usize::MAX,
                forall|i2: int| 0 <= i2 < j ==> r@.contains(#[trigger] keys@[i2] as int),
                forall|k: int|
                    #[trigger] r@.contains(k) ==> exists|i2: int|
                        0 <= i2 < j && keys@[i2] as int == k,
                r@.len() == j,
                r.spec_capacity() == mx + 1,
                forall|i2: int| 0 <= i2 < keys@.len() ==> keys@[i2] <= mx,
            decreases keys@.len() - j,
        {
            let ghost prev = r@;
            r.add(keys[j]);
            proof {
                if prev.contains(keys@[j as int] as int) {
                    let kj = keys@[j as int];
                    let i2 = choose|i2: int| 0 <= i2 < j && keys@[i2] as int == kj as int;
                    assert(keys@[i2] == keys@[j as int]);
                    assert(false);
                }
            }
            j = j + 1;
        }
        r
    }

    /// Builds a set holding every key in `[r.start, r.end)`, with the window
    /// sized to `r.end`.
    pub fn from_range(r: core::ops::Range<usize>) -> (s: USet)
        ensures
            s.inv(),
            forall|k: int| s@.contains(k) <==> r.start <= k < r.end,
            s@.len() == if r.start <= r.end {
                r.end - r.start
            } else {
                0int
            },
            s.spec_capacity() == r.end,
    {
        let start = r.start;
        let end = r.end;
        let mut s = USet::with_capacity(end);
        let mut k = start;
        while k < end
            invariant
                start <= k,
                k <= end || k == start,
                s.inv(),
                forall|j: int| s@.contains(j) <==> start <= j < k,
                s@.len() == if k <= end {
                    k - start
                } else {
                    0int
                },
                s.spec_capacity() == end,
            decreases end - k,
        {
            s.add(k);
            proof {
                assert(forall|j: int| s@.contains(j) <==> start <= j < k + 1);
            }
            k = k + 1;
        }
        s
    }
}

/// One more than the largest value in a sequence of keys; `1` for the empty
/// sequence, so that it names the exact window size a key sequence needs.
pub open spec fn seq_max_plus_one(s: Seq<usize>) -> int
    decreases s.len(),
{
    if s.len() == 0 {
        1
    } else {
        let rest = seq_max_plus_one(s.drop_last());
        if s.last() + 1 > rest {
            s.last() + 1
        } else {
            rest
        }
    }
}

impl Clone for USet {
    /// A clone has the same members, the same window, and the same key list.
    fn clone(&self) -> (r: Self)
        ensures
            r@ == self@,
            r.spec_capacity() == self.spec_capacity(),
            r.keys() == self.keys(),
            self.inv() ==> r.inv(),
    {
        let slots = self.slots.clone();
        proof {
            assert(slots@ =~= self.slots@);
        }
        USet { slots, len: self.len }
    }
}

impl USet {
    /// Inserts a key, reporting [`CapacityOverflow`] instead of inserting
    /// when the key is the maximum representable index, whose window size
    /// `key + 1` cannot be computed.
    pub fn try_add(&mut self, key: usize) -> (r: Result<(), crate::CapacityOverflow>)
        requires
            old(self).inv(),
        ensures
            final(self).inv(),
            r is Ok <==> key < usize::MAX,
            key < usize::MAX ==> final(self)@ == old(self)@.insert(key as int),
            key == usize::MAX ==> final(self)@ == old(self)@ && final(self).spec_capacity() == old(
                self,
            ).spec_capacity(),
    {
        if key == usize::MAX {
            Err(crate::CapacityOverflow)
        } else {
            self.add(key);
            Ok(())
        }
    }

    /// The union of two sets, as a freshly allocated set.  When either
    /// operand is empty the result is a clone of the other; otherwise the
    /// window spans exactly `0 ..= max` over both operands' members.
    pub fn union(&self, other: &USet) -> (r: USet)
        requires
            self.inv(),
            other.inv(),
        ensures
            r.inv(),
            r@ == self@.union(other@),
            self@.len() == 0 ==> r.spec_capacity() == other.spec_capacity(),
            self@.len() != 0 && other@.len() == 0 ==> r.spec_capacity() == self.spec_capacity(),
            self@.len() != 0 && other@.len() != 0 ==> r@.contains(r.spec_capacity() - 1) && (
            forall|k: int| r@.contains(k) ==> k < r.spec_capacity()),
    {
        proof {
            self.lemma_keys();
            other.lemma_keys();
        }
        if self.is_empty() {
            let r = other.clone();
            proof {
                self@.lemma_len0_is_empty();
                assert(r@ =~= self@.union(other@));
            }
            r
        } else if other.is_empty() {
            let r = self.clone();
            proof {
                other@.lemma_len0_is_empty();
                assert(r@ =~= self@.union(other@));
            }
            r
        } else {
            let m1 = self.max_key();
            let m2 = other.max_key();
            let mx = if m1 > m2 {
                m1
            } else {
                m2
            };
            proof {
                assert(self.slots.len() == self.slots@.len());
                assert((mx as int) < self.slots@.len() || (mx as int) < other.slots@.len());
                assert(other.slots.len() == other.slots@.len());
            }
            let width = mx + 1;
            let mut slots: Vec<bool> = Vec::new();
            proof {
                assert(key_set(slots@) =~= Set::<int>::empty());
            }
        proof {
            assert(key_set(slots@) =~= Set::<int>::empty());
        }
            let mut len: usize = 0;
            let mut k: usize = 0;
            while k < width
                invariant
                    k <= width,
                    slots@.len() == k,
                    len <= k,
                    forall|j: int|
                        0 <= j < k ==> slots@[j] == (self@.contains(j) || other@.contains(j)),
                    key_set(slots@).len() == len,
                decreases width - k,
            {
                let present = self.contains(k) || other.contains(k);
                proof {
                    lemma_bitmap_push(slots@, present);
                }
                slots.push(present);
                if present {
                    len = len + 1;
                }
                k = k + 1;
            }
            let r = USet { slots, len };
            proof {
                assert(r@ =~= self@.union(other@));
                assert(r@.contains(mx as int));
            }
            r
        }
    }

    /// The difference of this set minus `other`, as a freshly allocated
    /// set.  A result with no members is the canonical empty set; otherwise
    /// the result keeps this set's window.
    pub fn difference(&self, other: &USet) -> (r: USet)
        requires
            self.inv(),
            other.inv(),
        ensures
            r.inv(),
            r@ == self@.difference(other@),
            r.spec_capacity() == if r@.len() == 0 {
                0int
            } else {
                self.spec_capacity() as int
            },
    {
        let cap = self.slots.len();
        let mut slots: Vec<bool> = Vec::new();
        proof {
            assert(key_set(slots@) =~= Set::<int>::empty());
        }
        let mut len: usize = 0;
        let mut k: usize = 0;
        while k < cap
            invariant
                k <= cap,
                cap == self.spec_capacity(),
                slots@.len() == k,
                len <= k,
                forall|j: int|
                    0 <= j < k ==> slots@[j] == (self@.contains(j) && !other@.contains(j)),
                key_set(slots@).len() == len,
            decreases cap - k,
        {
            let present = self.contains(k) && !other.contains(k);
            proof {
                lemma_bitmap_push(slots@, present);
            }
            slots.push(present);
            if present {
                len = len + 1;
            }
            k = k + 1;
        }
        proof {
            assert(key_set(slots@) =~= self@.difference(other@));
        }
        if len == 0 {
            proof {
                lemma_bitmap_keys(slots@);
                key_set(slots@).lemma_len0_is_empty();
            }
            USet::new()
        } else {
            USet { slots, len }
        }
    }

    /// The intersection of two sets, as a freshly allocated set.  A result
    /// with no members is the canonical empty set; otherwise the window is
    /// sized exactly to the largest common key.
    pub fn intersection(&self, other: &USet) -> (r: USet)
        requires
            self.inv(),
            other.inv(),
        ensures
            r.inv(),
            r@ == self@.intersect(other@),
            r@.len() == 0 ==> r.spec_capacity() == 0,
            r@.len() != 0 ==> r@.contains(r.spec_capacity() - 1) && (forall|k: int|
                r@.contains(k) ==> k < r.spec_capacity()),
    {
        let c1 = self.slots.len();
        let c2 = other.slots.len();
        let hi = if c1 < c2 {
            c1
        } else {
            c2
        };
        let mut slots: Vec<bool> = Vec::new();
        proof {
            assert(key_set(slots@) =~= Set::<int>::empty());
        }
        let mut len: usize = 0;
        let mut last: usize = 0;
        let mut k: usize = 0;
        while k < hi
            invariant
                k <= hi,
                slots@.len() == k,
                len <= k,
                forall|j: int|
                    0 <= j < k ==> slots@[j] == (self@.contains(j) && other@.contains(j)),
                key_set(slots@).len() == len,
                len != 0 ==> last < k && slots@[last as int] && (forall|j: int|
                    last < j < k ==> !slots@[j]),
            decreases hi - k,
        {
            let present = self.contains(k) && other.contains(k);
            proof {
                lemma_bitmap_push(slots@, present);
            }
            slots.push(present);
            if present {
                len = len + 1;
                last = k;
            }
            k = k + 1;
        }
        proof {
            assert(key_set(slots@) =~= self@.intersect(other@));
        }
        if len == 0 {
            proof {
                lemma_bitmap_keys(slots@);
                key_set(slots@).lemma_len0_is_empty();
            }
            USet::new()
        } else {
            let ghost full = slots@;
            slots.truncate(last + 1);
            proof {
                assert(slots@ =~= full.take(last + 1));
                assert(key_set(slots@) =~= key_set(full));
            }
            USet { slots, len }
        }
    }

    /// The symmetric difference of two sets: the members of the union that
    /// are not members of the intersection, equivalently the keys present
    /// in exactly one operand.
    pub fn symmetric_difference(&self, other: &USet) -> (r: USet)
        requires
            self.inv(),
            other.inv(),
        ensures
            r.inv(),
            r@ == self@.union(other@).difference(self@.intersect(other@)),
            forall|k: int|
                #[trigger] r@.contains(k) <==> (self@.contains(k) != other@.contains(k)),
    {
        let u = self.union(other);
        let i = self.intersection(other);
        u.difference(&i)
    }

    /// A fresh forward/backward cursor over this set's members.
    pub fn iter(&self) -> (it: USetIter)
        ensures
            it.pos() == 0,
            it.rpos() == 0,
    {
        USetIter { index: 0, rindex: 0 }
    }
}

impl USetIter {
    /// Next slot the forward direction will examine.
    pub closed spec fn pos(self) -> int {
        self.index as int
    }

    /// Number of slots already consumed from the rear.
    pub closed spec fn rpos(self) -> int {
        self.rindex as int
    }

    /// Yields the smallest not-yet-visited member key, or `None` once the
    /// two directions have met.
    pub fn next(&mut self, s: &USet) -> (r: Option<usize>)
        requires
            old(self).pos() + old(self).rpos() <= s.spec_capacity(),
        ensures
            final(self).rpos() == old(self).rpos(),
            match r {
                Some(k) => {
                    &&& old(self).pos() <= k < s.spec_capacity() - old(self).rpos()
                    &&& s@.contains(k as int)
                    &&& forall|j: int| old(self).pos() <= j < k ==> !s@.contains(j)
                    &&& final(self).pos() == k + 1
                },
                None => {
                    &&& forall|j: int|
                        old(self).pos() <= j < s.spec_capacity() - old(self).rpos()
                            ==> !s@.contains(j)
                    &&& final(self).pos() == s.spec_capacity() - old(self).rpos()
                },
            },
    {
        let hi = s.slots.len() - self.rindex;
        while self.index < hi
            invariant
                old(self).pos() <= self.index as int <= hi as int,
                self.rindex == old(self).rindex,
                hi as int == s.spec_capacity() - old(self).rpos(),
                forall|j: int| old(self).pos() <= j < self.index as int ==> !s@.contains(j),
            decreases hi - self.index,
        {
            let i = self.index;
            self.index = i + 1;
            if s.slots[i] {
                return Some(i);
            }
        }
        None
    }

    /// Yields the largest not-yet-visited member key, or `None` once the
    /// two directions have met.
    pub fn next_back(&mut self, s: &USet) -> (r: Option<usize>)
        requires
            old(self).pos() + old(self).rpos() <= s.spec_capacity(),
        ensures
            final(self).pos() == old(self).pos(),
            match r {
                Some(k) => {
                    &&& old(self).pos() <= k < s.spec_capacity() - old(self).rpos()
                    &&& s@.contains(k as int)
                    &&& forall|j: int|
                        k < j < s.spec_capacity() - old(self).rpos() ==> !s@.contains(j)
                    &&& final(self).rpos() == s.spec_capacity() - k
                },
                None => {
                    &&& forall|j: int|
                        old(self).pos() <= j < s.spec_capacity() - old(self).rpos()
                            ==> !s@.contains(j)
                    &&& final(self).rpos() == s.spec_capacity() - old(self).pos()
                },
            },
    {
        let len = s.slots.len();
        while self.rindex < len - self.index
            invariant
                old(self).rpos() <= self.rindex as int,
                self.rindex as int + self.index as int <= len as int,
                self.index == old(self).index,
                len == s.spec_capacity(),
                forall|j: int|
                    len - self.rindex as int <= j < len - old(self).rpos() ==> !s@.contains(j),
            decreases len - self.index - self.rindex,
        {
            let i = len - self.rindex - 1;
            self.rindex = self.rindex + 1;
            if s.slots[i] {
                return Some(i);
            }
        }
        None
    }
}

/// Every value in a key sequence lies below its exact window size.
pub proof fn lemma_seq_max_bound(s: Seq<usize>)
    ensures
        forall|i: int| 0 <= i < s.len() ==> s[i] < seq_max_plus_one(s),
    decreases s.len(),
{
    if s.len() > 0 {
        lemma_seq_max_bound(s.drop_last());
        assert(forall|i: int| 0 <= i < s.len() - 1 ==> s[i] == s.drop_last()[i]);
    }
}

/// Cardinality law: for all finite sets `A`, `B`,
/// `len(A union B) == len(A) + len(B) - len(A intersect B)`.
pub proof fn lemma_union_intersection_len<A>(a: Set<A>, b: Set<A>)
    requires
        a.finite(),
        b.finite(),
    ensures
        a.union(b).len() + a.intersect(b).len() == a.len() + b.len(),
    decreases a.len(),
{
    if a.len() == 0 {
        a.lemma_len0_is_empty();
        assert(a.union(b) =~= b);
        assert(a.intersect(b) =~= Set::<A>::empty());
    } else {
        let x = a.choose();
        assert(a.contains(x));
        let a2 = a.remove(x);
        lemma_union_intersection_len(a2, b);
        if b.contains(x) {
            assert(a.union(b) =~= a2.union(b));
            assert(a.intersect(b) =~= a2.intersect(b).insert(x));
            assert(!a2.intersect(b).contains(x));
        } else {
            assert(a.union(b) =~= a2.union(b).insert(x));
            assert(!a2.union(b).contains(x));
            assert(a.intersect(b) =~= a2.intersect(b));
        }
    }
}

/// Idempotence of re-insertion: removing a present key and adding it back
/// restores the set, member for member, and with it the member count.
pub proof fn lemma_remove_then_add_restores(s: Set<int>, k: int)
    requires
        s.contains(k),
    ensures
        s.remove(k).insert(k) == s,
        s.remove(k).insert(k).len() == s.len(),
{
    assert(s.remove(k).insert(k) =~= s);
}

/// Rank enumeration: in a populated set the key of rank zero is the
/// minimum, and every key left after removing it is strictly larger, so
/// repeatedly popping rank zero yields the keys in strictly ascending
/// order and ends with `None` once the set is empty.
pub proof fn lemma_rank_zero_is_minimum(s: USet)
    requires
        s.inv(),
        s@.len() > 0,
    ensures
        s@.contains(s.keys()[0]),
        forall|k: int| #[trigger] s@.contains(k) ==> s.keys()[0] <= k,
        forall|k: int| #[trigger] s@.remove(s.keys()[0]).contains(k) ==> s.keys()[0] < k,
{
    s.lemma_keys();
    assert forall|k: int| #[trigger] s@.contains(k) implies s.keys()[0] <= k by {
        assert(s.keys().contains(k));
        let i = choose|i: int| 0 <= i < s.keys().len() && s.keys()[i] == k;
        if i > 0 {
            assert(s.keys()[0] < s.keys()[i]);
        }
    }
}

/// Round trip: a set built from a sequence of distinct keys lists, in its
/// ascending key list, exactly the keys of that sequence: the list is the
/// sorted form of the sequence.
pub proof fn lemma_from_vec_round_trip(s: USet, v: Seq<usize>)
    requires
        s.inv(),
        v.no_duplicates(),
        forall|i: int| 0 <= i < v.len() ==> s@.contains(#[trigger] v[i] as int),
        forall|k: int|
            #[trigger] s@.contains(k) ==> exists|i: int| 0 <= i < v.len() && v[i] as int == k,
    ensures
        s.keys().len() == v.len(),
        forall|i: int, j: int| 0 <= i < j < s.keys().len() ==> s.keys()[i] < s.keys()[j],
        forall|i: int| 0 <= i < s.keys().len() ==> v.contains(#[trigger] s.keys()[i] as usize),
        forall|i: int| 0 <= i < v.len() ==> s.keys().contains(#[trigger] v[i] as int),
{
    s.lemma_keys();
    let vi = v.map_values(|x: usize| x as int);
    assert(vi.no_duplicates()) by {
        assert forall|i: int, j: int|
            0 <= i < vi.len() && 0 <= j < vi.len() && i != j implies vi[i] != vi[j] by {
            assert(v[i] != v[j]);
        }
    }
    assert(s@ =~= vi.to_set()) by {
        assert forall|k: int| #[trigger] s@.contains(k) implies vi.to_set().contains(k) by {
            let i = choose|i: int| 0 <= i < v.len() && v[i] as int == k;
            assert(vi[i] == k);
        }
        assert forall|k: int| #[trigger] vi.to_set().contains(k) implies s@.contains(k) by {
            let i = choose|i: int| 0 <= i < vi.len() && vi[i] == k;
            assert(s@.contains(v[i] as int));
        }
    }
    vi.unique_seq_to_set();
    assert forall|i: int| 0 <= i < s.keys().len() implies v.contains(
        #[trigger] s.keys()[i] as usize,
    ) by {
        let k = s.keys()[i];
        assert(s@.contains(k));
        let j = choose|j: int| 0 <= j < v.len() && v[j] as int == k;
        assert(v[j] == k as usize);
    }
    assert forall|i: int| 0 <= i < v.len() implies s.keys().contains(#[trigger] v[i] as int) by {
        assert(s@.contains(v[i] as int));
    }
}

} // verus!

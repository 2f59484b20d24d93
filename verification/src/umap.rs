//! A sparse map from unsigned integer keys to values, backed by a window
//! of optional slots with a sliding base offset.
//!
//! Key `k` is addressed at slot `k - offset`, so lookups are constant-time
//! for keys inside the window.  The window grows on insertion (reindexing
//! on left extension, exact resize on right extension) and never shrinks on
//! removal; an explicit [`UMap::trim`] collapses it to the tightest bounds.
//! Insertion is first-write-wins: writing to a present key is a no-op.
//! The abstract value of a [`UMap`] is the partial map `Map<int, V>`.

use itertools::Itertools;
use itertools::MinMaxResult;
use vstd::prelude::*;
use vstd::set_lib::lemma_len_subset;
use vstd::set_lib::lemma_int_range;
use vstd::set_lib::set_int_range;

verus! {

/// The partial map recorded in a window of optional slots based at `off`:
/// key `k` maps to the value in slot `k - off` when that slot is occupied.
pub open spec fn window_map<V>(s: Seq<Option<V>>, off: int) -> Map<int, V> {
    Map::new(
        |k: int| off <= k < off + s.len() && s[k - off] is Some,
        |k: int| s[k - off]->Some_0,
    )
}

/// The keys recorded in a window based at `off`, in ascending order.
pub open spec fn window_keys<V>(s: Seq<Option<V>>, off: int) -> Seq<int>
    decreases s.len(),
{
    if s.len() == 0 {
        Seq::empty()
    } else if s.last() is Some {
        window_keys(s.drop_last(), off).push(off + s.len() - 1)
    } else {
        window_keys(s.drop_last(), off)
    }
}

/// The domain of a window is finite, has the ascending key list as its
/// enumeration, and is never larger than the window itself.
pub proof fn lemma_window_keys<V>(s: Seq<Option<V>>, off: int)
    ensures
        window_map(s, off).dom().finite(),
        window_map(s, off).dom().len() == window_keys(s, off).len(),
        window_keys(s, off).len() <= s.len(),
        forall|i: int|
            0 <= i < window_keys(s, off).len() ==> off <= #[trigger] window_keys(s, off)[i] < off
                + s.len() && window_map(s, off).dom().contains(window_keys(s, off)[i]),
        forall|i: int, j: int|
            0 <= i < j < window_keys(s, off).len() ==> window_keys(s, off)[i] < window_keys(
                s,
                off,
            )[j],
        forall|k: int|
            #[trigger] window_map(s, off).dom().contains(k) <==> window_keys(s, off).contains(k),
    decreases s.len(),
{
    let d = window_map(s, off).dom();
    let ks = window_keys(s, off);
    if s.len() == 0 {
        assert(d =~= Set::<int>::empty());
        assert forall|k: int| ks.contains(k) implies d.contains(k) by {}
    } else {
        let t = s.drop_last();
        lemma_window_keys(t, off);
        let m = off + s.len() - 1;
        if s.last() is Some {
            assert(d =~= window_map(t, off).dom().insert(m));
            assert(!window_map(t, off).dom().contains(m));
            assert(ks == window_keys(t, off).push(m));
            assert forall|k: int| #[trigger] d.contains(k) implies ks.contains(k) by {
                if k == m {
                    assert(ks[ks.len() - 1] == m);
                } else {
                    let i = choose|i: int|
                        0 <= i < window_keys(t, off).len() && window_keys(t, off)[i] == k;
                    assert(ks[i] == k);
                }
            }
            assert forall|k: int| ks.contains(k) implies d.contains(k) by {
                let i = choose|i: int| 0 <= i < ks.len() && ks[i] == k;
                if i < window_keys(t, off).len() {
                    assert(window_keys(t, off)[i] == k);
                }
            }
        } else {
            assert(d =~= window_map(t, off).dom());
            assert(ks == window_keys(t, off));
        }
    }
}

/// Appending one slot to a window extends its map and key list by the new
/// key exactly when the slot is occupied.
pub proof fn lemma_window_push<V>(s: Seq<Option<V>>, off: int, o: Option<V>)
    ensures
        window_map(s.push(o), off) == if o is Some {
            window_map(s, off).insert(off + s.len(), o->Some_0)
        } else {
            window_map(s, off)
        },
        window_keys(s.push(o), off) == if o is Some {
            window_keys(s, off).push(off + s.len())
        } else {
            window_keys(s, off)
        },
        window_map(s.push(o), off).dom().len() == window_map(s, off).dom().len() + if o
            is Some {
            1int
        } else {
            0int
        },
{
    lemma_window_keys(s, off);
    let s2 = s.push(o);
    assert(s2.drop_last() =~= s);
    assert(s2.last() == o);
    if o is Some {
        assert(window_map(s2, off) =~= window_map(s, off).insert(off + s.len(), o->Some_0));
        assert(!window_map(s, off).dom().contains(off + s.len()));
        assert(window_map(s2, off).dom() =~= window_map(s, off).dom().insert(off + s.len()));
    } else {
        assert(window_map(s2, off) =~= window_map(s, off));
    }
}

/// Writing one slot of a window inserts the key it addresses into the map.
pub proof fn lemma_window_update<V>(s: Seq<Option<V>>, off: int, i: int, v: V)
    requires
        0 <= i < s.len(),
    ensures
        window_map(s.update(i, Some(v)), off) == window_map(s, off).insert(off + i, v),
        s[i] is None ==> window_map(s.update(i, Some(v)), off).dom().len() == window_map(
            s,
            off,
        ).dom().len() + 1,
        s[i] is Some ==> window_map(s.update(i, Some(v)), off).dom().len() == window_map(
            s,
            off,
        ).dom().len(),
{
    lemma_window_keys(s, off);
    lemma_window_keys(s.update(i, Some(v)), off);
    let m0 = window_map(s, off);
    let m1 = window_map(s.update(i, Some(v)), off);
    assert(m1 =~= m0.insert(off + i, v));
    assert(m1.dom() =~= m0.dom().insert(off + i));
    if s[i] is Some {
        assert(m0.dom().contains(off + i));
        assert(m1.dom() =~= m0.dom());
    }
}

/// Clearing one slot of a window removes the key it addresses from the map.
pub proof fn lemma_window_clear<V>(s: Seq<Option<V>>, off: int, i: int)
    requires
        0 <= i < s.len(),
    ensures
        window_map(s.update(i, None), off) == window_map(s, off).remove(off + i),
        s[i] is Some ==> window_map(s.update(i, None), off).dom().len() == window_map(
            s,
            off,
        ).dom().len() - 1,
        s[i] is None ==> window_map(s.update(i, None), off).dom().len() == window_map(
            s,
            off,
        ).dom().len(),
{
    lemma_window_keys(s, off);
    lemma_window_keys(s.update(i, None), off);
    let m0 = window_map(s, off);
    let m1 = window_map(s.update(i, None), off);
    assert(m1 =~= m0.remove(off + i));
    assert(m1.dom() =~= m0.dom().remove(off + i));
    if s[i] is None {
        assert(m1.dom() =~= m0.dom());
    }
}

/// Truncating a window one slot before index `i` relates its key list and
/// key count to those of the truncation at `i`.
pub proof fn lemma_window_take_step<V>(s: Seq<Option<V>>, off: int, i: int)
    requires
        0 <= i < s.len(),
    ensures
        window_keys(s.take(i + 1), off) == if s[i] is Some {
            window_keys(s.take(i), off).push(off + i)
        } else {
            window_keys(s.take(i), off)
        },
        window_map(s.take(i + 1), off) == if s[i] is Some {
            window_map(s.take(i), off).insert(off + i, s[i]->Some_0)
        } else {
            window_map(s.take(i), off)
        },
        window_map(s.take(i + 1), off).dom().len() == window_map(s.take(i), off).dom().len() + if s[i]
            is Some {
            1int
        } else {
            0int
        },
{
    assert(s.take(i + 1) =~= s.take(i).push(s[i]));
    lemma_window_push(s.take(i), off, s[i]);
}

/// The key list of a window prefix is a prefix of the full key list.
pub proof fn lemma_window_keys_take_prefix<V>(s: Seq<Option<V>>, off: int, n: int)
    requires
        0 <= n <= s.len(),
    ensures
        window_keys(s.take(n), off).is_prefix_of(window_keys(s, off)),
    decreases s.len() - n,
{
    if n == s.len() {
        assert(s.take(n) =~= s);
    } else {
        lemma_window_take_step(s, off, n);
        lemma_window_keys_take_prefix(s, off, n + 1);
        assert(window_keys(s.take(n), off).is_prefix_of(window_keys(s.take(n + 1), off)));
    }
}

/// Sparse map over unsigned integer keys, windowed at a sliding offset.
///
/// Slot `k - offset` holds `Some(v)` exactly when key `k` maps to `v`.
/// `lo` and `hi` are the tightest bounds containing every present key and
/// are meaningful only when `len > 0`; `len` caches the number of keys.
pub struct UMap<V> {
    slots: Vec<Option<V>>,
    len: usize,
    offset: usize,
    lo: usize,
    hi: usize,
}

impl<V> View for UMap<V> {
    type V = Map<int, V>;

    closed spec fn view(&self) -> Map<int, V> {
        window_map(self.slots@, self.offset as int)
    }
}

/// State-carrying cursor for bidirectional traversal of a [`UMap`].
///
/// `index` is the next slot the forward direction will examine; `rindex`
/// counts the slots already consumed from the rear.  Both directions may
/// be interleaved: they meet in the middle without revisiting a key.
pub struct UMapIter {
    index: usize,
    rindex: usize,
}

impl<V> UMap<V> {
    /// The cached count and bounds agree with the window: `len` counts the
    /// occupied slots, and when the map is populated `lo` and `hi` are
    /// present keys enclosing every present key inside the window.  The
    /// empty state is canonical: zero bounds and a fully vacant window.
    pub closed spec fn inv(self) -> bool {
        &&& self.len == self@.dom().len()
        &&& (self.len == 0 ==> self.lo == 0 && self.hi == 0 && self.offset == 0 && (forall|
            i: int,
        |
            0 <= i < self.slots@.len() ==> self.slots@[i] is None))
        &&& (self.len > 0 ==> {
            &&& self.offset <= self.lo <= self.hi
            &&& self.hi < usize::MAX
            &&& self.hi - self.offset < self.slots@.len()
            &&& self@.dom().contains(self.lo as int)
            &&& self@.dom().contains(self.hi as int)
            &&& (forall|k: int| #[trigger] self@.dom().contains(k) ==> self.lo <= k <= self.hi)
        })
    }

    /// Length of the backing window.
    pub closed spec fn spec_capacity(self) -> nat {
        self.slots@.len()
    }

    /// The key addressed by slot zero of the window.
    pub closed spec fn spec_offset(self) -> int {
        self.offset as int
    }

    /// Smallest present key; meaningful only when the map is populated.
    pub closed spec fn spec_min(self) -> int {
        self.lo as int
    }

    /// Largest present key; meaningful only when the map is populated.
    pub closed spec fn spec_max(self) -> int {
        self.hi as int
    }

    /// The present keys in ascending order.
    pub closed spec fn keys(self) -> Seq<int> {
        window_keys(self.slots@, self.offset as int)
    }

    /// The key count never exceeds the window size, the key list
    /// enumerates the domain in ascending order, and when the map is
    /// populated the bounds are the extreme present keys.
    pub proof fn lemma_keys(self)
        requires
            self.inv(),
        ensures
            self@.dom().finite(),
            self@.dom().len() == self.keys().len(),
            self@.dom().len() <= self.spec_capacity(),
            forall|i: int|
                0 <= i < self.keys().len() ==> self@.dom().contains(#[trigger] self.keys()[i]),
            forall|i: int, j: int|
                0 <= i < j < self.keys().len() ==> self.keys()[i] < self.keys()[j],
            forall|k: int| #[trigger] self@.dom().contains(k) <==> self.keys().contains(k),
            self@.dom().len() > 0 ==> self@.dom().contains(self.spec_min()) && self@.dom().contains(
                self.spec_max(),
            ) && (forall|k: int|
                #[trigger] self@.dom().contains(k) ==> self.spec_min() <= k <= self.spec_max()),
            forall|k: int|
                #[trigger] self@.dom().contains(k) ==> self.spec_offset() <= k < self.spec_offset()
                    + self.spec_capacity(),
    {
        lemma_window_keys(self.slots@, self.offset as int);
        if self.len > 0 {
        } else {
            assert(self@.dom() =~= Set::<int>::empty());
        }
    }
}

impl<V: Copy> UMap<V> {
    /// An empty map with no backing window.
    pub fn new() -> (r: Self)
        ensures
            r.inv(),
            r@ == Map::<int, V>::empty(),
            r.spec_capacity() == 0,
    {
        UMap::with_capacity(0)
    }

    /// An empty map whose window already spans `size` slots.
    #[verifier::loop_isolation(false)]
    pub fn with_capacity(size: usize) -> (r: Self)
        ensures
            r.inv(),
            r@ == Map::<int, V>::empty(),
            r.spec_capacity() == size,
    {
        let mut slots: Vec<Option<V>> = Vec::new();
        proof {
            assert(window_map(slots@, 0) =~= Map::<int, V>::empty());
        }
        let mut i: usize = 0;
        while i < size
            invariant
                i <= size,
                slots@.len() == i,
                window_map(slots@, 0) == Map::<int, V>::empty(),
                forall|j: int| 0 <= j < i ==> slots@[j] is None,
            decreases size - i,
        {
            proof {
                lemma_window_push(slots@, 0, None::<V>);
            }
            slots.push(None);
            i = i + 1;
        }
        proof {
            assert(Map::<int, V>::empty().dom() =~= Set::<int>::empty());
        }
        UMap { slots, len: 0, offset: 0, lo: 0, hi: 0 }
    }

    /// Number of present keys.
    pub fn len(&self) -> (r: usize)
        requires
            self.inv(),
        ensures
            r == self@.dom().len(),
    {
        self.len
    }

    /// Whether the map has no present keys.
    pub fn is_empty(&self) -> (r: bool)
        requires
            self.inv(),
        ensures
            r == (self@.dom().len() == 0),
            r ==> self@ == Map::<int, V>::empty(),
    {
        proof {
            self.lemma_keys();
            if self.len == 0 {
                assert(self@ =~= Map::<int, V>::empty());
            }
        }
        self.len == 0
    }

    /// Size of the backing window.
    pub fn capacity(&self) -> (r: usize)
        ensures
            r == self.spec_capacity(),
    {
        self.slots.len()
    }

    /// Constant-time presence test; `false` for any key outside the window.
    pub fn contains(&self, key: usize) -> (r: bool)
        requires
            self.inv(),
        ensures
            r == self@.dom().contains(key as int),
    {
        proof {
            self.lemma_keys();
        }
        if key >= self.lo && key <= self.hi && key - self.offset < self.slots.len() {
            self.slots[key - self.offset].is_some()
        } else {
            false
        }
    }

    /// The value mapped at `key`, copied out; `None` outside the window or
    /// at a vacant slot.
    pub fn get(&self, key: usize) -> (r: Option<V>)
        requires
            self.inv(),
        ensures
            match r {
                Some(v) => self@.dom().contains(key as int) && v == self@[key as int],
                None => !self@.dom().contains(key as int),
            },
    {
        proof {
            self.lemma_keys();
        }
        if key >= self.lo && key <= self.hi && key - self.offset < self.slots.len() {
            self.slots[key - self.offset]
        } else {
            None
        }
    }

    /// A borrow of the value mapped at `key`; `None` outside the window or
    /// at a vacant slot.
    pub fn get_ref(&self, key: usize) -> (r: Option<&V>)
        requires
            self.inv(),
        ensures
            match r {
                Some(v) => self@.dom().contains(key as int) && *v == self@[key as int],
                None => !self@.dom().contains(key as int),
            },
    {
        proof {
            self.lemma_keys();
        }
        if key >= self.lo && key <= self.hi && key - self.offset < self.slots.len() {
            match &self.slots[key - self.offset] {
                Some(v) => Some(v),
                None => None,
            }
        } else {
            None
        }
    }

    /// Smallest present key, or `None` on an empty map.
    pub fn min(&self) -> (r: Option<usize>)
        requires
            self.inv(),
        ensures
            match r {
                Some(m) => self@.dom().contains(m as int) && (forall|k: int|
                    #[trigger] self@.dom().contains(k) ==> m <= k),
                None => self@.dom().len() == 0,
            },
    {
        if self.len == 0 {
            None
        } else {
            Some(self.lo)
        }
    }

    /// Largest present key, or `None` on an empty map.
    pub fn max(&self) -> (r: Option<usize>)
        requires
            self.inv(),
        ensures
            match r {
                Some(m) => self@.dom().contains(m as int) && (forall|k: int|
                    #[trigger] self@.dom().contains(k) ==> k <= m),
                None => self@.dom().len() == 0,
            },
    {
        if self.len == 0 {
            None
        } else {
            Some(self.hi)
        }
    }

    /// Maps `key` to `value`, growing the window when the key falls outside
    /// it: a left extension reindexes onto a window based at `key`, a right
    /// extension resizes in place.  First-write-wins: when the key is
    /// already present the call is a no-op and the old value is kept.
    #[verifier::loop_isolation(false)]
    pub fn put(&mut self, key: usize, value: V)
        requires
            old(self).inv(),
            key < usize::MAX,
        ensures
            final(self).inv(),
            final(self)@ == if old(self)@.dom().contains(key as int) {
                old(self)@
            } else {
                old(self)@.insert(key as int, value)
            },
            final(self)@.dom().len() == old(self)@.dom().len() + if old(self)@.dom().contains(
                key as int,
            ) {
                0int
            } else {
                1int
            },
            old(self)@.dom().len() == 0 ==> final(self).spec_offset() == key
                && final(self).spec_capacity() == if old(self).spec_capacity() == 0 {
                1int
            } else {
                old(self).spec_capacity() as int
            },
            old(self)@.dom().len() > 0 && key < old(self).spec_offset()
                ==> final(self).spec_offset() == key
                && final(self).spec_capacity() == old(self).spec_max() - key + 1,
            old(self)@.dom().len() > 0 && key as int >= old(self).spec_offset()
                + old(self).spec_capacity() ==> final(self).spec_offset() == old(self).spec_offset()
                && final(self).spec_capacity() == key - old(self).spec_offset() + 1,
            old(self)@.dom().len() > 0 && old(self).spec_offset() <= key < old(self).spec_offset()
                + old(self).spec_capacity() ==> final(self).spec_offset() == old(self).spec_offset()
                && final(self).spec_capacity() == old(self).spec_capacity(),
    {
        proof {
            self.lemma_keys();
        }
        if self.len == 0 {
            let ghost olds = self.slots@;
            if self.slots.len() == 0 {
                proof {
                    lemma_window_push(self.slots@, key as int, Some(value));
                }
                self.slots.push(Some(value));
            } else {
                proof {
                    lemma_window_update(self.slots@, key as int, 0, value);
                }
                self.slots.set(0, Some(value));
            }
            self.offset = key;
            self.lo = key;
            self.hi = key;
            self.len = 1;
            proof {
                assert(old(self)@ =~= Map::<int, V>::empty());
                assert(self@ =~= Map::<int, V>::empty().insert(key as int, value));
                assert(self@.dom() =~= Set::<int>::empty().insert(key as int));
            }
        } else if key < self.offset {
            let width = self.hi - key + 1;
            let ghost olds = self.slots@;
            let ghost off = self.offset as int;
            let mut slots2: Vec<Option<V>> = Vec::new();
            let mut j: usize = 0;
            while j < width
                invariant
                    j <= width,
                    slots2@.len() == j,
                    j >= 1 ==> slots2@[0] == Some(value),
                    forall|t: int|
                        1 <= t < j ==> slots2@[t] == (if off <= key + t < off + olds.len() {
                            olds[key + t - off]
                        } else {
                            None
                        }),
                decreases width - j,
            {
                let k2 = key + j;
                let o = if j == 0 {
                    Some(value)
                } else if k2 >= self.offset {
                    self.slots[k2 - self.offset]
                } else {
                    None
                };
                slots2.push(o);
                j = j + 1;
            }
            proof {
                lemma_int_range(self.lo as int, self.hi + 1);
                lemma_len_subset(self@.dom(), set_int_range(self.lo as int, self.hi + 1));
            }
            self.slots = slots2;
            self.offset = key;
            self.lo = key;
            self.len = self.len + 1;
            proof {
                assert(self@ =~= old(self)@.insert(key as int, value));
                assert(self@.dom() =~= old(self)@.dom().insert(key as int));
                assert(self@.dom().contains(key as int));
                assert(self@.dom().contains(self.hi as int));
            }
        } else if key - self.offset >= self.slots.len() {
            let idx = key - self.offset;
            let ghost olds = self.slots@;
            self.slots.resize(idx + 1, None);
            proof {
                assert forall|t: int| 0 <= t < self.slots@.len() implies self.slots@[t] == (if t
                    < olds.len() {
                    olds[t]
                } else {
                    None
                }) by {
                    if t >= olds.len() {
                        assert(cloned::<Option<V>>(None, self.slots@[t]));
                    }
                }
                assert(window_map(self.slots@, self.offset as int) =~= window_map(
                    olds,
                    self.offset as int,
                ));
                assert(window_map(self.slots@, self.offset as int).dom() =~= window_map(
                    olds,
                    self.offset as int,
                ).dom());
                lemma_window_update(self.slots@, self.offset as int, idx as int, value);
            }
            self.slots.set(idx, Some(value));
            self.hi = key;
            self.len = self.len + 1;
            proof {
                assert(self@ =~= old(self)@.insert(key as int, value));
                assert(self@.dom() =~= old(self)@.dom().insert(key as int));
            }
        } else {
            let idx = key - self.offset;
            if self.slots[idx].is_none() {
                proof {
                    lemma_int_range(self.offset as int, self.offset + self.slots@.len());
                    lemma_len_subset(
                        self@.dom(),
                        set_int_range(self.offset as int, self.offset + self.slots@.len()).remove(
                            key as int,
                        ),
                    );
                    lemma_window_update(self.slots@, self.offset as int, idx as int, value);
                }
                self.slots.set(idx, Some(value));
                self.len = self.len + 1;
                if key < self.lo {
                    self.lo = key;
                } else if key > self.hi {
                    self.hi = key;
                }
                proof {
                    assert(self@.dom() =~= old(self)@.dom().insert(key as int));
                }
            } else {
                proof {
                    assert(old(self)@.dom().contains(key as int));
                }
            }
        }
    }

    /// Unmaps `key` and returns the value it held, or `None` when the key
    /// is absent, leaving the map unchanged.  Removing the last key resets
    /// the canonical empty state; removing a boundary key rescans the span
    /// for the new bound.  The window never shrinks on removal.
    #[verifier::loop_isolation(false)]
    pub fn remove(&mut self, key: usize) -> (r: Option<V>)
        requires
            old(self).inv(),
        ensures
            final(self).inv(),
            final(self)@ == old(self)@.remove(key as int),
            final(self).spec_capacity() == old(self).spec_capacity(),
            match r {
                Some(v) => old(self)@.dom().contains(key as int) && v == old(self)@[key as int],
                None => !old(self)@.dom().contains(key as int),
            },
    {
        proof {
            self.lemma_keys();
        }
        if self.len == 0 || key < self.lo || key > self.hi {
            proof {
                assert(self@ =~= old(self)@.remove(key as int));
            }
            return None;
        }
        let idx = key - self.offset;
        let v = match self.slots[idx] {
            Some(v) => v,
            None => {
                proof {
                    assert(self@ =~= old(self)@.remove(key as int));
                }
                return None;
            },
        };
        proof {
            lemma_window_clear(self.slots@, self.offset as int, idx as int);
        }
        self.slots.set(idx, None);
        if self.len == 1 {
            proof {
                self@.dom().lemma_len0_is_empty();
                assert forall|t: int| 0 <= t < self.slots@.len() implies self.slots@[t]
                    is None by {
                    if self.slots@[t] is Some {
                        assert(self@.dom().contains(self.offset + t));
                    }
                }
            }
            self.len = 0;
            self.lo = 0;
            self.hi = 0;
            self.offset = 0;
            proof {
                assert(self@ =~= old(self)@.remove(key as int));
                assert(self@.dom() =~= Set::<int>::empty());
            }
        } else {
            proof {
                if self.lo == self.hi {
                    lemma_int_range(self.lo as int, self.lo + 1);
                    lemma_len_subset(
                        old(self)@.dom(),
                        set_int_range(self.lo as int, self.lo + 1),
                    );
                    assert(false);
                }
            }
            self.len = self.len - 1;
            if key == self.lo {
                let mut m = self.lo + 1;
                while m < self.hi && self.slots[m - self.offset].is_none()
                    invariant
                        self.lo < m <= self.hi,
                        forall|k: int| self.lo < k < m ==> !self@.dom().contains(k),
                    decreases self.hi - m,
                {
                    m = m + 1;
                }
                proof {
                    assert(self@.dom().contains(m as int));
                }
                self.lo = m;
            } else if key == self.hi {
                let mut m = self.hi - 1;
                while m > self.lo && self.slots[m - self.offset].is_none()
                    invariant
                        self.lo <= m < self.hi,
                        forall|k: int| m < k < self.hi ==> !self@.dom().contains(k),
                    decreases m,
                {
                    m = m - 1;
                }
                proof {
                    assert(self@.dom().contains(m as int));
                }
                self.hi = m;
            }
            proof {
                assert(self@.dom().contains(self.lo as int));
                assert(self@.dom().contains(self.hi as int));
            }
        }
        Some(v)
    }

    /// Reallocates the window to exactly the span of the present keys,
    /// rebasing the offset at the smallest one.  A no-op on an empty map;
    /// the mapping itself never changes.
    #[verifier::loop_isolation(false)]
    pub fn trim(&mut self)
        requires
            old(self).inv(),
        ensures
            final(self).inv(),
            final(self)@ == old(self)@,
            old(self)@.dom().len() == 0 ==> final(self).spec_capacity() == old(
                self,
            ).spec_capacity(),
            old(self)@.dom().len() > 0 ==> final(self).spec_capacity() == old(self).spec_max()
                - old(self).spec_min() + 1 && final(self).spec_offset() == old(self).spec_min(),
    {
        proof {
            self.lemma_keys();
        }
        if self.len == 0 {
            return ;
        }
        let width = self.hi - self.lo + 1;
        let ghost olds = self.slots@;
        let ghost off = self.offset as int;
        let base = self.lo;
        let mut slots2: Vec<Option<V>> = Vec::new();
        let mut j: usize = 0;
        while j < width
            invariant
                j <= width,
                slots2@.len() == j,
                forall|t: int| 0 <= t < j ==> slots2@[t] == olds[base - off + t],
            decreases width - j,
        {
            slots2.push(self.slots[base - self.offset + j]);
            j = j + 1;
        }
        self.slots = slots2;
        self.offset = base;
        proof {
            assert forall|k: int| #[trigger] old(self)@.dom().contains(k) implies self@.dom()
                .contains(k) && self@[k] == old(self)@[k] by {
                assert(olds[k - off] is Some);
                assert(self.slots@[k - base] == olds[k - off]);
            }
            assert forall|k: int| #[trigger] self@.dom().contains(k) implies old(self)@.dom()
                .contains(k) by {
                assert(self.slots@[k - base] is Some);
                assert(olds[k - base + (base - off)] == self.slots@[k - base]);
            }
            assert(self@ =~= old(self)@);
        }
    }

    /// Projects the presence bitmap down to a [`crate::USet`] holding
    /// exactly the present keys, discarding the values.
    #[verifier::loop_isolation(false)]
    pub fn to_set(&self) -> (r: crate::uset::USet)
        requires
            self.inv(),
        ensures
            r.inv(),
            r@ == self@.dom(),
    {
        proof {
            self.lemma_keys();
        }
        if self.len == 0 {
            let r = crate::uset::USet::new();
            proof {
                assert(r@ =~= self@.dom());
            }
            r
        } else {
            let mut r = crate::uset::USet::with_capacity(self.hi + 1);
            let mut k: usize = 0;
            while k <= self.hi
                invariant
                    k <= self.hi + 1,
                    r.inv(),
                    forall|t: int| #[trigger] r@.contains(t) <==> (self@.dom().contains(t) && t < k),
                decreases self.hi + 1 - k,
            {
                if self.contains(k) {
                    r.add(k);
                }
                k = k + 1;
            }
            proof {
                assert(r@ =~= self@.dom());
            }
            r
        }
    }

    /// The `rank`-th smallest present key with its value, or `None` when
    /// fewer than `rank + 1` keys are present.
    #[verifier::loop_isolation(false)]
    fn find_by_index(&self, rank: usize) -> (r: Option<(usize, V)>)
        requires
            self.inv(),
        ensures
            match r {
                Some(p) => {
                    &&& rank < self@.dom().len()
                    &&& p.0 as int == self.keys()[rank as int]
                    &&& self@.dom().contains(p.0 as int)
                    &&& p.1 == self@[p.0 as int]
                },
                None => rank >= self@.dom().len(),
            },
    {
        proof {
            self.lemma_keys();
        }
        let ghost s = self.slots@;
        let ghost off = self.offset as int;
        let mut count: usize = 0;
        let mut i: usize = 0;
        while i < self.slots.len()
            invariant
                i <= s.len(),
                count <= rank,
                count == window_keys(s.take(i as int), off).len(),
            decreases s.len() - i,
        {
            proof {
                lemma_window_take_step(s, off, i as int);
                lemma_window_keys(s.take(i as int), off);
            }
            match self.slots[i] {
                Some(v) => {
                    if count == rank {
                        proof {
                            lemma_window_keys_take_prefix(s, off, i + 1);
                            assert(window_keys(s.take(i + 1), off)[rank as int] == off + i);
                            assert(self.keys()[rank as int] == off + i);
                            assert(self@.dom().contains(off + i));
                        }
                        return Some((self.offset + i, v));
                    }
                    count = count + 1;
                },
                None => {},
            }
            i = i + 1;
        }
        proof {
            assert(s.take(s.len() as int) =~= s);
        }
        None
    }

    /// Removes the `rank`-th smallest present key and returns its value;
    /// `None` when fewer than `rank + 1` keys are present, leaving the map
    /// unchanged.
    pub fn pop(&mut self, rank: usize) -> (r: Option<V>)
        requires
            old(self).inv(),
        ensures
            final(self).inv(),
            final(self).spec_capacity() == old(self).spec_capacity(),
            match r {
                Some(v) => {
                    &&& rank < old(self)@.dom().len()
                    &&& old(self)@.dom().contains(old(self).keys()[rank as int])
                    &&& v == old(self)@[old(self).keys()[rank as int]]
                    &&& final(self)@ == old(self)@.remove(old(self).keys()[rank as int])
                    &&& final(self)@.dom().len() == old(self)@.dom().len() - 1
                },
                None => rank >= old(self)@.dom().len() && final(self)@ == old(self)@,
            },
    {
        proof {
            self.lemma_keys();
        }
        match self.find_by_index(rank) {
            Some((key, v)) => {
                self.remove(key);
                Some(v)
            },
            None => None,
        }
    }

    /// The present pairs `(key, value)` in ascending key order.
    #[verifier::loop_isolation(false)]
    pub fn to_vec(&self) -> (r: Vec<(usize, V)>)
        requires
            self.inv(),
        ensures
            r@.len() == self@.dom().len(),
            forall|i: int|
                0 <= i < r@.len() ==> #[trigger] r@[i].0 as int == self.keys()[i]
                    && self@.dom().contains(r@[i].0 as int) && r@[i].1 == self@[r@[i].0 as int],
    {
        proof {
            self.lemma_keys();
        }
        let ghost s = self.slots@;
        let ghost off = self.offset as int;
        let mut r: Vec<(usize, V)> = Vec::new();
        let mut i: usize = 0;
        while i < self.slots.len()
            invariant
                i <= s.len(),
                r@.len() == window_keys(s.take(i as int), off).len(),
                forall|j: int|
                    0 <= j < r@.len() ==> #[trigger] r@[j].0 as int == window_keys(
                        s.take(i as int),
                        off,
                    )[j] && self@.dom().contains(r@[j].0 as int) && r@[j].1 == self@[r@[j].0 as int],
            decreases s.len() - i,
        {
            proof {
                lemma_window_take_step(s, off, i as int);
                lemma_window_keys(s.take(i as int), off);
            }
            match self.slots[i] {
                Some(v) => {
                    proof {
                        assert(self@.dom().contains(off + i));
                    }
                    r.push((self.offset + i, v));
                },
                None => {},
            }
            i = i + 1;
        }
        proof {
            assert(s.take(s.len() as int) =~= s);
        }
        r
    }

    /// A fresh forward/backward cursor over this map's pairs.
    pub fn iter(&self) -> (it: UMapIter)
        ensures
            it.pos() == 0,
            it.rpos() == 0,
    {
        UMapIter { index: 0, rindex: 0 }
    }

    /// Maps `key` to `value` as [`UMap::put`] does, reporting
    /// [`CapacityOverflow`] instead when the key is the maximum
    /// representable index, whose window size `key + 1` cannot be computed.
    pub fn try_put(&mut self, key: usize, value: V) -> (r: Result<(), crate::CapacityOverflow>)
        requires
            old(self).inv(),
        ensures
            final(self).inv(),
            r is Ok <==> key < usize::MAX,
            key < usize::MAX ==> final(self)@ == if old(self)@.dom().contains(key as int) {
                old(self)@
            } else {
                old(self)@.insert(key as int, value)
            },
            key == usize::MAX ==> final(self)@ == old(self)@ && final(self).spec_capacity() == old(
                self,
            ).spec_capacity(),
    {
        if key == usize::MAX {
            Err(crate::CapacityOverflow)
        } else {
            self.put(key, value);
            Ok(())
        }
    }
}

/// Relies on itertools' `Itertools::minmax_by_key`: on an empty iterator
/// it yields `NoElements`; otherwise it yields an element whose key is
/// smallest and one whose key is largest (`OneElement` standing for both).
#[verifier::external_body]
fn minmax_keys<V>(entries: &[(usize, V)]) -> (r: Option<(usize, usize)>)
    ensures
        match r {
            Some(p) => {
                &&& entries@.len() > 0
                &&& exists|i: int| 0 <= i < entries@.len() && (#[trigger] entries@[i].0) == p.0
                &&& exists|i: int| 0 <= i < entries@.len() && (#[trigger] entries@[i].0) == p.1
                &&& forall|i: int|
                    0 <= i < entries@.len() ==> p.0 <= (#[trigger] entries@[i].0) <= p.1
            },
            None => entries@.len() == 0,
        },
{
    match entries.iter().minmax_by_key(|e| e.0) {
        MinMaxResult::NoElements => None,
        MinMaxResult::OneElement(e) => Some((e.0, e.0)),
        MinMaxResult::MinMax(a, b) => Some((a.0, b.0)),
    }
}

impl<V: Copy> UMap<V> {
    /// Builds a map from a slice of pairs with distinct keys.  The window
    /// is based at the smallest key and sized exactly to the key span.
    #[verifier::loop_isolation(false)]
    pub fn from_slice(entries: &[(usize, V)]) -> (r: Self)
        requires
            forall|i: int, j: int|
                0 <= i < j < entries@.len() ==> (#[trigger] entries@[i].0) != (
                #[trigger] entries@[j].0),
            forall|i: int| 0 <= i < entries@.len() ==> (#[trigger] entries@[i].0) < usize::MAX,
        ensures
            r.inv(),
            r@.dom().len() == entries@.len(),
            forall|i: int|
                0 <= i < entries@.len() ==> r@.dom().contains(
                    (#[trigger] entries@[i].0) as int,
                ) && r@[entries@[i].0 as int] == entries@[i].1,
            forall|k: int|
                #[trigger] r@.dom().contains(k) ==> exists|i: int|
                    0 <= i < entries@.len() && entries@[i].0 as int == k,
            entries@.len() == 0 ==> r.spec_capacity() == 0,
            entries@.len() > 0 ==> r.spec_offset() == r.spec_min() && r.spec_capacity()
                == r.spec_max() - r.spec_min() + 1,
    {
        match minmax_keys(entries) {
            None => {
                let r = UMap::new();
                r
            },
            Some((klo, khi)) => {
                proof {
                    let i = choose|i: int|
                        0 <= i < entries@.len() && (#[trigger] entries@[i].0) == klo;
                    assert(klo <= entries@[i].0);
                }
                let width = khi - klo + 1;
                let mut slots: Vec<Option<V>> = Vec::new();
                proof {
                    assert(window_map(slots@, klo as int) =~= Map::<int, V>::empty());
                    assert(window_map(slots@, klo as int).dom() =~= Set::<int>::empty());
                }
                let mut j: usize = 0;
                while j < width
                    invariant
                        j <= width,
                        slots@.len() == j,
                        window_map(slots@, klo as int) == Map::<int, V>::empty(),
                        window_map(slots@, klo as int).dom().len() == 0,
                    decreases width - j,
                {
                    proof {
                        lemma_window_push(slots@, klo as int, None::<V>);
                    }
                    slots.push(None);
                    j = j + 1;
                }
                let n = entries.len();
                let mut i: usize = 0;
                while i < n
                    invariant
                        i <= n,
                        slots@.len() == width,
                        window_map(slots@, klo as int).dom().len() == i,
                        forall|j2: int|
                            0 <= j2 < i ==> window_map(slots@, klo as int).dom().contains(
                                (#[trigger] entries@[j2].0) as int,
                            ) && window_map(slots@, klo as int)[entries@[j2].0 as int]
                                == entries@[j2].1,
                        forall|k: int|
                            #[trigger] window_map(slots@, klo as int).dom().contains(k)
                                ==> exists|j2: int|
                                0 <= j2 < i && entries@[j2].0 as int == k,
                    decreases n - i,
                {
                    let e = entries[i];
                    proof {
                        if window_map(slots@, klo as int).dom().contains(e.0 as int) {
                            let j2 = choose|j2: int|
                                0 <= j2 < i && entries@[j2].0 as int == e.0 as int;
                            assert(entries@[j2].0 == entries@[i as int].0);
                            assert(false);
                        }
                        lemma_window_update(slots@, klo as int, e.0 - klo, e.1);
                    }
                    slots.set(e.0 - klo, Some(e.1));
                    i = i + 1;
                }
                let r = UMap { slots, len: n, offset: klo, lo: klo, hi: khi };
                proof {
                    let ilo = choose|i2: int|
                        0 <= i2 < entries@.len() && (#[trigger] entries@[i2].0) == klo;
                    assert(r@.dom().contains(entries@[ilo].0 as int));
                    let ihi = choose|i2: int|
                        0 <= i2 < entries@.len() && (#[trigger] entries@[i2].0) == khi;
                    assert(r@.dom().contains(entries@[ihi].0 as int));
                }
                r
            },
        }
    }

    /// Bulk insert honoring first-write-wins per key: pairs whose key is
    /// already present leave the stored value in place.  An empty map is
    /// rebuilt tightly around the incoming keys; otherwise the window is
    /// extended as the keys require.
    #[verifier::loop_isolation(false)]
    pub fn add_all(&mut self, entries: &[(usize, V)])
        requires
            old(self).inv(),
            forall|i: int, j: int|
                0 <= i < j < entries@.len() ==> (#[trigger] entries@[i].0) != (
                #[trigger] entries@[j].0),
            forall|i: int| 0 <= i < entries@.len() ==> (#[trigger] entries@[i].0) < usize::MAX,
        ensures
            final(self).inv(),
            forall|k: int|
                #[trigger] final(self)@.dom().contains(k) <==> (old(self)@.dom().contains(k)
                    || exists|i: int| 0 <= i < entries@.len() && (#[trigger] entries@[i].0) as int == k),
            forall|k: int|
                #[trigger] old(self)@.dom().contains(k) ==> final(self)@[k] == old(self)@[k],
            forall|i: int|
                0 <= i < entries@.len() && !old(self)@.dom().contains((#[trigger] entries@[i].0) as int)
                    ==> final(self)@[entries@[i].0 as int] == entries@[i].1,
    {
        if self.is_empty() {
            let ghost oldm = self@;
            *self = UMap::from_slice(entries);
            proof {
                assert forall|k: int| #[trigger] oldm.dom().contains(k) implies self@[k]
                    == oldm[k] by {}
            }
        } else {
            let n = entries.len();
            let mut i: usize = 0;
            while i < n
                invariant
                    i <= n,
                    self.inv(),
                    forall|k: int|
                        #[trigger] self@.dom().contains(k) <==> (old(self)@.dom().contains(k)
                            || exists|j2: int| 0 <= j2 < i && (#[trigger] entries@[j2].0) as int == k),
                    forall|k: int|
                        #[trigger] old(self)@.dom().contains(k) ==> self@.dom().contains(k)
                            && self@[k] == old(self)@[k],
                    forall|j2: int|
                        0 <= j2 < i && !old(self)@.dom().contains((#[trigger] entries@[j2].0) as int)
                            ==> self@[entries@[j2].0 as int] == entries@[j2].1,
                decreases n - i,
            {
                let e = entries[i];
                if !self.contains(e.0) {
                    self.put(e.0, e.1);
                }
                proof {
                    assert forall|k: int| #[trigger] self@.dom().contains(k) implies (old(
                        self,
                    )@.dom().contains(k) || exists|j2: int|
                        0 <= j2 < i + 1 && (#[trigger] entries@[j2].0) as int == k) by {
                        if k == e.0 as int {
                            assert(entries@[i as int].0 as int == k);
                        }
                    }
                }
                i = i + 1;
            }
        }
    }
}

impl<V: Copy> UMap<V> {
    /// A fresh map with the same mapping, window, and bounds.
    #[verifier::loop_isolation(false)]
    fn duplicate(&self) -> (r: Self)
        requires
            self.inv(),
        ensures
            r.inv(),
            r@ == self@,
            r.spec_capacity() == self.spec_capacity(),
            r.spec_offset() == self.spec_offset(),
    {
        let mut slots2: Vec<Option<V>> = Vec::new();
        let mut i: usize = 0;
        while i < self.slots.len()
            invariant
                i <= self.slots@.len(),
                slots2@.len() == i,
                forall|t: int| 0 <= t < i ==> slots2@[t] == self.slots@[t],
            decreases self.slots@.len() - i,
        {
            slots2.push(self.slots[i]);
            i = i + 1;
        }
        proof {
            assert(slots2@ =~= self.slots@);
        }
        UMap { slots: slots2, len: self.len, offset: self.offset, lo: self.lo, hi: self.hi }
    }

    /// The union of two maps, as a freshly allocated map.  The operands
    /// must agree on every key they share; a shared key keeps the left
    /// operand's value.  When either operand is empty the result is a copy
    /// of the other; otherwise the window spans both operands' bounds.
    #[verifier::loop_isolation(false)]
    pub fn union(&self, other: &Self) -> (r: Self)
        requires
            self.inv(),
            other.inv(),
            forall|k: int|
                #[trigger] self@.dom().contains(k) && other@.dom().contains(k) ==> self@[k]
                    == other@[k],
        ensures
            r.inv(),
            r@.dom() == self@.dom().union(other@.dom()),
            forall|k: int| #[trigger] self@.dom().contains(k) ==> r@[k] == self@[k],
            forall|k: int| #[trigger] other@.dom().contains(k) ==> r@[k] == other@[k],
            self@.dom().len() == 0 ==> r.spec_capacity() == other.spec_capacity(),
            self@.dom().len() > 0 && other@.dom().len() == 0 ==> r.spec_capacity()
                == self.spec_capacity(),
            self@.dom().len() > 0 && other@.dom().len() > 0 ==> r.spec_offset() == (
            if self.spec_min() <= other.spec_min() {
                self.spec_min()
            } else {
                other.spec_min()
            }) && r.spec_capacity() == (if self.spec_max() >= other.spec_max() {
                self.spec_max()
            } else {
                other.spec_max()
            }) - r.spec_offset() + 1,
    {
        proof {
            self.lemma_keys();
            other.lemma_keys();
        }
        if self.is_empty() {
            let r = other.duplicate();
            proof {
                assert(r@.dom() =~= self@.dom().union(other@.dom()));
            }
            r
        } else if other.is_empty() {
            let r = self.duplicate();
            proof {
                assert(r@.dom() =~= self@.dom().union(other@.dom()));
            }
            r
        } else {
            let base = if self.lo < other.lo {
                self.lo
            } else {
                other.lo
            };
            let top = if self.hi > other.hi {
                self.hi
            } else {
                other.hi
            };
            let width = top - base + 1;
            let mut slots: Vec<Option<V>> = Vec::new();
            proof {
                assert(window_map(slots@, base as int) =~= Map::<int, V>::empty());
                assert(window_map(slots@, base as int).dom() =~= Set::<int>::empty());
            }
            let mut len: usize = 0;
            let mut j: usize = 0;
            while j < width
                invariant
                    j <= width,
                    slots@.len() == j,
                    len <= j,
                    len == window_map(slots@, base as int).dom().len(),
                    forall|t: int|
                        0 <= t < j ==> slots@[t] == (if self@.dom().contains(base + t) {
                            Some(self@[base + t])
                        } else if other@.dom().contains(base + t) {
                            Some(other@[base + t])
                        } else {
                            None
                        }),
                decreases width - j,
            {
                let k = base + j;
                let o = match self.get(k) {
                    Some(v) => Some(v),
                    None => other.get(k),
                };
                proof {
                    lemma_window_push(slots@, base as int, o);
                }
                slots.push(o);
                if o.is_some() {
                    len = len + 1;
                }
                j = j + 1;
            }
            let r = UMap { slots, len, offset: base, lo: base, hi: top };
            proof {
                assert(r@.dom() =~= self@.dom().union(other@.dom()));
                assert(r@.dom().contains(base as int));
                assert(r@.dom().contains(top as int));
            }
            r
        }
    }

    /// This map minus the keys of `other`, as a freshly allocated map.  A
    /// result with no keys is the canonical empty map; otherwise the result
    /// keeps this map's window and offset, with the bounds re-derived.
    #[verifier::loop_isolation(false)]
    pub fn difference(&self, other: &Self) -> (r: Self)
        requires
            self.inv(),
            other.inv(),
        ensures
            r.inv(),
            r@.dom() == self@.dom().difference(other@.dom()),
            forall|k: int| #[trigger] r@.dom().contains(k) ==> r@[k] == self@[k],
            r@.dom().len() == 0 ==> r.spec_capacity() == 0,
            r@.dom().len() > 0 ==> r.spec_capacity() == self.spec_capacity() && r.spec_offset()
                == self.spec_offset(),
    {
        proof {
            self.lemma_keys();
        }
        let ghost off = self.offset as int;
        let cap = self.slots.len();
        let mut slots2: Vec<Option<V>> = Vec::new();
        proof {
            assert(window_map(slots2@, off) =~= Map::<int, V>::empty());
            assert(window_map(slots2@, off).dom() =~= Set::<int>::empty());
        }
        let mut len: usize = 0;
        let mut first: usize = 0;
        let mut lastk: usize = 0;
        let mut t: usize = 0;
        while t < cap
            invariant
                t <= cap,
                slots2@.len() == t,
                len <= t,
                len == window_map(slots2@, off).dom().len(),
                forall|u: int|
                    0 <= u < t ==> slots2@[u] == (if self@.dom().contains(off + u)
                        && !other@.dom().contains(off + u) {
                        Some(self@[off + u])
                    } else {
                        None
                    }),
                len > 0 ==> window_map(slots2@, off).dom().contains(first as int) && window_map(
                    slots2@,
                    off,
                ).dom().contains(lastk as int) && (forall|k: int|
                    #[trigger] window_map(slots2@, off).dom().contains(k) ==> first <= k <= lastk),
                len > 0 ==> first <= lastk <= off + t - 1 && off <= first,
            decreases cap - t,
        {
            let o = match self.slots[t] {
                Some(v) => {
                    proof {
                        assert(self@.dom().contains(off + t));
                    }
                    if other.contains(self.offset + t) {
                        None
                    } else {
                        Some(v)
                    }
                },
                None => None,
            };
            proof {
                lemma_window_push(slots2@, off, o);
                if len == 0 {
                    lemma_window_keys(slots2@, off);
                    window_map(slots2@, off).dom().lemma_len0_is_empty();
                }
            }
            slots2.push(o);
            if o.is_some() {
                if len == 0 {
                    first = self.offset + t;
                }
                lastk = self.offset + t;
                len = len + 1;
            }
            t = t + 1;
        }
        if len == 0 {
            let r = UMap::new();
            proof {
                lemma_window_keys(slots2@, off);
                window_map(slots2@, off).dom().lemma_len0_is_empty();
                assert(r@.dom() =~= self@.dom().difference(other@.dom()));
            }
            r
        } else {
            let r = UMap { slots: slots2, len, offset: self.offset, lo: first, hi: lastk };
            proof {
                assert(r@.dom() =~= self@.dom().difference(other@.dom()));
            }
            r
        }
    }

    /// The intersection of two maps, as a freshly allocated map carrying
    /// the left operand's values.  A result with no keys is the canonical
    /// empty map; otherwise the window covers the overlap of the operands'
    /// bounds.
    #[verifier::loop_isolation(false)]
    pub fn intersection(&self, other: &Self) -> (r: Self)
        requires
            self.inv(),
            other.inv(),
        ensures
            r.inv(),
            r@.dom() == self@.dom().intersect(other@.dom()),
            forall|k: int| #[trigger] r@.dom().contains(k) ==> r@[k] == self@[k],
            r@.dom().len() == 0 ==> r.spec_capacity() == 0,
    {
        proof {
            self.lemma_keys();
            other.lemma_keys();
        }
        if self.is_empty() || other.is_empty() {
            let r = UMap::new();
            proof {
                assert(r@.dom() =~= self@.dom().intersect(other@.dom()));
            }
            return r;
        }
        let base = if self.lo > other.lo {
            self.lo
        } else {
            other.lo
        };
        let top = if self.hi < other.hi {
            self.hi
        } else {
            other.hi
        };
        if base > top {
            let r = UMap::new();
            proof {
                assert(r@.dom() =~= self@.dom().intersect(other@.dom()));
            }
            return r;
        }
        let width = top - base + 1;
        let mut slots: Vec<Option<V>> = Vec::new();
        proof {
            assert(window_map(slots@, base as int) =~= Map::<int, V>::empty());
            assert(window_map(slots@, base as int).dom() =~= Set::<int>::empty());
        }
        let mut len: usize = 0;
        let mut first: usize = 0;
        let mut lastk: usize = 0;
        let mut j: usize = 0;
        while j < width
            invariant
                j <= width,
                slots@.len() == j,
                len <= j,
                len == window_map(slots@, base as int).dom().len(),
                forall|t: int|
                    0 <= t < j ==> slots@[t] == (if self@.dom().contains(base + t)
                        && other@.dom().contains(base + t) {
                        Some(self@[base + t])
                    } else {
                        None
                    }),
                len > 0 ==> window_map(slots@, base as int).dom().contains(first as int)
                    && window_map(slots@, base as int).dom().contains(lastk as int) && (forall|
                    k: int,
                |
                    #[trigger] window_map(slots@, base as int).dom().contains(k) ==> first <= k
                        <= lastk),
                len > 0 ==> base <= first <= lastk <= base + j - 1,
            decreases width - j,
        {
            let k = base + j;
            let o = if other.contains(k) {
                self.get(k)
            } else {
                None
            };
            proof {
                lemma_window_push(slots@, base as int, o);
                if len == 0 {
                    lemma_window_keys(slots@, base as int);
                    window_map(slots@, base as int).dom().lemma_len0_is_empty();
                }
            }
            slots.push(o);
            if o.is_some() {
                if len == 0 {
                    first = k;
                }
                lastk = k;
                len = len + 1;
            }
            j = j + 1;
        }
        if len == 0 {
            let r = UMap::new();
            proof {
                lemma_window_keys(slots@, base as int);
                window_map(slots@, base as int).dom().lemma_len0_is_empty();
                assert(r@.dom() =~= self@.dom().intersect(other@.dom()));
            }
            r
        } else {
            let r = UMap { slots, len, offset: base, lo: first, hi: lastk };
            proof {
                assert(r@.dom() =~= self@.dom().intersect(other@.dom()));
            }
            r
        }
    }

    /// The symmetric difference of two maps: the pairs of the union whose
    /// keys are not shared, computed as the union minus the intersection.
    /// The operands must agree on every key they share, as for
    /// [`UMap::union`].
    pub fn symmetric_difference(&self, other: &Self) -> (r: Self)
        requires
            self.inv(),
            other.inv(),
            forall|k: int|
                #[trigger] self@.dom().contains(k) && other@.dom().contains(k) ==> self@[k]
                    == other@[k],
        ensures
            r.inv(),
            r@.dom() == self@.dom().union(other@.dom()).difference(
                self@.dom().intersect(other@.dom()),
            ),
            forall|k: int|
                #[trigger] r@.dom().contains(k) <==> (self@.dom().contains(k)
                    != other@.dom().contains(k)),
            forall|k: int|
                #[trigger] r@.dom().contains(k) && self@.dom().contains(k) ==> r@[k] == self@[k],
            forall|k: int|
                #[trigger] r@.dom().contains(k) && other@.dom().contains(k) ==> r@[k] == other@[k],
    {
        let u = self.union(other);
        let i = self.intersection(other);
        let r = u.difference(&i);
        proof {
            assert forall|k: int| #[trigger] r@.dom().contains(k) implies (self@.dom().contains(k)
                != other@.dom().contains(k)) by {}
        }
        r
    }
}

/// First-write-wins: after mapping an absent key to one value and then
/// writing a second value at the same key, the first value is the one
/// stored.  The two steps are exactly what two consecutive insertions of
/// the same key yield.
pub proof fn lemma_first_write_wins<V>(m0: Map<int, V>, m1: Map<int, V>, m2: Map<int, V>, k: int, v1: V, v2: V)
    requires
        !m0.dom().contains(k),
        m1 == if m0.dom().contains(k) {
            m0
        } else {
            m0.insert(k, v1)
        },
        m2 == if m1.dom().contains(k) {
            m1
        } else {
            m1.insert(k, v2)
        },
    ensures
        m2.dom().contains(k),
        m2[k] == v1,
{
}

impl UMapIter {
    /// Next slot the forward direction will examine.
    pub closed spec fn pos(self) -> int {
        self.index as int
    }

    /// Number of slots already consumed from the rear.
    pub closed spec fn rpos(self) -> int {
        self.rindex as int
    }

    /// Yields the not-yet-visited pair with the smallest key, or `None`
    /// once the two directions have met.
    pub fn next<V: Copy>(&mut self, m: &UMap<V>) -> (r: Option<(usize, V)>)
        requires
            m.inv(),
            old(self).pos() + old(self).rpos() <= m.spec_capacity(),
        ensures
            final(self).rpos() == old(self).rpos(),
            match r {
                Some(p) => {
                    &&& m@.dom().contains(p.0 as int)
                    &&& p.1 == m@[p.0 as int]
                    &&& old(self).pos() <= p.0 as int - m.spec_offset() < m.spec_capacity() - old(
                        self,
                    ).rpos()
                    &&& forall|k: int|
                        m.spec_offset() + old(self).pos() <= k < p.0 ==> !m@.dom().contains(k)
                    &&& final(self).pos() == p.0 as int - m.spec_offset() + 1
                },
                None => {
                    &&& forall|k: int|
                        m.spec_offset() + old(self).pos() <= k < m.spec_offset()
                            + m.spec_capacity() - old(self).rpos() ==> !m@.dom().contains(k)
                    &&& final(self).pos() == m.spec_capacity() - old(self).rpos()
                },
            },
    {
        let hi = m.slots.len() - self.rindex;
        while self.index < hi
            invariant
                old(self).pos() <= self.index as int <= hi as int,
                self.rindex == old(self).rindex,
                m.inv(),
                hi as int == m.spec_capacity() - old(self).rpos(),
                forall|k: int|
                    m.spec_offset() + old(self).pos() <= k < m.spec_offset() + self.index as int
                        ==> !m@.dom().contains(k),
            decreases hi - self.index,
        {
            let i = self.index;
            self.index = i + 1;
            match m.slots[i] {
                Some(v) => {
                    proof {
                        assert(m@.dom().contains(m.spec_offset() + i));
                        m.lemma_keys();
                    }
                    return Some((m.offset + i, v));
                },
                None => {},
            }
        }
        None
    }

    /// Yields the not-yet-visited pair with the largest key, or `None`
    /// once the two directions have met.
    pub fn next_back<V: Copy>(&mut self, m: &UMap<V>) -> (r: Option<(usize, V)>)
        requires
            m.inv(),
            old(self).pos() + old(self).rpos() <= m.spec_capacity(),
        ensures
            final(self).pos() == old(self).pos(),
            match r {
                Some(p) => {
                    &&& m@.dom().contains(p.0 as int)
                    &&& p.1 == m@[p.0 as int]
                    &&& old(self).pos() <= p.0 as int - m.spec_offset() < m.spec_capacity() - old(
                        self,
                    ).rpos()
                    &&& forall|k: int|
                        p.0 < k < m.spec_offset() + m.spec_capacity() - old(self).rpos()
                            ==> !m@.dom().contains(k)
                    &&& final(self).rpos() == m.spec_capacity() - (p.0 as int - m.spec_offset())
                },
                None => {
                    &&& forall|k: int|
                        m.spec_offset() + old(self).pos() <= k < m.spec_offset()
                            + m.spec_capacity() - old(self).rpos() ==> !m@.dom().contains(k)
                    &&& final(self).rpos() == m.spec_capacity() - old(self).pos()
                },
            },
    {
        let len = m.slots.len();
        while self.rindex < len - self.index
            invariant
                old(self).rpos() <= self.rindex as int,
                self.rindex as int + self.index as int <= len as int,
                self.index == old(self).index,
                m.inv(),
                len == m.spec_capacity(),
                forall|k: int|
                    m.spec_offset() + len - self.rindex as int <= k < m.spec_offset() + len - old(
                        self,
                    ).rpos() ==> !m@.dom().contains(k),
            decreases len - self.index - self.rindex,
        {
            let i = len - self.rindex - 1;
            self.rindex = self.rindex + 1;
            match m.slots[i] {
                Some(v) => {
                    proof {
                        assert(m@.dom().contains(m.spec_offset() + i));
                        m.lemma_keys();
                    }
                    return Some((m.offset + i, v));
                },
                None => {},
            }
        }
        None
    }
}

} // verus!

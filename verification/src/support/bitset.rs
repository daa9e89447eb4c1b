use vstd::prelude::*;

use crate::svec::WordList;
use crate::svec::word_list;

verus! {

/// Whether bit `b` of the word `w` is set.
pub open spec fn wbit(w: u32, b: int) -> bool {
    0 <= b < 32 && (w >> (b as u32)) & 1u32 == 1u32
}


/// The first `w` items of `a` combined with the matching items of `b` by
/// `op`; the rest of `a` unchanged. `op` selects among the three word
/// operations of the set.
spec fn combine_prefix(a: Seq<u32>, b: Seq<u32>, w: int, op: int) -> Seq<u32> {
    Seq::new(
        a.len(),
        |j: int|
            if j < w {
                if op == 0 {
                    a[j] & b[j]
                } else if op == 1 {
                    a[j] | b[j]
                } else {
                    a[j] & !b[j]
                }
            } else {
                a[j]
            },
    )
}


/// `r` holds the bits set in both `a` and `b`, over `a`'s universe.
pub open spec fn is_intersection(r: FixedBitSet, a: FixedBitSet, b: FixedBitSet) -> bool {
    &&& r.nwords() == a.nwords()
    &&& forall|i: int| r.has_spec(i) == (a.has_spec(i) && b.has_spec(i))
}

/// `r` holds the bits set in `a` or in `b`, over `a`'s universe.
pub open spec fn is_union(r: FixedBitSet, a: FixedBitSet, b: FixedBitSet) -> bool {
    &&& r.nwords() == a.nwords()
    &&& forall|i: int| r.has_spec(i) == (a.has_spec(i) || b.has_spec(i))
}

/// `r` holds the bits set in `a` but not in `b`, over `a`'s universe.
pub open spec fn is_difference(r: FixedBitSet, a: FixedBitSet, b: FixedBitSet) -> bool {
    &&& r.nwords() == a.nwords()
    &&& forall|i: int| r.has_spec(i) == (a.has_spec(i) && !b.has_spec(i))
}

/// Fixed-universe set of small integers, stored as 32-bit words.
///
/// The universe is chosen at construction and rounded up to a whole
/// number of words; all operations are word-level bit arithmetic.
pub struct FixedBitSet {
    buckets: WordList,
}

impl FixedBitSet {
    /// The backing words.
    pub closed spec fn words(self) -> Seq<u32> {
        word_list(self.buckets)
    }

    /// How many words back the set.
    pub open spec fn nwords(self) -> int {
        self.words().len() as int
    }

    /// How many bit positions the set can hold.
    pub open spec fn capacity_spec(self) -> int {
        32 * self.nwords()
    }

    /// The capacity in bits stays representable, which every constructor
    /// guarantees and no operation changes.
    pub open spec fn wf(self) -> bool {
        32 * self.nwords() <= usize::MAX
    }

    /// Whether bit `i` is in the set; positions outside the universe are out.
    pub closed spec fn has_spec(self, i: int) -> bool {
        0 <= i < self.capacity_spec() && wbit(self.words()[i / 32], i % 32)
    }

    /// How many of the bit positions below `n` are in the set.
    pub open spec fn count_below(self, n: int) -> nat
        decreases n,
    {
        if n <= 0 {
            0
        } else {
            self.count_below(n - 1) + (if self.has_spec(n - 1) {
                1nat
            } else {
                0nat
            })
        }
    }

    /// The set bit positions below `n`, in ascending order.
    pub open spec fn ones_below(self, n: int) -> Seq<int>
        decreases n,
    {
        if n <= 0 {
            Seq::empty()
        } else if self.has_spec(n - 1) {
            self.ones_below(n - 1).push(n - 1)
        } else {
            self.ones_below(n - 1)
        }
    }

    /// The clear bit positions below `n`, in ascending order.
    pub open spec fn zeroes_below(self, n: int) -> Seq<int>
        decreases n,
    {
        if n <= 0 {
            Seq::empty()
        } else if !self.has_spec(n - 1) {
            self.zeroes_below(n - 1).push(n - 1)
        } else {
            self.zeroes_below(n - 1)
        }
    }

    fn bits_in_bucket() -> (r: usize)
        ensures
            r == 32,
    {
        32
    }

    fn filled(size: usize, value: u32) -> (r: Self)
        requires
            size + 31 <= usize::MAX,
        ensures
            r.nwords() == (size + 31) / 32,
            r.wf(),
            forall|i: int| 0 <= i < r.capacity_spec() ==> r.has_spec(i) == wbit(value, i % 32),
    {
        let words = (size + (Self::bits_in_bucket() - 1)) / Self::bits_in_bucket();
        let buckets = WordList::filled(words, value);
        let r = FixedBitSet { buckets };
        proof {
            assert forall|i: int| 0 <= i < r.capacity_spec() implies r.has_spec(i) == wbit(
                value,
                i % 32,
            ) by {
                assert(0 <= i / 32 < r.nwords());
                assert(r.words()[i / 32] == value);
            }
        }
        r
    }

    /// A set over `size` positions with every bit clear.
    pub fn zeroes(size: usize) -> (r: Self)
        requires
            size + 31 <= usize::MAX,
        ensures
            r.nwords() == (size + 31) / 32,
            r.wf(),
            forall|i: int| !r.has_spec(i),
    {
        let r = Self::filled(size, 0);
        proof {
            assert forall|i: int| !r.has_spec(i) by {
                if 0 <= i < r.capacity_spec() {
                    assert(!wbit(0u32, i % 32)) by {
                        let b = (i % 32) as u32;
                        assert((0u32 >> b) & 1u32 != 1u32) by (bit_vector);
                    }
                }
            }
        }
        r
    }

    /// A set over `size` positions with every bit of every word set.
    pub fn ones(size: usize) -> (r: Self)
        requires
            size + 31 <= usize::MAX,
        ensures
            r.nwords() == (size + 31) / 32,
            r.wf(),
            forall|i: int| r.has_spec(i) == (0 <= i < r.capacity_spec()),
    {
        let r = Self::filled(size, u32::MAX);
        proof {
            assert forall|i: int| 0 <= i < r.capacity_spec() implies r.has_spec(i) by {
                assert(wbit(u32::MAX, i % 32)) by {
                    let b = (i % 32) as u32;
                    assert(b < 32 ==> (u32::MAX >> b) & 1u32 == 1u32) by (bit_vector);
                }
            }
        }
        r
    }

    /// How many words back the set.
    pub fn words_len(&self) -> (r: usize)
        ensures
            r == self.nwords(),
    {
        self.buckets.len()
    }

    /// How many bits are set.
    pub fn ones_count(&self) -> (r: usize)
        requires
            self.wf(),
        ensures
            r == self.count_below(self.capacity_spec()),
    {
        let n = self.buckets.len();
        let mut w: usize = 0;
        let mut c: usize = 0;
        proof {
            self.lemma_count_bounded(0, self.capacity_spec());
        }
        while w < n
            invariant
                self.wf(),
                n == self.nwords(),
                w <= n,
                c == self.count_below(32 * w),
                c <= 32 * w,
            decreases n - w,
        {
            let word = self.buckets.get(w);
            let mut b: usize = 0;
            while b < 32
                invariant
                    self.wf(),
                    n == self.nwords(),
                    w < n,
                    b <= 32,
                    word == self.words()[w as int],
                    c == self.count_below(32 * w + b),
                    c <= 32 * w + b,
                decreases 32 - b,
            {
                let ghost i: int = 32 * (w as int) + b as int;
                proof {
                    assert(i / 32 == w && i % 32 == b) by (nonlinear_arith)
                        requires
                            i == 32 * (w as int) + b,
                            0 <= b < 32,
                            w >= 0,
                    ;
                }
                if (word >> (b as u32)) & 1u32 == 1u32 {
                    assert(self.has_spec(i));
                    c = c + 1;
                } else {
                    assert(!self.has_spec(i));
                }
                b += 1;
            }
            w += 1;
        }
        proof {
            assert(32 * (n as int) == self.capacity_spec());
        }
        c
    }

    /// A prefix of length `hi - lo` holds at most that many members.
    pub proof fn lemma_count_bounded(self, lo: int, hi: int)
        requires
            0 <= lo <= hi,
        ensures
            self.count_below(hi) <= self.count_below(lo) + (if hi >= lo {
                hi - lo
            } else {
                0
            }),
        decreases (if hi >= lo {
            hi - lo
        } else {
            0
        }),
    {
        if hi > lo {
            self.lemma_count_bounded(lo, hi - 1);
            assert(self.count_below(hi) == self.count_below(hi - 1) + (if self.has_spec(hi - 1) {
                1nat
            } else {
                0nat
            }));
        }
    }

    /// Intersects `self` with `other` in place.
    pub fn intersect(&mut self, other: &FixedBitSet)
        requires
            old(self).nwords() == other.nwords(),
        ensures
            is_intersection(*final(self), *old(self), *other),
    {
        let n = self.buckets.len();
        let ghost a = old(self).words();
        let ghost bb = other.words();
        let mut w: usize = 0;
        proof {
            assert(self.words() =~= combine_prefix(a, bb, 0, 0));
        }
        while w < n
            invariant
                n == other.nwords(),
                a.len() == n,
                bb == other.words(),
                w <= n,
                self.words() == combine_prefix(a, bb, w as int, 0),
            decreases n - w,
        {
            let x = self.buckets.get(w);
            let y = other.buckets.get(w);
            self.buckets.set(w, x & y);
            proof {
                assert(self.words() =~= combine_prefix(a, bb, w + 1, 0));
            }
            w += 1;
        }
        proof {
            assert forall|i: int|
                #![trigger self.has_spec(i)]
                self.has_spec(i) == (old(self).has_spec(i) && other.has_spec(i)) by {
                if 0 <= i < 32 * (n as int) {
                    assert(0 <= i / 32 < n && 0 <= i % 32 < 32) by (nonlinear_arith)
                        requires
                            0 <= i < 32 * (n as int),
                    ;
                    let x = a[i / 32];
                    let y = bb[i / 32];
                    let b = (i % 32) as u32;
                    assert(self.words()[i / 32] == (x & y));
                    assert((((x & y) >> b) & 1u32 == 1u32 <==> ((x >> b) & 1u32 == 1u32 && (y >> b) & 1u32 == 1u32))) by (bit_vector);
                }
            }
            assert(is_intersection(*self, *old(self), *other));
        }
    }

    /// Unions `other` into `self` in place.
    pub fn union(&mut self, other: &FixedBitSet)
        requires
            old(self).nwords() == other.nwords(),
        ensures
            is_union(*final(self), *old(self), *other),
    {
        let n = self.buckets.len();
        let ghost a = old(self).words();
        let ghost bb = other.words();
        let mut w: usize = 0;
        proof {
            assert(self.words() =~= combine_prefix(a, bb, 0, 1));
        }
        while w < n
            invariant
                n == other.nwords(),
                a.len() == n,
                bb == other.words(),
                w <= n,
                self.words() == combine_prefix(a, bb, w as int, 1),
            decreases n - w,
        {
            let x = self.buckets.get(w);
            let y = other.buckets.get(w);
            self.buckets.set(w, x | y);
            proof {
                assert(self.words() =~= combine_prefix(a, bb, w + 1, 1));
            }
            w += 1;
        }
        proof {
            assert forall|i: int|
                #![trigger self.has_spec(i)]
                self.has_spec(i) == (old(self).has_spec(i) || other.has_spec(i)) by {
                if 0 <= i < 32 * (n as int) {
                    assert(0 <= i / 32 < n && 0 <= i % 32 < 32) by (nonlinear_arith)
                        requires
                            0 <= i < 32 * (n as int),
                    ;
                    let x = a[i / 32];
                    let y = bb[i / 32];
                    let b = (i % 32) as u32;
                    assert(self.words()[i / 32] == (x | y));
                    assert((((x | y) >> b) & 1u32 == 1u32 <==> ((x >> b) & 1u32 == 1u32 || (y >> b) & 1u32 == 1u32))) by (bit_vector);
                }
            }
            assert(is_union(*self, *old(self), *other));
        }
    }

    /// Removes every bit of `other` from `self` in place.
    pub fn difference(&mut self, other: &FixedBitSet)
        requires
            old(self).nwords() == other.nwords(),
        ensures
            is_difference(*final(self), *old(self), *other),
    {
        let n = self.buckets.len();
        let ghost a = old(self).words();
        let ghost bb = other.words();
        let mut w: usize = 0;
        proof {
            assert(self.words() =~= combine_prefix(a, bb, 0, 2));
        }
        while w < n
            invariant
                n == other.nwords(),
                a.len() == n,
                bb == other.words(),
                w <= n,
                self.words() == combine_prefix(a, bb, w as int, 2),
            decreases n - w,
        {
            let x = self.buckets.get(w);
            let y = other.buckets.get(w);
            self.buckets.set(w, x & !y);
            proof {
                assert(self.words() =~= combine_prefix(a, bb, w + 1, 2));
            }
            w += 1;
        }
        proof {
            assert forall|i: int|
                #![trigger self.has_spec(i)]
                self.has_spec(i) == (old(self).has_spec(i) && !other.has_spec(i)) by {
                if 0 <= i < 32 * (n as int) {
                    assert(0 <= i / 32 < n && 0 <= i % 32 < 32) by (nonlinear_arith)
                        requires
                            0 <= i < 32 * (n as int),
                    ;
                    let x = a[i / 32];
                    let y = bb[i / 32];
                    let b = (i % 32) as u32;
                    assert(self.words()[i / 32] == (x & !y));
                    assert((((x & !y) >> b) & 1u32 == 1u32 <==> ((x >> b) & 1u32 == 1u32 && !((y >> b) & 1u32 == 1u32)))) by (bit_vector);
                }
            }
            assert(is_difference(*self, *old(self), *other));
        }
    }

    /// Inserts the bit at `index`.
    pub fn add(&mut self, index: usize)
        requires
            index < old(self).capacity_spec(),
        ensures
            final(self).nwords() == old(self).nwords(),
            forall|i: int|
                final(self).has_spec(i) == (i == index || old(self).has_spec(i)),
    {
        let num_bucket = index / 32;
        let bit_pos = index % 32;
        let x = self.buckets.get(num_bucket);
        self.buckets.set(num_bucket, x | (1u32 << (bit_pos as u32)));
        proof {
            let wi = index as int / 32;
            let bi = (index as int) % 32;
            assert forall|i: int|
                self.has_spec(i) == (i == index || old(self).has_spec(i)) by {
                let b = (i % 32) as u32;
                let p = bi as u32;
                let xo = old(self).words()[i / 32];
                if 0 <= i < old(self).capacity_spec() {
                    if i / 32 == wi {
                        assert(((xo | (1u32 << p)) >> b) & 1u32 == 1u32 <==> (b == p || (xo >> b)
                            & 1u32 == 1u32)) by (bit_vector)
                            requires
                                b < 32,
                                p < 32,
                        ;
                        assert(i % 32 == bi && i / 32 == wi <==> i == index) by (nonlinear_arith)
                            requires
                                wi == index as int / 32,
                                bi == index as int % 32,
                        ;
                    }
                }
            }
        }
    }

    /// Removes the bit at `index`.
    pub fn del(&mut self, index: usize)
        requires
            index < old(self).capacity_spec(),
        ensures
            final(self).nwords() == old(self).nwords(),
            forall|i: int|
                final(self).has_spec(i) == (i != index && old(self).has_spec(i)),
    {
        let num_bucket = index / 32;
        let bit_pos = index % 32;
        let x = self.buckets.get(num_bucket);
        self.buckets.set(num_bucket, x & !(1u32 << (bit_pos as u32)));
        proof {
            let wi = index as int / 32;
            let bi = (index as int) % 32;
            assert forall|i: int|
                self.has_spec(i) == (i != index && old(self).has_spec(i)) by {
                let b = (i % 32) as u32;
                let p = bi as u32;
                let xo = old(self).words()[i / 32];
                if 0 <= i < old(self).capacity_spec() {
                    if i / 32 == wi {
                        assert(((xo & !(1u32 << p)) >> b) & 1u32 == 1u32 <==> (b != p && (xo >> b)
                            & 1u32 == 1u32)) by (bit_vector)
                            requires
                                b < 32,
                                p < 32,
                        ;
                        assert(i % 32 == bi && i / 32 == wi <==> i == index) by (nonlinear_arith)
                            requires
                                wi == index as int / 32,
                                bi == index as int % 32,
                        ;
                    }
                }
            }
        }
    }

    /// Whether the bit at `index` is set; out-of-range queries answer no.
    pub fn has(&self, index: usize) -> (r: bool)
        ensures
            r == self.has_spec(index as int),
            index as int >= self.capacity_spec() ==> !r,
    {
        let num_bucket = index / 32;
        if num_bucket >= self.buckets.len() {
            proof {
                assert(index >= self.capacity_spec()) by (nonlinear_arith)
                    requires
                        index as int / 32 >= self.nwords(),
                        index >= 0,
                        self.nwords() >= 0,
                ;
            }
            return false;
        }
        let bit_pos = index % 32;
        let w = self.buckets.get(num_bucket);
        proof {
            assert(index < self.capacity_spec()) by (nonlinear_arith)
                requires
                    index as int / 32 < self.nwords(),
                    index >= 0,
            ;
        }
        (w >> (bit_pos as u32)) & 1u32 == 1u32
    }

    /// Whether both sets have the same universe and the same members.
    pub fn equals(&self, other: &FixedBitSet) -> (r: bool)
        ensures
            r == (self.nwords() == other.nwords() && forall|i: int|
                self.has_spec(i) == other.has_spec(i)),
    {
        if self.buckets.len() != other.buckets.len() {
            return false;
        }
        let n = self.buckets.len();
        let mut w: usize = 0;
        while w < n
            invariant
                n == self.nwords() == other.nwords(),
                w <= n,
                forall|i: int|
                    0 <= i < 32 * w ==> self.has_spec(i) == other.has_spec(i),
            decreases n - w,
        {
            let x = self.buckets.get(w);
            let y = other.buckets.get(w);
            let mut b: usize = 0;
            while b < 32
                invariant
                    n == self.nwords() == other.nwords(),
                    w < n,
                    b <= 32,
                    x == self.words()[w as int],
                    y == other.words()[w as int],
                    forall|i: int|
                        0 <= i < 32 * w + b ==> self.has_spec(i) == other.has_spec(i),
                decreases 32 - b,
            {
                let ghost i: int = 32 * (w as int) + b as int;
                proof {
                    assert(i / 32 == w && i % 32 == b) by (nonlinear_arith)
                        requires
                            i == 32 * (w as int) + b,
                            0 <= b < 32,
                            w >= 0,
                    ;
                }
                if (x >> (b as u32)) & 1u32 != (y >> (b as u32)) & 1u32 {
                    proof {
                        let bb = b as u32;
                        assert((x >> bb) & 1u32 == 1u32 || (x >> bb) & 1u32 == 0u32)
                            by (bit_vector);
                        assert((y >> bb) & 1u32 == 1u32 || (y >> bb) & 1u32 == 0u32)
                            by (bit_vector);
                        assert(self.has_spec(i) != other.has_spec(i));
                    }
                    return false;
                }
                b += 1;
            }
            w += 1;
        }
        proof {
            assert forall|i: int| self.has_spec(i) == other.has_spec(i) by {
                if 0 <= i < self.capacity_spec() {
                }
            }
        }
        true
    }

    /// The set bit positions, ascending.
    pub fn iter_ones(&self) -> (r: Vec<usize>)
        requires
            self.wf(),
        ensures
            r@.map_values(|u: usize| u as int) == self.ones_below(self.capacity_spec()),
    {
        let n = self.buckets.len();
        let mut out: Vec<usize> = Vec::new();
        let mut w: usize = 0;
        while w < n
            invariant
                self.wf(),
                n == self.nwords(),
                w <= n,
                out@.map_values(|u: usize| u as int) == self.ones_below(32 * w),
            decreases n - w,
        {
            let word = self.buckets.get(w);
            let mut b: usize = 0;
            while b < 32
                invariant
                    self.wf(),
                    n == self.nwords(),
                    w < n,
                    b <= 32,
                    word == self.words()[w as int],
                    out@.map_values(|u: usize| u as int) == self.ones_below(32 * w + b),
                decreases 32 - b,
            {
                let i: usize = 32 * w + b;
                proof {
                    assert(i as int / 32 == w && i as int % 32 == b) by (nonlinear_arith)
                        requires
                            i as int == 32 * (w as int) + b,
                            0 <= b < 32,
                            w >= 0,
                    ;
                }
                if (word >> (b as u32)) & 1u32 == 1u32 {
                    assert(self.has_spec(i as int));
                    out.push(i);
                    proof {
                        assert(out@.map_values(|u: usize| u as int) == self.ones_below(
                            32 * w + b,
                        ).push(i as int));
                    }
                } else {
                    assert(!self.has_spec(i as int));
                }
                b += 1;
            }
            w += 1;
        }
        out
    }

    /// The clear bit positions, ascending.
    pub fn iter_zeroes(&self) -> (r: Vec<usize>)
        requires
            self.wf(),
        ensures
            r@.map_values(|u: usize| u as int) == self.zeroes_below(self.capacity_spec()),
    {
        let n = self.buckets.len();
        let mut out: Vec<usize> = Vec::new();
        let mut w: usize = 0;
        while w < n
            invariant
                self.wf(),
                n == self.nwords(),
                w <= n,
                out@.map_values(|u: usize| u as int) == self.zeroes_below(32 * w),
            decreases n - w,
        {
            let word = self.buckets.get(w);
            let mut b: usize = 0;
            while b < 32
                invariant
                    self.wf(),
                    n == self.nwords(),
                    w < n,
                    b <= 32,
                    word == self.words()[w as int],
                    out@.map_values(|u: usize| u as int) == self.zeroes_below(32 * w + b),
                decreases 32 - b,
            {
                let i: usize = 32 * w + b;
                proof {
                    assert(i as int / 32 == w && i as int % 32 == b) by (nonlinear_arith)
                        requires
                            i as int == 32 * (w as int) + b,
                            0 <= b < 32,
                            w >= 0,
                    ;
                }
                if (word >> (b as u32)) & 1u32 == 1u32 {
                    assert(self.has_spec(i as int));
                } else {
                    assert(!self.has_spec(i as int));
                    out.push(i);
                    proof {
                        assert(out@.map_values(|u: usize| u as int) == self.zeroes_below(
                            32 * w + b,
                        ).push(i as int));
                    }
                }
                b += 1;
            }
            w += 1;
        }
        out
    }

    /// Clears every bit.
    pub fn clear(&mut self)
        ensures
            final(self).nwords() == old(self).nwords(),
            forall|i: int| !final(self).has_spec(i),
    {
        let n = self.buckets.len();
        let mut w: usize = 0;
        while w < n
            invariant
                n == self.nwords(),
                w <= n,
                forall|j: int| 0 <= j < w ==> self.words()[j] == 0u32,
            decreases n - w,
        {
            self.buckets.set(w, 0);
            w += 1;
        }
        proof {
            assert forall|i: int| !self.has_spec(i) by {
                if 0 <= i < self.capacity_spec() {
                    let b = (i % 32) as u32;
                    assert((0u32 >> b) & 1u32 != 1u32) by (bit_vector);
                }
            }
        }
    }
}

/// A set whose members all lie below `n` counts the same up to any
/// higher bound.
/// `ones_below(n)` lists exactly the members of the set below `n`.
pub proof fn lemma_ones_below_members(s: FixedBitSet, n: int)
    ensures
        forall|k: int|
            0 <= k < s.ones_below(n).len() ==> 0 <= #[trigger] s.ones_below(n)[k] < n
                && s.has_spec(s.ones_below(n)[k]),
        forall|i: int| 0 <= i < n && s.has_spec(i) ==> s.ones_below(n).contains(i),
    decreases n,
{
    if n > 0 {
        lemma_ones_below_members(s, n - 1);
        let prev = s.ones_below(n - 1);
        let cur = s.ones_below(n);
        assert forall|k: int|
            0 <= k < cur.len() implies 0 <= #[trigger] cur[k] < n && s.has_spec(cur[k]) by {
            if k < prev.len() {
                assert(cur[k] == prev[k]);
            } else {
                assert(s.has_spec(n - 1));
                assert(cur[k] == n - 1);
            }
        }
        assert forall|i: int| 0 <= i < n && s.has_spec(i) implies cur.contains(i) by {
            if i < n - 1 {
                assert(prev.contains(i));
                let k = choose|k: int| 0 <= k < prev.len() && prev[k] == i;
                assert(cur[k] == i);
            } else {
                assert(cur.last() == i);
            }
        }
    }
}

pub proof fn lemma_count_high_zero(s: FixedBitSet, n: int, m: int)
    requires
        0 <= n <= m,
        forall|i: int| n <= i < m ==> !s.has_spec(i),
    ensures
        s.count_below(m) == s.count_below(n),
    decreases m - n,
{
    if m > n {
        lemma_count_high_zero(s, n, m - 1);
    }
}

/// Adding one new member below `m` raises the count below `m` by one.
pub proof fn lemma_count_add_one(pre: FixedBitSet, post: FixedBitSet, idx: int, m: int)
    requires
        0 <= idx < m,
        !pre.has_spec(idx),
        post.has_spec(idx),
        forall|i: int| i != idx ==> post.has_spec(i) == pre.has_spec(i),
    ensures
        post.count_below(m) == pre.count_below(m) + 1,
    decreases m,
{
    if m - 1 == idx {
        lemma_count_same(pre, post, idx, m - 1);
    } else {
        lemma_count_add_one(pre, post, idx, m - 1);
    }
}

/// Two sets that agree on every position except `idx` count the same
/// below any bound not exceeding `idx`.
proof fn lemma_count_same(pre: FixedBitSet, post: FixedBitSet, idx: int, m: int)
    requires
        m <= idx,
        forall|i: int| i != idx ==> post.has_spec(i) == pre.has_spec(i),
    ensures
        post.count_below(m) == pre.count_below(m),
    decreases m,
{
    if m > 0 {
        lemma_count_same(pre, post, idx, m - 1);
    }
}

/// If `a` is a subset of `b`, each prefix of `a` counts at most as many
/// members as the same prefix of `b`.
pub proof fn lemma_count_le_pub(a: FixedBitSet, b: FixedBitSet)
    requires
        forall|i: int| a.has_spec(i) ==> b.has_spec(i),
        a.nwords() == b.nwords(),
    ensures
        a.count_below(a.capacity_spec()) <= b.count_below(b.capacity_spec()),
{
    lemma_count_le(a, b, a.capacity_spec());
}

/// If `a` is a subset of `b` over the same universe, each prefix of `a`
/// counts at most as many members as the same prefix of `b`.
proof fn lemma_count_le(a: FixedBitSet, b: FixedBitSet, n: int)
    requires
        forall|i: int| a.has_spec(i) ==> b.has_spec(i),
    ensures
        a.count_below(n) <= b.count_below(n),
    decreases n,
{
    if n > 0 {
        lemma_count_le(a, b, n - 1);
    }
}

/// If `a` is a subset of `b`, misses a member of `b` below `n`, then `a`'s
/// prefix count is strictly smaller.
proof fn lemma_count_lt(a: FixedBitSet, b: FixedBitSet, n: int, witness: int)
    requires
        forall|i: int| a.has_spec(i) ==> b.has_spec(i),
        0 <= witness < n,
        !a.has_spec(witness),
        b.has_spec(witness),
    ensures
        a.count_below(n) < b.count_below(n),
    decreases n,
{
    if witness == n - 1 {
        lemma_count_le(a, b, n - 1);
    } else {
        lemma_count_lt(a, b, n - 1, witness);
    }
}

/// A subset with the same member count over the full universe is equal:
/// this is what lets a worklist pass detect that a monotone update left a
/// set unchanged by comparing counts alone.
pub proof fn lemma_subset_same_count_eq(a: FixedBitSet, b: FixedBitSet)
    requires
        a.nwords() == b.nwords(),
        forall|i: int| a.has_spec(i) ==> b.has_spec(i),
        a.count_below(a.capacity_spec()) == b.count_below(b.capacity_spec()),
    ensures
        forall|i: int| a.has_spec(i) == b.has_spec(i),
{
    assert forall|i: int| a.has_spec(i) == b.has_spec(i) by {
        if b.has_spec(i) && !a.has_spec(i) {
            lemma_count_lt(a, b, a.capacity_spec(), i);
        }
    }
}

} // verus!

//! Fixed-width (256-bit) membership set over component type ids.

use vstd::prelude::*;

verus! {

/// A fixed 256-bit set: bit `i` is set exactly when the archetype holds a
/// column for component type id `i`. Viewed in specifications as the
/// `Set<int>` of its set bit positions.
#[derive(Copy, Clone, Debug, PartialEq, Eq, Structural)]
pub struct BitSet {
    w0: u64,
    w1: u64,
    w2: u64,
    w3: u64,
}

impl View for BitSet {
    type V = Set<int>;

    open spec fn view(&self) -> Set<int> {
        Set::new(|i: int| self.spec_has(i))
    }
}

proof fn lemma_or_bit(w: u64, p: u64, j: u64)
    by (bit_vector)
    requires
        p < 64,
        j < 64,
    ensures
        ((w | (1u64 << p)) >> j) & 1 == 1 <==> (((w >> j) & 1 == 1) || j == p),
{
}

proof fn lemma_clear_bit(w: u64, p: u64, j: u64)
    by (bit_vector)
    requires
        p < 64,
        j < 64,
    ensures
        ((w & !(1u64 << p)) >> j) & 1 == 1 <==> (((w >> j) & 1 == 1) && j != p),
{
}

proof fn lemma_zero_bit(j: u64)
    by (bit_vector)
    ensures
        (0u64 >> j) & 1 != 1,
{
}

proof fn lemma_subset_forward(a: u64, b: u64, j: u64)
    by (bit_vector)
    requires
        a & b == b,
        j < 64,
    ensures
        ((b >> j) & 1 == 1) ==> ((a >> j) & 1 == 1),
{
}

proof fn lemma_nonzero_bit(c: u64)
    requires
        c != 0,
    ensures
        exists|j: u64| j < 64 && (c >> j) & 1 == 1,
    decreases c,
{
    if c & 1 == 1 {
        assert((c >> 0u64) & 1 == 1) by (bit_vector)
            requires
                c & 1 == 1,
        ;
        assert(0u64 < 64 && (c >> 0u64) & 1 == 1);
    } else {
        assert(c >> 1u64 != 0 && c >> 1u64 < c) by (bit_vector)
            requires
                c != 0 && c & 1 != 1,
        ;
        lemma_nonzero_bit(c >> 1u64);
        let j = choose|j: u64| j < 64 && ((c >> 1u64) >> j) & 1 == 1;
        assert(((c >> 1u64) >> 63u64) & 1 != 1) by (bit_vector);
        let jj = (j + 1) as u64;
        assert((c >> jj) & 1 == 1) by (bit_vector)
            requires
                jj == j + 1 && j < 63 && ((c >> 1u64) >> j) & 1 == 1,
        ;
        assert(jj < 64 && (c >> jj) & 1 == 1);
    }
}

proof fn lemma_word_ext(x: u64, y: u64)
    requires
        forall|j: u64| j < 64 ==> ((x >> j) & 1 == 1) == ((y >> j) & 1 == 1),
    ensures
        x == y,
{
    if x != y {
        let c = x ^ y;
        assert(c != 0) by (bit_vector)
            requires
                c == x ^ y && x != y,
        ;
        lemma_nonzero_bit(c);
        let j = choose|j: u64| j < 64 && (c >> j) & 1 == 1;
        assert(((x >> j) & 1 == 1) != ((y >> j) & 1 == 1)) by (bit_vector)
            requires
                c == x ^ y && j < 64 && (c >> j) & 1 == 1,
        ;
        assert(false);
    }
}

proof fn lemma_not_subset(a: u64, b: u64)
    requires
        a & b != b,
    ensures
        exists|j: u64| j < 64 && ((b >> j) & 1 == 1) && ((a >> j) & 1 != 1),
{
    let c = b & !a;
    assert(c != 0) by (bit_vector)
        requires
            c == b & !a && a & b != b,
    ;
    lemma_nonzero_bit(c);
    let j = choose|j: u64| j < 64 && (c >> j) & 1 == 1;
    assert(((b >> j) & 1 == 1) && ((a >> j) & 1 != 1)) by (bit_vector)
        requires
            c == b & !a && j < 64 && (c >> j) & 1 == 1,
    ;
    assert(j < 64 && ((b >> j) & 1 == 1) && ((a >> j) & 1 != 1));
}

impl BitSet {
    /// The word holding bit `64 * w` through `64 * w + 63`.
    pub closed spec fn word(self, w: int) -> u64 {
        if w == 0 {
            self.w0
        } else if w == 1 {
            self.w1
        } else if w == 2 {
            self.w2
        } else {
            self.w3
        }
    }

    /// Whether bit `i` is set.
    pub closed spec fn spec_has(self, i: int) -> bool {
        0 <= i < 256 && (self.word(i / 64) >> ((i % 64) as u64)) & 1 == 1
    }

    /// The empty set.
    pub fn new() -> (r: Self)
        ensures
            r@ == Set::<int>::empty(),
    {
        let r = BitSet { w0: 0, w1: 0, w2: 0, w3: 0 };
        proof {
            assert forall|i: int| !r.spec_has(i) by {
                if 0 <= i < 256 {
                    lemma_zero_bit((i % 64) as u64);
                }
            }
            assert(r@ =~= Set::<int>::empty());
        }
        r
    }

    /// Sets bit `id`.
    pub fn insert_id(&mut self, id: u8)
        ensures
            final(self)@ == old(self)@.insert(id as int),
    {
        let index = id / 64;
        let position = id % 64;
        let bit = 1u64 << position;
        if index == 0 {
            self.w0 = self.w0 | bit;
        } else if index == 1 {
            self.w1 = self.w1 | bit;
        } else if index == 2 {
            self.w2 = self.w2 | bit;
        } else {
            self.w3 = self.w3 | bit;
        }
        proof {
            let o = *old(self);
            let n = *self;
            assert forall|i: int| n.spec_has(i) <==> (o.spec_has(i) || i == id as int) by {
                if 0 <= i < 256 {
                    let wi = i / 64;
                    let pj = (i % 64) as u64;
                    if wi == index as int {
                        lemma_or_bit(o.word(wi), position as u64, pj);
                    }
                }
            }
            assert(n@ =~= o@.insert(id as int));
        }
    }

    /// Clears bit `id`.
    pub fn remove_id(&mut self, id: u8)
        ensures
            final(self)@ == old(self)@.remove(id as int),
    {
        let index = id / 64;
        let position = id % 64;
        let bit = 1u64 << position;
        if index == 0 {
            self.w0 = self.w0 & !bit;
        } else if index == 1 {
            self.w1 = self.w1 & !bit;
        } else if index == 2 {
            self.w2 = self.w2 & !bit;
        } else {
            self.w3 = self.w3 & !bit;
        }
        proof {
            let o = *old(self);
            let n = *self;
            assert forall|i: int| n.spec_has(i) <==> (o.spec_has(i) && i != id as int) by {
                if 0 <= i < 256 {
                    let wi = i / 64;
                    let pj = (i % 64) as u64;
                    if wi == index as int {
                        lemma_clear_bit(o.word(wi), position as u64, pj);
                    }
                }
            }
            assert(n@ =~= o@.remove(id as int));
        }
    }

    /// The set holding bit `id` alone.
    pub fn from_id(id: u8) -> (r: Self)
        ensures
            r@ == Set::<int>::empty().insert(id as int),
    {
        let mut r = Self::new();
        r.insert_id(id);
        r
    }

    /// The superset test: whether every bit of `other` is set in `self`.
    pub fn contains(&self, other: &BitSet) -> (r: bool)
        ensures
            r == other@.subset_of(self@),
    {
        let r = (self.w0 & other.w0 == other.w0) && (self.w1 & other.w1 == other.w1) && (self.w2
            & other.w2 == other.w2) && (self.w3 & other.w3 == other.w3);
        proof {
            if r {
                assert forall|i: int| other.spec_has(i) implies self.spec_has(i) by {
                    let pj = (i % 64) as u64;
                    lemma_subset_forward(self.word(i / 64), other.word(i / 64), pj);
                }
            } else {
                let w: int = if self.w0 & other.w0 != other.w0 {
                    0
                } else if self.w1 & other.w1 != other.w1 {
                    1
                } else if self.w2 & other.w2 != other.w2 {
                    2
                } else {
                    3
                };
                let a = self.word(w);
                let b = other.word(w);
                lemma_not_subset(a, b);
                let j = choose|j: u64| j < 64 && ((b >> j) & 1 == 1) && ((a >> j) & 1 != 1);
                let i: int = w * 64 + j;
                assert(i / 64 == w && i % 64 == j as int) by (nonlinear_arith)
                    requires
                        0 <= w < 4 && j < 64 && i == w * 64 + j,
                ;
                assert(other.spec_has(i));
                assert(!self.spec_has(i));
                assert(other@.contains(i) && !self@.contains(i));
                assert(!other@.subset_of(self@));
            }
        }
        r
    }

    /// Two bit sets with the same view are the same value: the 256 bits
    /// determine the four words.
    pub proof fn lemma_view_ext(a: BitSet, b: BitSet)
        requires
            a@ == b@,
        ensures
            a == b,
    {
        assert forall|j: u64| j < 64 implies ((a.w0 >> j) & 1 == 1) == ((b.w0 >> j) & 1 == 1) by {
            let i = j as int;
            assert(i / 64 == 0 && i % 64 == j as int);
            assert(a@.contains(i) == b@.contains(i));
            assert(a@.contains(i) == a.spec_has(i));
            assert(a.word(i / 64) == a.w0);
            assert((i % 64) as u64 == j);
            assert(a.spec_has(i) == ((a.w0 >> j) & 1 == 1));
            assert(b.spec_has(i) == ((b.w0 >> j) & 1 == 1));
        }
        assert forall|j: u64| j < 64 implies ((a.w1 >> j) & 1 == 1) == ((b.w1 >> j) & 1 == 1) by {
            let i = 64 + j as int;
            assert(i / 64 == 1 && i % 64 == j as int);
            assert(a@.contains(i) == b@.contains(i));
            assert(a@.contains(i) == a.spec_has(i));
            assert(a.word(i / 64) == a.w1);
            assert((i % 64) as u64 == j);
            assert(a.spec_has(i) == ((a.w1 >> j) & 1 == 1));
            assert(b.spec_has(i) == ((b.w1 >> j) & 1 == 1));
        }
        assert forall|j: u64| j < 64 implies ((a.w2 >> j) & 1 == 1) == ((b.w2 >> j) & 1 == 1) by {
            let i = 128 + j as int;
            assert(i / 64 == 2 && i % 64 == j as int);
            assert(a@.contains(i) == b@.contains(i));
            assert(a@.contains(i) == a.spec_has(i));
            assert(a.word(i / 64) == a.w2);
            assert((i % 64) as u64 == j);
            assert(a.spec_has(i) == ((a.w2 >> j) & 1 == 1));
            assert(b.spec_has(i) == ((b.w2 >> j) & 1 == 1));
        }
        assert forall|j: u64| j < 64 implies ((a.w3 >> j) & 1 == 1) == ((b.w3 >> j) & 1 == 1) by {
            let i = 192 + j as int;
            assert(i / 64 == 3 && i % 64 == j as int);
            assert(a@.contains(i) == b@.contains(i));
            assert(a@.contains(i) == a.spec_has(i));
            assert(a.word(i / 64) == a.w3);
            assert((i % 64) as u64 == j);
            assert(a.spec_has(i) == ((a.w3 >> j) & 1 == 1));
            assert(b.spec_has(i) == ((b.w3 >> j) & 1 == 1));
        }
        lemma_word_ext(a.w0, b.w0);
        lemma_word_ext(a.w1, b.w1);
        lemma_word_ext(a.w2, b.w2);
        lemma_word_ext(a.w3, b.w3);
    }

    /// Whether bit `id` is set.
    pub fn contains_id(&self, id: u8) -> (r: bool)
        ensures
            r == self@.contains(id as int),
    {
        let index = id / 64;
        let position = id % 64;
        let w = if index == 0 {
            self.w0
        } else if index == 1 {
            self.w1
        } else if index == 2 {
            self.w2
        } else {
            self.w3
        };
        (w >> position) & 1 == 1
    }
}

} // verus!

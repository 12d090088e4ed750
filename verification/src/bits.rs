//! Bits of machine words and the bitmap of waiting harts.
use vstd::prelude::*;

verus! {

/// The most harts the kernel has room for.
pub const MAX_HART_SLOTS: usize = 4096;

/// The width of one bitmap word, which is also the reach of one inter-processor call.
pub const WORD_BITS: usize = 64;

/// The number of words of a [`Bitmap`].
pub const WAITING_WORDS: usize = 64;

/// Whether bit `b` of `w` is set.
pub open spec fn bit(w: u64, b: int) -> bool {
    (w >> (b as u64)) & 1 == 1
}

/// `w` with its bits moved down by `by`, those that fall out coming in at the top.
pub open spec fn rotated(w: u64, by: int) -> u64 {
    if by == 0 {
        w
    } else {
        (w >> (by as u64)) | (w << ((64 - by) as u64))
    }
}

pub proof fn lemma_set_bit(w: u64, b: int)
    requires
        0 <= b < 64,
    ensures
        forall|j: int| 0 <= j < 64 ==> (#[trigger] bit(w | (1u64 << (b as u64)), j) <==> (j == b || bit(w, j))),
{
    assert forall|j: int| 0 <= j < 64 implies (#[trigger] bit(w | (1u64 << (b as u64)), j) <==> (j == b || bit(w, j))) by {
        let bb = b as u64;
        let jj = j as u64;
        assert(((w | (1u64 << bb)) >> jj) & 1 == 1 <==> (jj == bb || (w >> jj) & 1 == 1))
            by (bit_vector)
            requires bb < 64, jj < 64;
    }
}

pub proof fn lemma_clear_bit(w: u64, b: int)
    requires
        0 <= b < 64,
    ensures
        forall|j: int| 0 <= j < 64 ==> (#[trigger] bit(w & !(1u64 << (b as u64)), j) <==> (j != b && bit(w, j))),
{
    assert forall|j: int| 0 <= j < 64 implies (#[trigger] bit(w & !(1u64 << (b as u64)), j) <==> (j != b && bit(w, j))) by {
        let bb = b as u64;
        let jj = j as u64;
        assert(((w & !(1u64 << bb)) >> jj) & 1 == 1 <==> (jj != bb && (w >> jj) & 1 == 1))
            by (bit_vector)
            requires bb < 64, jj < 64;
    }
}

pub proof fn lemma_zero_word(w: u64)
    ensures
        w == 0 <==> forall|j: int| 0 <= j < 64 ==> !#[trigger] bit(w, j),
{
    assert forall|j: int| w == 0 && 0 <= j < 64 implies !#[trigger] bit(w, j) by {
        let jj = j as u64;
        assert((0u64 >> jj) & 1 == 0) by (bit_vector);
    }
    if w != 0 {
        vstd::std_specs::bits::axiom_u64_trailing_zeros(w);
        assert(bit(w, vstd::std_specs::bits::u64_trailing_zeros(w) as int));
    }
}

pub proof fn lemma_test_bit(w: u64, b: int)
    requires
        0 <= b < 64,
    ensures
        bit(w, b) <==> w & (1u64 << (b as u64)) != 0,
{
    let bb = b as u64;
    assert((w >> bb) & 1 == 1 <==> w & (1u64 << bb) != 0) by (bit_vector)
        requires bb < 64;
}

pub proof fn lemma_rotated(w: u64, by: int)
    requires
        0 <= by < 64,
    ensures
        forall|j: int| 0 <= j < 64 ==> (#[trigger] bit(rotated(w, by), j) <==> bit(w, (by + j) % 64)),
        rotated(w, by) == 0 <==> w == 0,
{
    assert forall|j: int| 0 <= j < 64 implies (#[trigger] bit(rotated(w, by), j) <==> bit(w, (by + j) % 64)) by {
        let s = by as u64;
        let jj = j as u64;
        if by != 0 {
            let k = ((by + j) % 64) as u64;
            let up = (64 - by) as u64;
            assert((((w >> s) | (w << up)) >> jj) & 1 == 1 <==> (w >> k) & 1 == 1) by (bit_vector)
                requires 0 < s < 64, jj < 64, up == 64 - s, k == (s + jj) % 64;
        }
    }
    if by != 0 {
        let s = by as u64;
        let up = (64 - by) as u64;
        assert(((w >> s) | (w << up)) == 0 <==> w == 0) by (bit_vector)
            requires 0 < s < 64, up == 64 - s;
    }
}

/// A set of harts, one bit each, in [`WAITING_WORDS`] words.
pub struct Bitmap {
    words: Vec<u64>,
}

impl Bitmap {
    /// Whether `hart` is in the set.
    pub closed spec fn has(self, hart: int) -> bool {
        0 <= hart < MAX_HART_SLOTS && bit(self.words@[hart / 64], hart % 64)
    }

    /// Word `w`: bit `b` of it stands for hart `w * 64 + b`.
    pub closed spec fn word_spec(self, w: int) -> u64 {
        self.words@[w]
    }

    /// Only harts below [`MAX_HART_SLOTS`] are in the set.
    pub proof fn lemma_range(self)
        ensures
            forall|h: int| #[trigger] self.has(h) ==> 0 <= h < MAX_HART_SLOTS,
    {
    }

    #[verifier::type_invariant]
    spec fn type_inv(self) -> bool {
        self.words@.len() == WAITING_WORDS
    }

    /// The empty set.
    pub fn new() -> (m: Bitmap)
        ensures
            forall|h: int| !m.has(h),
    {
        let words: Vec<u64> = vec![0u64; WAITING_WORDS];
        proof {
            lemma_zero_word(0);
        }
        Bitmap { words }
    }

    /// Word `w` of the set.
    pub fn word(&self, w: usize) -> (bits: u64)
        requires
            w < WAITING_WORDS,
        ensures
            bits == self.word_spec(w as int),
            forall|b: int| 0 <= b < 64 ==> (#[trigger] bit(bits, b) <==> self.has(w * 64 + b)),
            bits == 0 <==> forall|b: int| 0 <= b < 64 ==> !#[trigger] self.has(w * 64 + b),
    {
        proof {
            use_type_invariant(&*self);
            let bits = self.words@[w as int];
            lemma_zero_word(bits);
            assert forall|b: int| 0 <= b < 64 implies (#[trigger] bit(bits, b) <==> self.has(w * 64 + b)) by {
                assert((w * 64 + b) / 64 == w && (w * 64 + b) % 64 == b);
            }
            if forall|b: int| 0 <= b < 64 ==> !#[trigger] self.has(w * 64 + b) {
                assert forall|b: int| 0 <= b < 64 implies !#[trigger] bit(bits, b) by {
                    assert(!self.has(w * 64 + b));
                }
            }
        }
        self.words[w]
    }

    /// Puts `hart` into the set.
    pub fn set(&mut self, hart: usize)
        requires
            hart < MAX_HART_SLOTS,
        ensures
            forall|h: int| #[trigger] final(self).has(h) <==> (h == hart || old(self).has(h)),
    {
        proof {
            use_type_invariant(&*self);
        }
        let w: usize = hart / WORD_BITS;
        let b: u64 = (hart % WORD_BITS) as u64;
        let bits: u64 = self.words[w];
        proof {
            lemma_set_bit(bits, b as int);
        }
        self.words[w] = bits | (1u64 << b);
    }

    /// Takes `hart` out of the set.
    pub fn clear(&mut self, hart: usize)
        requires
            hart < MAX_HART_SLOTS,
        ensures
            forall|h: int| #[trigger] final(self).has(h) <==> (h != hart && old(self).has(h)),
    {
        proof {
            use_type_invariant(&*self);
        }
        let w: usize = hart / WORD_BITS;
        let b: u64 = (hart % WORD_BITS) as u64;
        let bits: u64 = self.words[w];
        proof {
            lemma_clear_bit(bits, b as int);
        }
        self.words[w] = bits & !(1u64 << b);
    }

    /// Whether `hart` is in the set.
    pub fn test(&self, hart: usize) -> (yes: bool)
        requires
            hart < MAX_HART_SLOTS,
        ensures
            yes == self.has(hart as int),
    {
        proof {
            use_type_invariant(&*self);
        }
        let w: usize = hart / WORD_BITS;
        let b: u64 = (hart % WORD_BITS) as u64;
        proof {
            lemma_test_bit(self.words@[w as int], b as int);
        }
        self.words[w] & (1u64 << b) != 0
    }
}

/// One inter-processor call: bit `b` of `mask` addresses hart `base + b`.
#[derive(Clone, Copy, Debug, PartialEq, Eq, Structural)]
pub struct Ipi {
    pub mask: u64,
    pub base: usize,
}

impl Ipi {
    /// Whether the call reaches `hart`.
    pub open spec fn reaches(self, hart: int) -> bool {
        self.base <= hart < self.base + 64 && bit(self.mask, hart - self.base)
    }
}

/// Whether `calls` reach the harts of `m` and nobody else.
pub open spec fn reaches_all(calls: Seq<Ipi>, m: Bitmap) -> bool {
    forall|h: int| #[trigger]
        m.has(h) <==> exists|i: int| 0 <= i < calls.len() && (#[trigger] calls[i]).reaches(h)
}

/// Whether `calls` are the words of `m` that are not zero, from the lowest up.
pub open spec fn word_calls(calls: Seq<Ipi>, m: Bitmap) -> bool {
    &&& forall|i: int|
        0 <= i < calls.len() ==> {
            &&& (#[trigger] calls[i]).mask != 0
            &&& calls[i].base % 64 == 0
            &&& calls[i].base < MAX_HART_SLOTS
            &&& forall|b: int|
                0 <= b < 64 ==> (#[trigger] bit(calls[i].mask, b) <==> m.has(calls[i].base + b))
        }
    &&& forall|i: int, j: int|
        0 <= i < j < calls.len() ==> (#[trigger] calls[i]).base < (#[trigger] calls[j]).base
}

impl Bitmap {
    /// The calls that reach every hart of the set, one for each word that has any.
    pub fn calls(&self) -> (calls: Vec<Ipi>)
        ensures
            word_calls(calls@, *self),
            reaches_all(calls@, *self),
    {
        let mut calls: Vec<Ipi> = Vec::new();
        let mut w: usize = 0;
        while w < WAITING_WORDS
            invariant
                w <= WAITING_WORDS,
                forall|i: int|
                    0 <= i < calls@.len() ==> {
                        &&& (#[trigger] calls@[i]).mask != 0
                        &&& calls@[i].base % 64 == 0
                        &&& calls@[i].base < w * 64
                        &&& forall|b: int|
                            0 <= b < 64 ==> (#[trigger] bit(calls@[i].mask, b) <==> self.has(
                                calls@[i].base + b,
                            ))
                    },
                forall|i: int, j: int|
                    0 <= i < j < calls@.len() ==> (#[trigger] calls@[i]).base < (
                    #[trigger] calls@[j]).base,
                forall|h: int|
                    0 <= h < w * 64 && #[trigger] self.has(h) ==> exists|i: int|
                        0 <= i < calls@.len() && (#[trigger] calls@[i]).reaches(h),
            decreases WAITING_WORDS - w,
        {
            let bits: u64 = self.word(w);
            let ghost before = calls@;
            if bits != 0 {
                calls.push(Ipi { mask: bits, base: w * WORD_BITS });
            }
            proof {
                assert forall|h: int|
                    0 <= h < (w + 1) * 64 && #[trigger] self.has(h) implies exists|i: int|
                    0 <= i < calls@.len() && (#[trigger] calls@[i]).reaches(h) by {
                    if h < w * 64 {
                        let i = choose|i: int|
                            0 <= i < before.len() && (#[trigger] before[i]).reaches(h);
                        assert(calls@[i] == before[i]);
                    } else {
                        let b = h - w * 64;
                        assert(self.has(w * 64 + b));
                        assert(bit(bits, b));
                        assert(calls@[before.len() as int].reaches(h));
                    }
                }
            }
            w += 1;
        }
        proof {
            self.lemma_range();
            assert forall|h: int, i: int|
                0 <= i < calls@.len() && (#[trigger] calls@[i]).reaches(h) implies #[trigger] self.has(
                h,
            ) by {
                let b = h - calls@[i].base;
                assert(bit(calls@[i].mask, b));
                assert(self.has(calls@[i].base + b));
            }
        }
        calls
    }
}

/// Nobody is called where nobody is marked.
pub proof fn law_nobody_no_calls(calls: Seq<Ipi>, m: Bitmap)
    requires
        word_calls(calls, m),
        forall|h: int| !m.has(h),
    ensures
        calls.len() == 0,
{
    if calls.len() > 0 {
        lemma_zero_word(calls[0].mask);
        let b = choose|b: int| 0 <= b < 64 && bit(calls[0].mask, b);
        assert(m.has(calls[0].base + b));
    }
}

} // verus!

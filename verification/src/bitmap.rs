//! A set of indices, one bit each.

use vstd::prelude::*;

verus! {

/// A fixed number of bits.
pub struct Bitmap {
    words: Vec<u64>,
    len: usize,
}

/// The bit `s` of a word.
pub open spec fn bit(w: u64, s: u64) -> bool {
    (w >> s) & 1 != 0
}

impl View for Bitmap {
    type V = Seq<bool>;

    closed spec fn view(&self) -> Seq<bool> {
        Seq::new(self.len as nat, |i: int| bit(self.words@[i / 64], (i % 64) as u64))
    }
}

impl Bitmap {
    /// There is a word for every bit.
    pub closed spec fn wf(self) -> bool {
        self.len <= 64 * self.words@.len()
    }

    /// `len` bits, none of them set.
    pub fn new(len: usize) -> (bits: Bitmap)
        requires
            len <= u32::MAX,
        ensures
            bits.wf(),
            bits@ == Seq::new(len as nat, |i: int| false),
    {
        let words_len: usize = if len % 64 == 0 {
            len / 64
        } else {
            len / 64 + 1
        };
        let mut words: Vec<u64> = Vec::with_capacity(words_len);
        while words.len() < words_len
            invariant
                words.len() <= words_len,
                forall|j: int| 0 <= j < words@.len() ==> words@[j] == 0,
            decreases words_len - words.len(),
        {
            words.push(0);
        }
        let bits = Bitmap { words, len };
        proof {
            assert forall|i: int| 0 <= i < len implies !bits@[i] by {
                let s = (i % 64) as u64;
                assert((0u64 >> s) & 1 == 0) by (bit_vector);
            }
            assert(bits@ =~= Seq::new(len as nat, |i: int| false));
        }
        bits
    }

    pub fn get(&self, i: usize) -> (b: bool)
        requires
            self.wf(),
            i < self@.len(),
        ensures
            b == self@[i as int],
    {
        (self.words[i / 64] >> ((i % 64) as u64)) & 1 != 0
    }

    pub fn set(&mut self, i: usize)
        requires
            old(self).wf(),
            i < old(self)@.len(),
        ensures
            final(self).wf(),
            final(self)@ == old(self)@.update(i as int, true),
    {
        let s: u64 = (i % 64) as u64;
        let w: u64 = self.words[i / 64];
        let w1: u64 = w | (1u64 << s);
        self.words.set(i / 64, w1);
        proof {
            assert(((w | (1u64 << s)) >> s) & 1 != 0) by (bit_vector)
                requires
                    s < 64,
            ;
            assert forall|j: int| 0 <= j < self@.len() implies self@[j] == old(self)@.update(
                i as int,
                true,
            )[j] by {
                let t = (j % 64) as u64;
                if j != i && j / 64 == i as int / 64 {
                    assert(((w | (1u64 << s)) >> t) & 1 == (w >> t) & 1) by (bit_vector)
                        requires
                            s < 64,
                            t < 64,
                            s != t,
                    ;
                }
            }
            assert(self@ =~= old(self)@.update(i as int, true));
        }
    }
}

} // verus!

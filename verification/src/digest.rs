//! Running modulo-256 checksum over bytes, as used by the trailing
//! checksum field of the wire format.

use vstd::prelude::*;
use vstd::arithmetic::div_mod::lemma_add_mod_noop;

verus! {

/// Sum of all byte values of a sequence, as an unbounded integer.
pub open spec fn byte_sum(s: Seq<u8>) -> int
    decreases s.len(),
{
    if s.len() == 0 {
        0
    } else {
        byte_sum(s.drop_last()) + s.last()
    }
}

pub proof fn lemma_byte_sum_nonneg(s: Seq<u8>)
    ensures
        byte_sum(s) >= 0,
    decreases s.len(),
{
    if s.len() > 0 {
        lemma_byte_sum_nonneg(s.drop_last());
    }
}

/// The byte sum of a concatenation is the sum of the byte sums.
pub proof fn lemma_byte_sum_concat(a: Seq<u8>, b: Seq<u8>)
    ensures
        byte_sum(a + b) == byte_sum(a) + byte_sum(b),
    decreases b.len(),
{
    if b.len() == 0 {
        assert(a + b =~= a);
    } else {
        assert((a + b).drop_last() =~= a + b.drop_last());
        lemma_byte_sum_concat(a, b.drop_last());
    }
}

/// The checksum of a byte stream does not depend on how the stream is
/// chunked: folding `a` into a running sum `c` and then folding `b` gives
/// the same modulo-256 value as folding the concatenation `a + b` at once.
pub proof fn lemma_checksum_chunking(c: int, a: Seq<u8>, b: Seq<u8>)
    ensures
        (((c + byte_sum(a)) % 256) + byte_sum(b)) % 256 == (c + byte_sum(a + b)) % 256,
{
    lemma_byte_sum_concat(a, b);
    lemma_add_mod_noop(c + byte_sum(a), byte_sum(b), 256);
}

/// Accumulator of the running modulo-256 sum of all bytes pushed so far.
pub struct Digest {
    checksum: u8,
}

impl Digest {
    /// The current sum, as an integer in `0..256`.
    pub closed spec fn sum(self) -> int {
        self.checksum as int
    }

    pub fn new() -> (d: Digest)
        ensures
            d.sum() == 0,
    {
        Digest { checksum: 0 }
    }

    /// Folds every byte of `input` into the running sum with wrapping
    /// (modulo-256) addition.
    pub fn push(&mut self, input: &[u8])
        ensures
            final(self).sum() == (old(self).sum() + byte_sum(input@)) % 256,
    {
        let ghost start: int = self.checksum as int;
        let mut i: usize = 0;
        while i < input.len()
            invariant
                i <= input@.len(),
                0 <= self.checksum < 256,
                self.checksum as int == (start + byte_sum(input@.subrange(0, i as int))) % 256,
            decreases input@.len() - i,
        {
            let b = input[i];
            proof {
                let done = input@.subrange(0, i as int);
                assert(input@.subrange(0, i + 1).drop_last() =~= done);
                lemma_add_mod_noop(start + byte_sum(done), b as int, 256);
            }
            self.checksum = self.checksum.wrapping_add(b);
            i = i + 1;
        }
        proof {
            assert(input@.subrange(0, input@.len() as int) =~= input@);
        }
    }

    /// The checksum of all bytes pushed so far.
    pub fn checksum(&self) -> (r: u8)
        ensures
            r as int == self.sum(),
    {
        self.checksum
    }
}

} // verus!

//! Reading and writing single bits, and asking for the runs of a range.

use crate::index::{locate, resolved_range, Bound, OutOfRange};
use crate::iter::RLE;
use crate::laws::law_write_then_read;
use crate::word::{bits, capacity, lemma_mask_reads_bit, with_bit};
use vstd::prelude::*;

verus! {

/// A bitset that can be read and written bit by bit and walked run by run.
pub trait RLEBits {
    /// The words that store the bitset.
    spec fn words(&self) -> Seq<usize>;

    /// Gets the bit at the provided index, if it is within range.
    fn get_bit(&self, bit: usize) -> (r: Result<bool, OutOfRange>)
        ensures
            r == (if bit < capacity(self.words()) {
                Ok::<bool, OutOfRange>(bits(self.words())[bit as int])
            } else {
                Err(OutOfRange())
            }),
    ;

    /// Sets the bit at the provided index, if it is within range.
    fn set_bit(&mut self, bit: usize, value: bool) -> (r: Result<(), OutOfRange>)
        ensures
            r is Ok <==> bit < capacity(old(self).words()),
            final(self).words().len() == old(self).words().len(),
            r is Ok ==> final(self).words() == with_bit(old(self).words(), bit as int, value),
            r is Ok ==> bits(final(self).words()) == bits(old(self).words()).update(
                bit as int,
                value,
            ),
            r is Err ==> final(self).words() == old(self).words(),
    ;

    /// Returns an iterator over run lengths of the bits within the provided range.
    fn run_lengths<'a>(&'a self, start: Bound, end: Bound) -> (r: Result<RLE<'a>, OutOfRange>)
        requires
            capacity(self.words()) <= usize::MAX,
        ensures
            match resolved_range(capacity(self.words()), start, end) {
                Some((s, e)) => r matches Ok(it) && it.wf() && it.words() == self.words()
                    && it.first() == s && it.limit() == e && it.emitted() is None,
                None => r is Err,
            },
    ;
}

impl RLEBits for [usize] {
    open spec fn words(&self) -> Seq<usize> {
        self@
    }

    fn get_bit(&self, bit: usize) -> (r: Result<bool, OutOfRange>) {
        let (x, y) = match locate(self, bit) {
            Ok(found) => found,
            Err(e) => {
                return Err(e);
            },
        };
        let mask = 1usize << y;
        proof {
            lemma_mask_reads_bit(self@[x as int], y);
        }
        Ok(mask == (self[x] & mask))
    }

    fn set_bit(&mut self, bit: usize, value: bool) -> (r: Result<(), OutOfRange>) {
        let (x, y) = match locate(self, bit) {
            Ok(found) => found,
            Err(e) => {
                return Err(e);
            },
        };
        let mask = 1usize << y;
        proof {
            law_write_then_read(self@, bit as int, value);
        }
        if value {
            self[x] |= mask;
        } else {
            self[x] &= !mask;
        }
        Ok(())
    }

    fn run_lengths<'a>(&'a self, start: Bound, end: Bound) -> (r: Result<RLE<'a>, OutOfRange>) {
        RLE::new(self, start, end)
    }
}

} // verus!

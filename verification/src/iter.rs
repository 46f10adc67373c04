//! The cursor that walks a range of a bitset run by run.

use crate::index::{resolved_range, validate_range, Bound, OutOfRange};
use crate::run::{first_run, lemma_extent_found, runs, Span, RL};
use crate::word::{
    bits, capacity, lemma_bit_in_word, lemma_complement_flips, lemma_in_capacity, lemma_locate,
    lemma_shift_moves_bits, lemma_stretch_in_word, word_bit, word_width,
};
use core::ops::Range;
use vstd::prelude::*;

verus! {

/// An iterator over run lengths of bits.
///
/// The storage must not change while the iterator lives; the borrow it holds
/// sees to that.
#[derive(Debug)]
pub struct RLE<'a> {
    storage: &'a [usize],
    range: Range<usize>,
    last: Option<RL>,
}

/// The number of zero bits at the low end of `word`, the whole width where
/// `word` is zero.
fn low_zeros(word: usize) -> (n: usize)
    ensures
        n <= word_width(),
        forall|j: int| 0 <= j < n ==> !word_bit(word, j),
        n < word_width() ==> word_bit(word, n as int),
{
    let width = word_width();
    let wide = word as u64;
    let count = wide.trailing_zeros() as usize;
    proof {
        vstd::std_specs::bits::axiom_u64_trailing_zeros(wide);
        assert forall|j: int| 0 <= j < count implies !word_bit(word, j) by {
            let shift = j as u64;
            assert((wide >> shift) & 1u64 == 0u64);
        }
    }
    if count < width {
        count
    } else {
        width
    }
}

impl<'a> RLE<'a> {
    /// The words that the iterator reads.
    pub closed spec fn words(&self) -> Seq<usize> {
        self.storage@
    }

    /// The run that the iterator gave out last, if it gave out any.
    pub closed spec fn emitted(&self) -> Option<Span> {
        match self.last {
            Some(run) => Some(run@),
            None => None,
        }
    }

    /// The first index of the range that the iterator walks.
    pub closed spec fn first(&self) -> int {
        self.range.start as int
    }

    /// The index just past the range that the iterator walks.
    pub closed spec fn limit(&self) -> int {
        self.range.end as int
    }

    /// The index at which the next run starts.
    pub open spec fn cursor(&self) -> int {
        match self.emitted() {
            Some(run) => run.end,
            None => self.first(),
        }
    }

    /// The runs that the iterator has yet to give out.
    pub open spec fn remaining(&self) -> Seq<Span> {
        runs(bits(self.words()), self.cursor(), self.limit())
    }

    /// The iterator's range lies inside the storage, and the run it gave out
    /// last lies inside the range and stops where the bits change or the range
    /// ends.
    pub open spec fn wf(&self) -> bool {
        &&& capacity(self.words()) <= usize::MAX
        &&& 0 <= self.first() <= self.limit() <= capacity(self.words())
        &&& self.emitted() matches Some(run) ==> {
            &&& self.first() <= run.start < run.end <= self.limit()
            &&& run.end < self.limit() ==> bits(self.words())[run.end] != run.value
        }
    }

    #[verifier::type_invariant]
    closed spec fn inv(&self) -> bool {
        self.wf()
    }

    /// The range that the iterator walks.
    pub fn range(&self) -> (r: Range<usize>)
        ensures
            r.start == self.first(),
            r.end == self.limit(),
    {
        self.range.start..self.range.end
    }

    /// An iterator over the runs of `storage` between the two bounds.
    pub fn new(storage: &'a [usize], start: Bound, end: Bound) -> (r: Result<RLE<'a>, OutOfRange>)
        requires
            capacity(storage@) <= usize::MAX,
        ensures
            match resolved_range(capacity(storage@), start, end) {
                Some((s, e)) => r matches Ok(it) && it.wf() && it.words() == storage@
                    && it.first() == s && it.limit() == e && it.emitted() is None,
                None => r is Err,
            },
    {
        match validate_range(storage.len(), start, end) {
            Ok(range) => Ok(RLE { storage, range, last: None }),
            Err(e) => Err(e),
        }
    }

    /// If we are within the specified range, return the position to start
    /// the next run at, and the value of its bits.
    fn start_run(&self) -> (r: Option<(usize, bool)>)
        ensures
            self.cursor() < self.limit() ==> r == Some(
                (self.cursor() as usize, bits(self.words())[self.cursor()]),
            ),
            self.cursor() >= self.limit() ==> r is None,
    {
        proof {
            use_type_invariant(self);
        }
        if let Some(last) = &self.last {
            if last.run.end < self.range.end {
                Some((last.run.end, !last.value))
            } else {
                None
            }
        } else {
            if self.range.start < self.range.end {
                let width = word_width();
                let start = self.range.start;
                proof {
                    lemma_in_capacity(self.storage@, start as int);
                    lemma_bit_in_word(
                        self.storage@,
                        start as int / (width as int),
                        start as int % (width as int),
                    );
                }
                let word = self.storage[start / width];
                Some((start, 1 == ((word >> (start % width)) & 1)))
            } else {
                None
            }
        }
    }

    /// Get the current block in a manner ready for counting its low zeros:
    /// a bit of the result is zero where the stored bit equals `of`.
    fn block(&self, block: usize, of: bool) -> (r: usize)
        requires
            block < self.words().len(),
        ensures
            r == (if of {
                !self.words()[block as int]
            } else {
                self.words()[block as int]
            }),
            forall|k: int|
                0 <= k < word_width() ==> (word_bit(r, k) <==> word_bit(
                    self.words()[block as int],
                    k,
                ) != of),
    {
        proof {
            assert forall|k: int| 0 <= k < word_width() implies (word_bit(
                !self.storage@[block as int],
                k,
            ) <==> !word_bit(self.storage@[block as int], k)) by {
                lemma_complement_flips(self.storage@[block as int], k as usize);
            }
        }
        if of {
            !self.storage[block]
        } else {
            self.storage[block]
        }
    }

    /// Gives out the next run of the range, or `None` once the range is used
    /// up.
    pub fn next(&mut self) -> (r: Option<RL>)
        ensures
            final(self).wf(),
            final(self).words() == old(self).words(),
            final(self).first() == old(self).first(),
            final(self).limit() == old(self).limit(),
            match r {
                Some(run) => old(self).cursor() < old(self).limit() && run@ == first_run(
                    bits(old(self).words()),
                    old(self).cursor(),
                    old(self).limit(),
                ) && final(self).emitted() == Some(run@),
                None => old(self).cursor() >= old(self).limit() && final(self).emitted() == old(
                    self,
                ).emitted(),
            },
            r is None <==> old(self).remaining().len() == 0,
            r matches Some(run) ==> old(self).remaining() == seq![run@].add(
                final(self).remaining(),
            ),
    {
        proof {
            use_type_invariant(&*self);
        }
        let (start, of) = match self.start_run() {
            Some(found) => found,
            None => {
                return None;
            },
        };
        let ghost b = bits(self.storage@);
        let ghost words = self.storage@;
        let width = word_width();
        let limit = self.range.end;
        let x = start / width;
        let y = start % width;
        let bits_left = width - y;  // in the block
        proof {
            lemma_in_capacity(words, start as int);
        }
        let block = self.block(x, of) >> y;
        let zeros = low_zeros(block);
        let len = if zeros < bits_left {
            zeros
        } else {
            bits_left
        };
        proof {
            assert forall|j: int| 0 <= j < bits_left implies (word_bit(block, j) <==> word_bit(
                words[x as int],
                y + j,
            ) != of) by {
                lemma_shift_moves_bits(
                    if of {
                        !words[x as int]
                    } else {
                        words[x as int]
                    },
                    y,
                    j as usize,
                );
            }
            assert forall|k: int| y <= k < y + len implies word_bit(words[x as int], k) == of by {
                assert(!word_bit(block, k - y));
            }
            lemma_stretch_in_word(words, x as int, y as int, of, len as int);
            assert((x + 1) * width == x * width + width) by (nonlinear_arith);
        }
        let mut end = start + len;
        let ghost mut stopped = len < bits_left;
        if len == bits_left {
            let mut x = x + 1;
            while end < limit
                invariant_except_break
                    x <= words.len(),
                    end == x * width,
                    !stopped,
                invariant
                    self.words() == words,
                    b == bits(words),
                    width == word_width(),
                    capacity(words) <= usize::MAX,
                    limit <= capacity(words),
                    start < end <= capacity(words),
                    forall|i: int| start <= i < end ==> b[i] == of,
                ensures
                    start < end <= capacity(words),
                    forall|i: int| start <= i < end ==> b[i] == of,
                    stopped ==> end < capacity(words) && b[end as int] != of,
                    !stopped ==> end >= limit,
                decreases words.len() - x,
            {
                proof {
                    lemma_locate(x as int, 0);
                    lemma_in_capacity(words, end as int);
                }
                let whole = self.block(x, of);
                let extra = low_zeros(whole);
                proof {
                    assert forall|k: int| 0 <= k < extra implies word_bit(words[x as int], k)
                        == of by {
                        assert(!word_bit(whole, k));
                    }
                    lemma_stretch_in_word(words, x as int, 0, of, extra as int);
                    assert((x + 1) * width == x * width + width) by (nonlinear_arith);
                }
                end += extra;
                if extra != width {
                    proof {
                        stopped = true;
                    }
                    break;
                }
                x += 1;
            }
        }
        let stop = if end < limit {
            end
        } else {
            limit
        };
        let ret = RL::new(of, start, stop);
        proof {
            lemma_extent_found(b, of, start + 1, limit as int, stop as int);
        }
        self.last = Some(ret.clone());
        Some(ret)
    }
}

} // verus!

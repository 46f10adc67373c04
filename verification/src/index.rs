//! From bit indices to words and offsets, and from bounds to ranges.

use crate::word::{capacity, lemma_in_capacity, word_width};
use core::ops::Range;
use vstd::prelude::*;

verus! {

/// A bit index or a range reaches past the bits that the storage holds, or a
/// range ends before it starts.
#[derive(Debug, PartialEq, Eq)]
pub struct OutOfRange();

/// One side of a range of bit indices, the start or the end.
#[derive(Clone, Copy, Debug, PartialEq, Eq)]
pub enum Bound {
    /// The range goes as far as this index, which belongs to it.
    Included(usize),
    /// The range goes as far as this index, which stays outside it.
    Excluded(usize),
    /// The range goes as far as the storage does.
    Unbounded,
}

/// The first index of a range that starts at `start`, in a bitset of `cap`
/// bits; `None` where there is no such index.
pub open spec fn resolved_start(cap: int, start: Bound) -> Option<int> {
    match start {
        Bound::Included(x) => if x < cap {
            Some(x as int)
        } else {
            None
        },
        Bound::Excluded(x) => if x + 1 < cap {
            Some(x + 1)
        } else {
            None
        },
        Bound::Unbounded => Some(0),
    }
}

/// The index just past a range that ends at `end`, in a bitset of `cap` bits;
/// `None` where the range would reach past the bitset.
pub open spec fn resolved_end(cap: int, end: Bound) -> Option<int> {
    match end {
        Bound::Included(x) => if x < cap {
            Some(x + 1)
        } else {
            None
        },
        Bound::Excluded(x) => if x <= cap {
            Some(x as int)
        } else {
            None
        },
        Bound::Unbounded => Some(cap),
    }
}

/// The half-open range `(first, past)` that the two bounds describe in a
/// bitset of `cap` bits; `None` where either side is out of range or the
/// range would end before it starts.
pub open spec fn resolved_range(cap: int, start: Bound, end: Bound) -> Option<(int, int)> {
    match (resolved_start(cap, start), resolved_end(cap, end)) {
        (Some(s), Some(e)) => if s <= e {
            Some((s, e))
        } else {
            None
        },
        _ => None,
    }
}

/// Finds the word that holds bit `bit` of `slice`, and the bit's offset in it.
pub fn locate(slice: &[usize], bit: usize) -> (r: Result<(usize, usize), OutOfRange>)
    ensures
        r is Ok <==> bit < capacity(slice@),
        r matches Ok((x, y)) ==> {
            &&& x == bit as int / (word_width() as int)
            &&& y == bit as int % (word_width() as int)
            &&& x < slice@.len()
            &&& y < word_width()
        },
{
    let width = word_width();
    let x = bit / width;
    proof {
        lemma_in_capacity(slice@, bit as int);
    }
    if x < slice.len() {
        Ok((x, bit % width))
    } else {
        Err(OutOfRange())
    }
}

/// Resolves two bounds to a half-open range of bit indices in a storage of
/// `words` words.
pub fn validate_range(words: usize, start: Bound, end: Bound) -> (r: Result<
    Range<usize>,
    OutOfRange,
>)
    requires
        words * word_width() <= usize::MAX,
    ensures
        match resolved_range(words * word_width(), start, end) {
            Some((s, e)) => r matches Ok(range) && range.start == s && range.end == e,
            None => r is Err,
        },
{
    let size = words * word_width();
    let s = match start {
        Bound::Included(x) => {
            if x < size {
                x
            } else {
                return Err(OutOfRange());
            }
        },
        Bound::Excluded(x) => {
            if x < size && x + 1 < size {
                x + 1
            } else {
                return Err(OutOfRange());
            }
        },
        Bound::Unbounded => 0,
    };
    let e = match end {
        Bound::Included(x) => {
            if x < size {
                x + 1
            } else {
                return Err(OutOfRange());
            }
        },
        Bound::Excluded(x) => {
            if x <= size {
                x
            } else {
                return Err(OutOfRange());
            }
        },
        Bound::Unbounded => size,
    };
    if e >= s {
        Ok(s..e)
    } else {
        Err(OutOfRange())
    }
}

} // verus!

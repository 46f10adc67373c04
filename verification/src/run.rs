//! Runs: stretches of equal bits, and the way a range of bits falls into them.

use core::ops::Range;
use vstd::prelude::*;

verus! {

/// A run in mathematical terms: the bits from `start` up to, not including,
/// `end` all equal `value`.
pub struct Span {
    pub value: bool,
    pub start: int,
    pub end: int,
}

/// A run length - a range of the same value repeated.
#[derive(Debug, PartialEq, Eq)]
pub struct RL {
    pub value: bool,
    pub run: Range<usize>,
}

impl View for RL {
    type V = Span;

    open spec fn view(&self) -> Span {
        Span { value: self.value, start: self.run.start as int, end: self.run.end as int }
    }
}

impl Clone for RL {
    fn clone(&self) -> (r: RL)
        ensures
            r == *self,
    {
        RL { value: self.value, run: self.run.start..self.run.end }
    }
}

impl RL {
    /// Creates a new [`RL`].
    pub fn new(value: bool, start: usize, end: usize) -> (r: RL)
        ensures
            r@ == (Span { value, start: start as int, end: end as int }),
    {
        RL { value, run: start..end }
    }
}

/// How many bits equal to `value` follow one another in `b` from index `from`
/// on, without reaching `limit`.
pub open spec fn extent(b: Seq<bool>, value: bool, from: int, limit: int) -> nat
    decreases limit - from,
{
    if from < limit && b[from] == value {
        1 + extent(b, value, from + 1, limit)
    } else {
        0
    }
}

/// The run that starts at `start` when `b` is read up to `limit`: it takes the
/// value of the bit at `start` and goes on until a bit differs or `limit` is
/// reached.
pub open spec fn first_run(b: Seq<bool>, start: int, limit: int) -> Span {
    Span { value: b[start], start, end: start + 1 + extent(b, b[start], start + 1, limit) }
}

/// The runs into which the bits of `b` from `start` up to `limit` fall, in
/// order.
pub open spec fn runs(b: Seq<bool>, start: int, limit: int) -> Seq<Span>
    decreases limit - start,
{
    if start < limit {
        let head = first_run(b, start, limit);
        proof {
            lemma_extent_holds(b, b[start], start + 1, limit);
        }
        seq![head].add(runs(b, head.end, limit))
    } else {
        Seq::empty()
    }
}

/// The bits that a sequence of runs stands for: each run written out as
/// `end - start` copies of its value, one run after the other.
pub open spec fn expand(spans: Seq<Span>) -> Seq<bool>
    decreases spans.len(),
{
    if spans.len() == 0 {
        Seq::empty()
    } else {
        let head = spans[0];
        Seq::new((head.end - head.start) as nat, |i: int| head.value).add(
            expand(spans.drop_first()),
        )
    }
}

/// The bits from `from` up to `e` equal `value`, and the stretch cannot go on
/// past `e`: then it is `e - from` bits long.
pub proof fn lemma_extent_found(b: Seq<bool>, value: bool, from: int, limit: int, e: int)
    requires
        from <= e <= limit,
        forall|i: int| from <= i < e ==> b[i] == value,
        e == limit || b[e] != value,
    ensures
        extent(b, value, from, limit) == e - from,
    decreases e - from,
{
    if from < e {
        lemma_extent_found(b, value, from + 1, limit, e);
    }
}

/// What a stretch of equal bits is: it stays below `limit`, every bit in it
/// equals `value`, and the bit after it, if below `limit`, does not.
pub proof fn lemma_extent_holds(b: Seq<bool>, value: bool, from: int, limit: int)
    requires
        from <= limit,
    ensures
        from + extent(b, value, from, limit) <= limit,
        forall|i: int| from <= i < from + extent(b, value, from, limit) ==> b[i] == value,
        from + extent(b, value, from, limit) < limit ==> b[from + extent(b, value, from, limit)]
            != value,
    decreases limit - from,
{
    if from < limit && b[from] == value {
        lemma_extent_holds(b, value, from + 1, limit);
    }
}

/// The first run of a range that is not empty is the longest stretch of bits
/// from `start` that equal the bit at `start`.
pub proof fn lemma_first_run(b: Seq<bool>, start: int, limit: int)
    requires
        start < limit,
    ensures
        first_run(b, start, limit).start == start,
        first_run(b, start, limit).value == b[start],
        start < first_run(b, start, limit).end <= limit,
        forall|i: int|
            start <= i < first_run(b, start, limit).end ==> b[i] == first_run(
                b,
                start,
                limit,
            ).value,
        first_run(b, start, limit).end < limit ==> b[first_run(b, start, limit).end] != b[start],
{
    lemma_extent_holds(b, b[start], start + 1, limit);
}

} // verus!

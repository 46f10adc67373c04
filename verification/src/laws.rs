//! What holds of bit access and of runs, whatever the storage holds.

use crate::run::{expand, first_run, lemma_first_run, runs, Span};
use crate::word::{
    bit_at, bits, capacity, lemma_in_capacity, lemma_word_with_bit, with_bit, word_width,
};
use vstd::prelude::*;

verus! {

/// Some run of `spans` contains index `i` and has the value `value`.
pub open spec fn holds(spans: Seq<Span>, i: int, value: bool) -> bool {
    exists|k: int|
        0 <= k < spans.len() && (#[trigger] spans[k]).start <= i < spans[k].end && spans[k].value
            == value
}

/// Some run of `spans` ends at index `p`.
pub open spec fn ends_at(spans: Seq<Span>, p: int) -> bool {
    exists|k: int| 0 <= k < spans.len() && (#[trigger] spans[k]).end == p
}

/// Two neighbours in `spans` meet at index `p`: one ends there, the next
/// starts there, and their values differ.
pub open spec fn meet_at(spans: Seq<Span>, p: int) -> bool {
    exists|k: int|
        0 <= k < spans.len() - 1 && (#[trigger] spans[k]).end == p && spans[k + 1].start == p
            && spans[k].value != spans[k + 1].value
}

/// Writing a bit and reading it back gives the value written, and every
/// other bit reads as it did before: the storage that `with_bit` describes
/// holds the old bits with the one at `i` replaced by `value`.
pub proof fn law_write_then_read(words: Seq<usize>, i: int, value: bool)
    requires
        0 <= i < capacity(words),
    ensures
        with_bit(words, i, value).len() == words.len(),
        bits(with_bit(words, i, value)) == bits(words).update(i, value),
        bits(with_bit(words, i, value))[i] == value,
        forall|j: int|
            0 <= j < capacity(words) && j != i ==> bits(with_bit(words, i, value))[j] == bits(
                words,
            )[j],
{
    let w = word_width() as int;
    let after = with_bit(words, i, value);
    let x = i / w;
    let y = i % w;
    lemma_in_capacity(words, i);
    assert forall|j: int| 0 <= j < capacity(words) implies bit_at(after, j) == (if j == i {
        value
    } else {
        bit_at(words, j)
    }) by {
        lemma_in_capacity(words, j);
        if j / w == x {
            lemma_word_with_bit(words[x], y as usize, value, (j % w) as usize);
        }
    }
    assert(bits(after) =~= bits(words).update(i, value));
}

/// An empty range has no runs.
pub proof fn law_empty_range(b: Seq<bool>, start: int)
    ensures
        runs(b, start, start) == Seq::<Span>::empty(),
{
}

/// The runs of a range tile it: there is none exactly when the range is
/// empty; the first starts where the range starts, with the value of the bit
/// there, and the last ends where the range ends; none is empty; each starts
/// where the one before it ended, with the other value.
pub proof fn law_runs_tile(b: Seq<bool>, start: int, limit: int)
    requires
        0 <= start <= limit <= b.len(),
    ensures
        runs(b, start, limit).len() == 0 <==> start == limit,
        start < limit ==> runs(b, start, limit).first().start == start && runs(
            b,
            start,
            limit,
        ).first().value == b[start] && runs(b, start, limit).last().end == limit,
        forall|k: int|
            0 <= k < runs(b, start, limit).len() ==> start <= (#[trigger] runs(
                b,
                start,
                limit,
            )[k]).start < runs(b, start, limit)[k].end <= limit,
        forall|k: int|
            0 <= k < runs(b, start, limit).len() - 1 ==> (#[trigger] runs(b, start, limit)[k]).end
                == runs(b, start, limit)[k + 1].start && runs(b, start, limit)[k].value != runs(
                b,
                start,
                limit,
            )[k + 1].value,
    decreases limit - start,
{
    if start < limit {
        let head = first_run(b, start, limit);
        let rest = runs(b, head.end, limit);
        let all = runs(b, start, limit);
        lemma_first_run(b, start, limit);
        law_runs_tile(b, head.end, limit);
        assert(all == seq![head].add(rest));
        assert(all[0] == head);
        assert forall|k: int| 0 <= k < all.len() implies start <= (#[trigger] all[k]).start
            < all[k].end <= limit by {
            if k > 0 {
                assert(all[k] == rest[k - 1]);
            }
        }
        assert forall|k: int| 0 <= k < all.len() - 1 implies (#[trigger] all[k]).end == all[k
            + 1].start && all[k].value != all[k + 1].value by {
            assert(all[k + 1] == rest[k]);
            if k > 0 {
                assert(all[k] == rest[k - 1]);
            }
        }
        if rest.len() > 0 {
            assert(all.last() == rest.last());
        }
    }
}

/// A range has at most as many runs as it has bits.
pub proof fn law_runs_are_few(b: Seq<bool>, start: int, limit: int)
    requires
        start <= limit,
    ensures
        runs(b, start, limit).len() <= limit - start,
    decreases limit - start,
{
    if start < limit {
        lemma_first_run(b, start, limit);
        law_runs_are_few(b, first_run(b, start, limit).end, limit);
    }
}

/// Every bit of a range lies in one of the range's runs, and every bit that
/// lies in a run has the run's value.
pub proof fn law_runs_hold_bits(b: Seq<bool>, start: int, limit: int)
    requires
        0 <= start <= limit <= b.len(),
    ensures
        forall|k: int, i: int|
            0 <= k < runs(b, start, limit).len() && (#[trigger] runs(b, start, limit)[k]).start
                <= i < runs(b, start, limit)[k].end ==> #[trigger] b[i] == runs(
                b,
                start,
                limit,
            )[k].value,
        forall|i: int|
            start <= i < limit ==> holds(runs(b, start, limit), i, #[trigger] b[i]),
    decreases limit - start,
{
    if start < limit {
        let head = first_run(b, start, limit);
        let rest = runs(b, head.end, limit);
        let all = runs(b, start, limit);
        lemma_first_run(b, start, limit);
        law_runs_hold_bits(b, head.end, limit);
        assert(all == seq![head].add(rest));
        assert(all[0] == head);
        assert forall|k: int, i: int|
            0 <= k < all.len() && (#[trigger] all[k]).start <= i < all[k].end implies #[trigger] b[i]
            == all[k].value by {
            if k > 0 {
                assert(all[k] == rest[k - 1]);
            }
        }
        assert forall|i: int| start <= i < limit implies holds(all, i, #[trigger] b[i]) by {
            if i < head.end {
                assert(all[0].start <= i < all[0].end && all[0].value == b[i]);
            } else {
                assert(holds(rest, i, b[i]));
                let k = choose|k: int|
                    0 <= k < rest.len() && (#[trigger] rest[k]).start <= i < rest[k].end
                        && rest[k].value == b[i];
                assert(all[k + 1] == rest[k]);
            }
        }
    }
}

/// Inside a range, one run ends and the next begins at an index exactly when
/// the bit at that index differs from the bit before it. Nothing is special
/// about an index where one storage word ends and the next begins.
pub proof fn law_runs_meet_where_bits_change(b: Seq<bool>, start: int, limit: int, p: int)
    requires
        0 <= start < p < limit <= b.len(),
    ensures
        meet_at(runs(b, start, limit), p) <==> b[p - 1] != b[p],
{
    let all = runs(b, start, limit);
    lemma_run_ends_where_bits_change(b, start, limit, p);
    law_runs_tile(b, start, limit);
    if ends_at(all, p) {
        let k = choose|k: int| 0 <= k < all.len() && (#[trigger] all[k]).end == p;
        assert(all[k].end == all[k + 1].start);
    }
    if meet_at(all, p) {
        let k = choose|k: int|
            0 <= k < all.len() - 1 && (#[trigger] all[k]).end == p && all[k + 1].start == p
                && all[k].value != all[k + 1].value;
        assert(all[k].end == p);
    }
}

/// Inside a range, a run ends at an index exactly when the bit at that index
/// differs from the bit before it.
pub proof fn lemma_run_ends_where_bits_change(b: Seq<bool>, start: int, limit: int, p: int)
    requires
        0 <= start < p < limit <= b.len(),
    ensures
        ends_at(runs(b, start, limit), p) <==> b[p - 1] != b[p],
    decreases limit - start,
{
    let head = first_run(b, start, limit);
    let rest = runs(b, head.end, limit);
    let all = runs(b, start, limit);
    lemma_first_run(b, start, limit);
    law_runs_tile(b, head.end, limit);
    assert(all == seq![head].add(rest));
    assert(all[0] == head);
    if p < head.end {
        assert(b[p - 1] == b[p]);
        if ends_at(all, p) {
            let k = choose|k: int| 0 <= k < all.len() && (#[trigger] all[k]).end == p;
            assert(all[k] == rest[k - 1]);
        }
    } else if p == head.end {
        assert(b[p - 1] == head.value);
        assert(all[0].end == p);
    } else {
        lemma_run_ends_where_bits_change(b, head.end, limit, p);
        if ends_at(rest, p) {
            let k = choose|k: int| 0 <= k < rest.len() && (#[trigger] rest[k]).end == p;
            assert(all[k + 1] == rest[k]);
        }
        if ends_at(all, p) {
            let k = choose|k: int| 0 <= k < all.len() && (#[trigger] all[k]).end == p;
            assert(all[k] == rest[k - 1]);
        }
    }
}

/// Where the last bit of one storage word differs from the first bit of the
/// next, and both lie in the range, two runs meet exactly at the boundary
/// between the two words.
pub proof fn law_runs_meet_at_word_boundary(words: Seq<usize>, start: int, limit: int, x: int)
    requires
        0 <= start <= limit <= capacity(words),
        start < x * word_width() < limit,
        bit_at(words, x * word_width() - 1) != bit_at(words, x * word_width()),
    ensures
        meet_at(runs(bits(words), start, limit), x * word_width()),
{
    law_runs_meet_where_bits_change(bits(words), start, limit, x * word_width());
}

/// Writing out the runs of a range bit by bit gives back the bits of the
/// range.
pub proof fn law_expand_runs(b: Seq<bool>, start: int, limit: int)
    requires
        0 <= start <= limit <= b.len(),
    ensures
        expand(runs(b, start, limit)) == b.subrange(start, limit),
    decreases limit - start,
{
    if start < limit {
        let head = first_run(b, start, limit);
        let rest = runs(b, head.end, limit);
        let all = runs(b, start, limit);
        lemma_first_run(b, start, limit);
        law_expand_runs(b, head.end, limit);
        assert(all == seq![head].add(rest));
        assert(all[0] == head);
        assert(all.drop_first() =~= rest);
        assert(expand(all) =~= b.subrange(start, limit));
    } else {
        assert(expand(runs(b, start, limit)) =~= b.subrange(start, limit));
    }
}

} // verus!

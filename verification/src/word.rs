//! Storage words and the bits they hold.
//!
//! A bitset is a sequence of native words laid end to end: bit `i` of the
//! bitset is bit `i % width` of word `i / width`, counting from the least
//! significant bit.

use vstd::prelude::*;

verus! {

/// The number of bits in a storage word, for use in contracts.
pub open spec fn spec_word_width() -> usize {
    usize::BITS as usize
}

/// The number of bits in a storage word.
///
/// Trusted: this hands out `<usize as primitive_traits::Integer>::WIDTH`, and
/// the contract claims that the constant is the bit width of `usize`. The
/// crate sets it to 32 on targets with 32-bit pointers and to 64 on targets
/// with 64-bit pointers, and has no value for any other target.
#[verifier::when_used_as_spec(spec_word_width)]
#[verifier::external_body]
pub fn word_width() -> (w: usize)
    ensures
        w == spec_word_width(),
{
    <usize as primitive_traits::Integer>::WIDTH
}

/// How many bits `words` holds.
pub open spec fn capacity(words: Seq<usize>) -> int {
    words.len() * word_width()
}

/// Whether bit `k` of the word `w` is set.
pub open spec fn word_bit(w: usize, k: int) -> bool {
    ((w as u64) >> (k as u64)) & 1u64 == 1u64
}

/// Whether bit `i` of the bitset stored in `words` is set.
pub open spec fn bit_at(words: Seq<usize>, i: int) -> bool {
    word_bit(words[i / (word_width() as int)], i % (word_width() as int))
}

/// The bitset stored in `words`, one `bool` for each bit.
pub open spec fn bits(words: Seq<usize>) -> Seq<bool> {
    Seq::new(capacity(words) as nat, |i: int| bit_at(words, i))
}

/// The word `w` with bit `k` made equal to `value`.
pub open spec fn word_with_bit(w: usize, k: int, value: bool) -> usize {
    if value {
        w | (1usize << (k as usize))
    } else {
        w & !(1usize << (k as usize))
    }
}

/// The storage `words` with bit `i` of the bitset made equal to `value`.
pub open spec fn with_bit(words: Seq<usize>, i: int, value: bool) -> Seq<usize> {
    let x = i / (word_width() as int);
    let y = i % (word_width() as int);
    words.update(x, word_with_bit(words[x], y, value))
}

/// Splitting a bit index into word and offset, and putting it together again.
pub proof fn lemma_locate(x: int, k: int)
    requires
        0 <= x,
        0 <= k < word_width(),
    ensures
        (x * word_width() + k) / (word_width() as int) == x,
        (x * word_width() + k) % (word_width() as int) == k,
{
    let w = word_width() as int;
    vstd::arithmetic::div_mod::lemma_fundamental_div_mod_converse(x * w + k, w, x, k);
}

/// A bit index is below the capacity exactly when its word exists.
pub proof fn lemma_in_capacity(words: Seq<usize>, i: int)
    requires
        0 <= i,
    ensures
        i < capacity(words) <==> i / (word_width() as int) < words.len(),
        0 <= i / (word_width() as int),
        0 <= i % (word_width() as int) < word_width(),
        i == (i / (word_width() as int)) * word_width() + i % (word_width() as int),
{
    let w = word_width() as int;
    let n = words.len() as int;
    vstd::arithmetic::div_mod::lemma_fundamental_div_mod(i, w);
    vstd::arithmetic::div_mod::lemma_mod_bound(i, w);
    let x = i / w;
    assert(x * w == w * x) by (nonlinear_arith);
    assert(0 <= x) by (nonlinear_arith)
        requires
            x == i / w,
            0 <= i,
            0 < w,
    ;
    if x < n {
        assert(x * w + w <= n * w) by (nonlinear_arith)
            requires
                x + 1 <= n,
                0 < w,
        ;
    } else {
        assert(n * w <= x * w) by (nonlinear_arith)
            requires
                n <= x,
                0 < w,
        ;
    }
}

/// Bit `k` of word `x` is bit `x * width + k` of the bitset.
pub proof fn lemma_bit_in_word(words: Seq<usize>, x: int, k: int)
    requires
        0 <= x < words.len(),
        0 <= k < word_width(),
    ensures
        0 <= x * word_width() + k < capacity(words),
        bits(words)[x * word_width() + k] == word_bit(words[x], k),
{
    let w = word_width() as int;
    let i = x * w + k;
    lemma_locate(x, k);
    assert(0 <= x * w) by (nonlinear_arith)
        requires
            0 <= x,
            0 < w,
    ;
    lemma_in_capacity(words, i);
    assert(bits(words)[i] == bit_at(words, i));
}

/// A stretch of `n` bits equal to `of` inside word `x`, from offset `y` on, is
/// a stretch of `n` bits equal to `of` in the bitset; where the stretch stops
/// short of the end of the word, the bit after it differs in the bitset too.
pub proof fn lemma_stretch_in_word(words: Seq<usize>, x: int, y: int, of: bool, n: int)
    requires
        0 <= x < words.len(),
        0 <= y,
        0 <= n,
        y + n <= word_width(),
        forall|k: int| y <= k < y + n ==> word_bit(words[x], k) == of,
        y + n < word_width() ==> word_bit(words[x], y + n) != of,
    ensures
        0 <= x * word_width() + y,
        x * word_width() + y + n <= capacity(words),
        forall|i: int|
            x * word_width() + y <= i < x * word_width() + y + n ==> 0 <= i < bits(words).len()
                && bits(words)[i] == of,
        y + n < word_width() ==> x * word_width() + y + n < capacity(words) && bits(words)[x
            * word_width() + y + n] != of,
{
    let w = word_width() as int;
    let from = x * w + y;
    assert(0 <= x * w && x * w + w <= capacity(words)) by (nonlinear_arith)
        requires
            0 <= x,
            x + 1 <= words.len(),
            0 < w,
            capacity(words) == words.len() * w,
    ;
    assert forall|i: int| from <= i < from + n implies 0 <= i < bits(words).len() && bits(words)[i]
        == of by {
        lemma_bit_in_word(words, x, i - x * w);
    }
    if y + n < w {
        lemma_bit_in_word(words, x, y + n);
    }
}

/// Testing a word against a one-bit mask reads that bit.
pub proof fn lemma_mask_reads_bit(w: usize, y: usize)
    requires
        y < word_width(),
    ensures
        ((1usize << y) == (w & (1usize << y))) == word_bit(w, y as int),
{
    assert(((1usize << y) == (w & (1usize << y))) == (((w as u64) >> (y as u64)) & 1u64 == 1u64))
        by (bit_vector)
        requires
            y < usize::BITS,
    ;
}

/// Writing bit `y` of a word changes that bit and no other.
pub proof fn lemma_word_with_bit(w: usize, y: usize, value: bool, k: usize)
    requires
        y < word_width(),
        k < word_width(),
    ensures
        word_bit(word_with_bit(w, y as int, value), k as int) == (if k == y {
            value
        } else {
            word_bit(w, k as int)
        }),
{
    assert((((w | (1usize << y)) as u64) >> (k as u64)) & 1u64 == 1u64 <==> (k == y || ((w as u64)
        >> (k as u64)) & 1u64 == 1u64)) by (bit_vector)
        requires
            y < usize::BITS,
            k < usize::BITS,
    ;
    assert((((w & !(1usize << y)) as u64) >> (k as u64)) & 1u64 == 1u64 <==> (k != y && ((w as u64)
        >> (k as u64)) & 1u64 == 1u64)) by (bit_vector)
        requires
            y < usize::BITS,
            k < usize::BITS,
    ;
}

/// Complementing a word flips each of its bits.
pub proof fn lemma_complement_flips(w: usize, k: usize)
    requires
        k < word_width(),
    ensures
        word_bit(!w, k as int) == !word_bit(w, k as int),
{
    assert((((!w) as u64) >> (k as u64)) & 1u64 == 1u64 <==> !(((w as u64) >> (k as u64)) & 1u64
        == 1u64)) by (bit_vector)
        requires
            k < usize::BITS,
    ;
}

/// Bit `j` of a word shifted right by `y` is bit `y + j` of the word.
pub proof fn lemma_shift_moves_bits(w: usize, y: usize, j: usize)
    requires
        y < word_width(),
        j < word_width() - y,
    ensures
        word_bit(w >> y, j as int) == word_bit(w, y + j),
{
    let k: usize = (y + j) as usize;
    assert((((w >> y) as u64) >> (j as u64)) & 1u64 == ((w as u64) >> (k as u64)) & 1u64)
        by (bit_vector)
        requires
            y < usize::BITS,
            j < usize::BITS - y,
            k == y + j,
    ;
}

} // verus!

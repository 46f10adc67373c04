use rle_bitset::{locate, validate_range, word_width, Bound, OutOfRange, RLEBits};

#[test]
fn word_width_is_the_width_of_usize() {
    assert_eq!(word_width(), usize::BITS as usize);
    assert_eq!(word_width(), std::mem::size_of::<usize>() * 8);
}

#[test]
fn locate_splits_an_index_into_word_and_offset() {
    let w = word_width();
    let x: [usize; 4] = [0, 0, 0, 0];
    assert_eq!(locate(&x, 0), Ok((0, 0)));
    assert_eq!(locate(&x, 5), Ok((0, 5)));
    assert_eq!(locate(&x, w - 1), Ok((0, w - 1)));
    assert_eq!(locate(&x, w), Ok((1, 0)));
    assert_eq!(locate(&x, w + 3), Ok((1, 3)));
    assert_eq!(locate(&x, 4 * w - 1), Ok((3, w - 1)));
}

#[test]
fn locate_refuses_an_index_at_or_past_the_capacity() {
    let w = word_width();
    let x: [usize; 4] = [0, 0, 0, 0];
    assert_eq!(locate(&x, 4 * w), Err(OutOfRange()));
    assert_eq!(locate(&x, 4 * w + 1), Err(OutOfRange()));
    assert_eq!(locate(&x, usize::MAX), Err(OutOfRange()));
    let none: [usize; 0] = [];
    assert_eq!(locate(&none, 0), Err(OutOfRange()));
}

#[test]
fn get_bit_reads_the_bit_at_its_offset() {
    let w = word_width();
    let x: [usize; 2] = [0b1010, 1 << (w - 1)];
    assert_eq!(x.get_bit(0), Ok(false));
    assert_eq!(x.get_bit(1), Ok(true));
    assert_eq!(x.get_bit(2), Ok(false));
    assert_eq!(x.get_bit(3), Ok(true));
    assert_eq!(x.get_bit(4), Ok(false));
    assert_eq!(x.get_bit(w), Ok(false));
    assert_eq!(x.get_bit(2 * w - 2), Ok(false));
    assert_eq!(x.get_bit(2 * w - 1), Ok(true));
    assert_eq!(x.get_bit(2 * w), Err(OutOfRange()));
}

#[test]
fn get_bit_fails_on_empty_storage() {
    let x: [usize; 0] = [];
    assert_eq!(x.get_bit(0), Err(OutOfRange()));
}

#[test]
fn set_bit_then_get_bit_gives_the_value_written() {
    let w = word_width();
    let mut x: [usize; 3] = [0, usize::MAX, 0b0110];
    for i in 0..3 * w {
        for value in [true, false] {
            let before: Vec<bool> = (0..3 * w).map(|j| x.get_bit(j).unwrap()).collect();
            assert_eq!(x.set_bit(i, value), Ok(()));
            for j in 0..3 * w {
                let expected = if j == i { value } else { before[j] };
                assert_eq!(x.get_bit(j), Ok(expected));
            }
        }
    }
}

#[test]
fn set_bit_writes_the_mask_into_the_word() {
    let w = word_width();
    let mut x: [usize; 2] = [0, usize::MAX];
    x.set_bit(3, true).unwrap();
    assert_eq!(x, [0b1000, usize::MAX]);
    x.set_bit(w + 1, false).unwrap();
    assert_eq!(x, [0b1000, usize::MAX - 2]);
    x.set_bit(3, true).unwrap();
    assert_eq!(x, [0b1000, usize::MAX - 2]);
    x.set_bit(3, false).unwrap();
    assert_eq!(x, [0, usize::MAX - 2]);
    x.set_bit(2 * w - 1, false).unwrap();
    assert_eq!(x, [0, (usize::MAX >> 1) - 2]);
    x.set_bit(w - 1, true).unwrap();
    assert_eq!(x, [1 << (w - 1), (usize::MAX >> 1) - 2]);
}

#[test]
fn set_bit_out_of_range_fails_and_changes_nothing() {
    let w = word_width();
    let mut x: [usize; 2] = [0b1001, 7];
    assert_eq!(x.set_bit(2 * w, true), Err(OutOfRange()));
    assert_eq!(x.set_bit(2 * w, false), Err(OutOfRange()));
    assert_eq!(x.set_bit(usize::MAX, true), Err(OutOfRange()));
    assert_eq!(x, [0b1001, 7]);
    let mut none: [usize; 0] = [];
    assert_eq!(none.set_bit(0, true), Err(OutOfRange()));
}

#[test]
fn validate_range_resolves_the_start() {
    let w = word_width();
    let cap = 4 * w;
    assert_eq!(validate_range(4, Bound::Unbounded, Bound::Unbounded), Ok(0..cap));
    assert_eq!(validate_range(4, Bound::Included(0), Bound::Unbounded), Ok(0..cap));
    assert_eq!(validate_range(4, Bound::Included(7), Bound::Unbounded), Ok(7..cap));
    assert_eq!(validate_range(4, Bound::Included(cap - 1), Bound::Unbounded), Ok(cap - 1..cap));
    assert_eq!(validate_range(4, Bound::Included(cap), Bound::Unbounded), Err(OutOfRange()));
    assert_eq!(validate_range(4, Bound::Excluded(0), Bound::Unbounded), Ok(1..cap));
    assert_eq!(validate_range(4, Bound::Excluded(7), Bound::Unbounded), Ok(8..cap));
    assert_eq!(validate_range(4, Bound::Excluded(cap - 2), Bound::Unbounded), Ok(cap - 1..cap));
    assert_eq!(validate_range(4, Bound::Excluded(cap - 1), Bound::Unbounded), Err(OutOfRange()));
    assert_eq!(validate_range(4, Bound::Excluded(cap), Bound::Unbounded), Err(OutOfRange()));
    assert_eq!(
        validate_range(4, Bound::Excluded(usize::MAX), Bound::Unbounded),
        Err(OutOfRange())
    );
    assert_eq!(
        validate_range(4, Bound::Included(usize::MAX), Bound::Unbounded),
        Err(OutOfRange())
    );
}

#[test]
fn validate_range_resolves_the_end() {
    let w = word_width();
    let cap = 4 * w;
    assert_eq!(validate_range(4, Bound::Unbounded, Bound::Included(0)), Ok(0..1));
    assert_eq!(validate_range(4, Bound::Unbounded, Bound::Included(9)), Ok(0..10));
    assert_eq!(validate_range(4, Bound::Unbounded, Bound::Included(cap - 1)), Ok(0..cap));
    assert_eq!(validate_range(4, Bound::Unbounded, Bound::Included(cap)), Err(OutOfRange()));
    assert_eq!(validate_range(4, Bound::Unbounded, Bound::Excluded(0)), Ok(0..0));
    assert_eq!(validate_range(4, Bound::Unbounded, Bound::Excluded(9)), Ok(0..9));
    assert_eq!(validate_range(4, Bound::Unbounded, Bound::Excluded(cap)), Ok(0..cap));
    assert_eq!(validate_range(4, Bound::Unbounded, Bound::Excluded(cap + 1)), Err(OutOfRange()));
    assert_eq!(
        validate_range(4, Bound::Unbounded, Bound::Included(usize::MAX)),
        Err(OutOfRange())
    );
    assert_eq!(
        validate_range(4, Bound::Unbounded, Bound::Excluded(usize::MAX)),
        Err(OutOfRange())
    );
}

#[test]
fn validate_range_takes_each_side_from_its_own_bound() {
    let w = word_width();
    assert_eq!(validate_range(4, Bound::Included(3), Bound::Excluded(w + 5)), Ok(3..w + 5));
    assert_eq!(validate_range(4, Bound::Included(3), Bound::Included(w + 5)), Ok(3..w + 6));
    assert_eq!(validate_range(4, Bound::Excluded(3), Bound::Included(w + 5)), Ok(4..w + 6));
    assert_eq!(validate_range(4, Bound::Excluded(3), Bound::Excluded(w + 5)), Ok(4..w + 5));
    assert_eq!(validate_range(4, Bound::Included(3), Bound::Included(3)), Ok(3..4));
}

#[test]
fn validate_range_accepts_an_empty_range() {
    assert_eq!(validate_range(4, Bound::Included(5), Bound::Excluded(5)), Ok(5..5));
    assert_eq!(validate_range(4, Bound::Excluded(5), Bound::Included(5)), Ok(6..6));
    assert_eq!(validate_range(0, Bound::Unbounded, Bound::Unbounded), Ok(0..0));
    assert_eq!(validate_range(0, Bound::Unbounded, Bound::Excluded(0)), Ok(0..0));
}

#[test]
fn validate_range_refuses_a_range_that_ends_before_it_starts() {
    assert_eq!(validate_range(4, Bound::Included(6), Bound::Excluded(5)), Err(OutOfRange()));
    assert_eq!(validate_range(4, Bound::Excluded(5), Bound::Excluded(5)), Err(OutOfRange()));
    assert_eq!(validate_range(4, Bound::Included(9), Bound::Included(3)), Err(OutOfRange()));
}

#[test]
fn validate_range_refuses_any_index_of_empty_storage() {
    assert_eq!(validate_range(0, Bound::Included(0), Bound::Unbounded), Err(OutOfRange()));
    assert_eq!(validate_range(0, Bound::Unbounded, Bound::Included(0)), Err(OutOfRange()));
    assert_eq!(validate_range(0, Bound::Excluded(0), Bound::Unbounded), Err(OutOfRange()));
    assert_eq!(validate_range(0, Bound::Unbounded, Bound::Excluded(1)), Err(OutOfRange()));
}

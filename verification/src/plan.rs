//! Slot planning: how many bytes each word of the passphrase gets.
//!
//! A plan is a vector of word lengths, one per slot. Without a length target
//! every slot is free; with one, the plan is seeded at random and then moved
//! one byte at a time until words, digits and separators add up exactly.

use crate::dice::{random_below, random_between};
use crate::error::FitError;
use crate::text::byte_len;
use crate::{MAX_WORD_LEN, MIN_WORD_LEN};
use vstd::prelude::*;

verus! {

/// The sum of the planned word lengths.
pub open spec fn total(lengths: Seq<u32>) -> int
    decreases lengths.len(),
{
    if lengths.len() == 0 {
        0
    } else {
        total(lengths.drop_last()) + lengths.last()
    }
}

/// Every planned length is one that a word can have.
pub open spec fn in_bounds(lengths: Seq<u32>) -> bool {
    forall|i: int| 0 <= i < lengths.len() ==> MIN_WORD_LEN <= #[trigger] lengths[i] <= MAX_WORD_LEN
}

/// The bytes of a passphrase that are not part of any word: one digit per
/// word if digits are appended, and a separator between neighbours.
pub open spec fn fixed_overhead(words: int, numbers: bool, separator_len: int) -> int {
    (if numbers { words } else { 0 }) + separator_len * (words - 1)
}

/// The shortest passphrase that `words` words can make.
pub open spec fn min_total(words: int, numbers: bool, separator_len: int) -> int {
    fixed_overhead(words, numbers, separator_len) + MIN_WORD_LEN * words
}

/// The longest passphrase that `words` words can make.
pub open spec fn max_total(words: int, numbers: bool, separator_len: int) -> int {
    fixed_overhead(words, numbers, separator_len) + MAX_WORD_LEN * words
}

/// `lengths` is a plan for `words` words whose passphrase is exactly
/// `max_length` bytes long.
pub open spec fn fits(
    lengths: Seq<u32>,
    words: int,
    max_length: int,
    numbers: bool,
    separator_len: int,
) -> bool {
    &&& lengths.len() == words
    &&& in_bounds(lengths)
    &&& total(lengths) + fixed_overhead(words, numbers, separator_len) == max_length
}

/// A slot can grow while it is below the longest word, and shrink while it is
/// above the shortest.
pub open spec fn can_move(length: u32, grow: bool) -> bool {
    if grow {
        length < MAX_WORD_LEN
    } else {
        length > MIN_WORD_LEN
    }
}

/// The slots that can still move in the given direction, in rising order.
pub open spec fn movable_slots(lengths: Seq<u32>, grow: bool) -> Seq<usize>
    decreases lengths.len(),
{
    if lengths.len() == 0 {
        Seq::empty()
    } else {
        let earlier = movable_slots(lengths.drop_last(), grow);
        if can_move(lengths.last(), grow) {
            earlier.push((lengths.len() - 1) as usize)
        } else {
            earlier
        }
    }
}

/// The plan with one slot moved by one byte.
pub open spec fn moved(lengths: Seq<u32>, slot: int, grow: bool) -> Seq<u32> {
    lengths.update(
        slot,
        if grow {
            (lengths[slot] + 1) as u32
        } else {
            (lengths[slot] - 1) as u32
        },
    )
}

/// `after` has the slots of `before`, none of them moved against the
/// direction.
pub open spec fn moved_towards(before: Seq<u32>, after: Seq<u32>, grow: bool) -> bool {
    &&& after.len() == before.len()
    &&& forall|i: int|
        0 <= i < before.len() ==> if grow {
            before[i] <= #[trigger] after[i]
        } else {
            after[i] <= before[i]
        }
}

/// A plan within bounds sums to between 4 and 13 bytes per slot.
pub proof fn lemma_total_bounds(lengths: Seq<u32>)
    requires
        in_bounds(lengths),
    ensures
        MIN_WORD_LEN * lengths.len() <= total(lengths) <= MAX_WORD_LEN * lengths.len(),
    decreases lengths.len(),
{
    if lengths.len() > 0 {
        lemma_total_bounds(lengths.drop_last());
    }
}

/// Only a length within reach has a plan that fits it: what is refused as
/// too short or too long could not have been met.
pub proof fn lemma_fits_within_reach(
    lengths: Seq<u32>,
    words: int,
    max_length: int,
    numbers: bool,
    separator_len: int,
)
    requires
        fits(lengths, words, max_length, numbers, separator_len),
    ensures
        min_total(words, numbers, separator_len) <= max_length <= max_total(
            words,
            numbers,
            separator_len,
        ),
{
    lemma_total_bounds(lengths);
}

/// What `movable_slots` lists: exactly the slots that can move, each once,
/// in rising order.
pub proof fn lemma_movable_slots(lengths: Seq<u32>, grow: bool)
    requires
        lengths.len() <= usize::MAX,
    ensures
        movable_slots(lengths, grow).len() <= lengths.len(),
        forall|k: int|
            0 <= k < movable_slots(lengths, grow).len() ==> {
                let slot = #[trigger] movable_slots(lengths, grow)[k];
                slot < lengths.len() && can_move(lengths[slot as int], grow)
            },
        forall|j: int, k: int|
            0 <= j < k < movable_slots(lengths, grow).len() ==> movable_slots(lengths, grow)[j]
                < movable_slots(lengths, grow)[k],
        forall|i: int|
            0 <= i < lengths.len() && can_move(#[trigger] lengths[i], grow) ==> movable_slots(
                lengths,
                grow,
            ).contains(i as usize),
    decreases lengths.len(),
{
    if lengths.len() > 0 {
        let shorter = lengths.drop_last();
        let earlier = movable_slots(shorter, grow);
        let slots = movable_slots(lengths, grow);
        lemma_movable_slots(shorter, grow);
        assert forall|i: int| 0 <= i < lengths.len() && can_move(#[trigger] lengths[i], grow)
            implies slots.contains(i as usize) by {
            if i < shorter.len() {
                assert(shorter[i] == lengths[i]);
                let k = choose|k: int| 0 <= k < earlier.len() && earlier[k] == i as usize;
                assert(slots[k] == i as usize);
            } else {
                assert(slots[slots.len() - 1] == i as usize);
            }
        }
    }
}

/// Where no slot can move, every slot is at the bound of that direction.
pub proof fn lemma_stuck_total(lengths: Seq<u32>, grow: bool)
    requires
        in_bounds(lengths),
        movable_slots(lengths, grow).len() == 0,
    ensures
        total(lengths) == (if grow { MAX_WORD_LEN } else { MIN_WORD_LEN }) * lengths.len(),
    decreases lengths.len(),
{
    if lengths.len() > 0 {
        lemma_stuck_total(lengths.drop_last(), grow);
    }
}

/// Moving one slot keeps the plan within bounds and changes its sum by one.
pub proof fn lemma_moved(lengths: Seq<u32>, slot: int, grow: bool)
    requires
        in_bounds(lengths),
        0 <= slot < lengths.len(),
        can_move(lengths[slot], grow),
    ensures
        in_bounds(moved(lengths, slot, grow)),
        moved(lengths, slot, grow).len() == lengths.len(),
        total(moved(lengths, slot, grow)) == total(lengths) + (if grow { 1int } else { -1int }),
    decreases lengths.len(),
{
    let after = moved(lengths, slot, grow);
    if slot == lengths.len() - 1 {
        assert(after.drop_last() =~= lengths.drop_last());
    } else {
        lemma_moved(lengths.drop_last(), slot, grow);
        assert(after.drop_last() =~= moved(lengths.drop_last(), slot, grow));
    }
}

/// The bytes that are left for the words once digits and separators are
/// accounted for, or why no plan can reach `max_length`.
pub fn slot_budget(words: u8, max_length: u8, numbers: bool, separator: &str) -> (res: Result<
    usize,
    FitError,
>)
    requires
        words >= 1,
    ensures
        match res {
            Ok(budget) => {
                &&& min_total(words as int, numbers, byte_len(separator@) as int) <= max_length
                &&& max_length <= max_total(words as int, numbers, byte_len(separator@) as int)
                &&& budget + fixed_overhead(words as int, numbers, byte_len(separator@) as int)
                    == max_length
            },
            Err(FitError::TooShort) => max_length < min_total(
                words as int,
                numbers,
                byte_len(separator@) as int,
            ),
            Err(FitError::TooLong) => max_length > max_total(
                words as int,
                numbers,
                byte_len(separator@) as int,
            ),
            Err(_) => false,
        },
{
    let count: usize = words as usize;
    let separator_len: usize = separator.as_bytes().len();
    let target: usize = max_length as usize;
    if count > 1 && separator_len > target {
        // The separators alone are longer than the target, and their product
        // with the word count need not fit in a `usize`.
        assert(separator_len * (count - 1) >= separator_len) by (nonlinear_arith)
            requires
                count - 1 >= 1,
        ;
        return Err(FitError::TooShort);
    }
    let gaps: usize = if count > 1 {
        assert(separator_len * (count - 1) <= 255 * 254) by (nonlinear_arith)
            requires
                separator_len <= 255,
                0 <= count - 1 <= 254,
        ;
        separator_len * (count - 1)
    } else {
        assert(separator_len * (count - 1) == 0) by (nonlinear_arith)
            requires
                count - 1 == 0,
        ;
        0
    };
    let overhead: usize = if numbers {
        count + gaps
    } else {
        gaps
    };
    let shortest: usize = MIN_WORD_LEN as usize;
    let longest: usize = MAX_WORD_LEN as usize;
    assert(shortest == MIN_WORD_LEN && longest == MAX_WORD_LEN);
    if overhead + longest * count < target {
        Err(FitError::TooLong)
    } else if overhead + shortest * count > target {
        Err(FitError::TooShort)
    } else {
        Ok(target - overhead)
    }
}

/// A plan of `words` slots, each drawn freely from the lengths a word can
/// have.
pub fn generate_nums(words: u8) -> (nums: Vec<u32>)
    ensures
        nums.len() == words,
        in_bounds(nums@),
{
    let mut nums: Vec<u32> = Vec::new();
    for placed in 0..words
        invariant
            nums.len() == placed,
            in_bounds(nums@),
    {
        let drawn = random_between(MIN_WORD_LEN as usize, MAX_WORD_LEN as usize);
        nums.push(drawn as u32);
    }
    nums
}

/// The sum of a plan, computed.
fn sum_of(lengths: &Vec<u32>) -> (sum: usize)
    requires
        in_bounds(lengths@),
        MAX_WORD_LEN * lengths.len() <= usize::MAX,
    ensures
        sum == total(lengths@),
{
    let mut sum: usize = 0;
    for i in 0..lengths.len()
        invariant
            in_bounds(lengths@),
            MAX_WORD_LEN * lengths.len() <= usize::MAX,
            sum == total(lengths@.take(i as int)),
    {
        proof {
            lemma_total_bounds(lengths@.take(i as int));
            assert(lengths@.take(i + 1).drop_last() =~= lengths@.take(i as int));
        }
        sum += lengths[i] as usize;
    }
    proof {
        assert(lengths@.take(lengths.len() as int) =~= lengths@);
    }
    sum
}

/// Lists the slots that can still move in the given direction.
pub fn find_movable(lengths: &Vec<u32>, grow: bool) -> (slots: Vec<usize>)
    ensures
        slots@ == movable_slots(lengths@, grow),
{
    let mut slots: Vec<usize> = Vec::new();
    for i in 0..lengths.len()
        invariant
            slots@ == movable_slots(lengths@.take(i as int), grow),
    {
        proof {
            assert(lengths@.take(i + 1).drop_last() =~= lengths@.take(i as int));
        }
        let length = lengths[i];
        let open = if grow {
            length < MAX_WORD_LEN
        } else {
            length > MIN_WORD_LEN
        };
        if open {
            slots.push(i);
        }
    }
    proof {
        assert(lengths@.take(lengths.len() as int) =~= lengths@);
    }
    slots
}

/// One step of fitting: moves the `pick`-th movable slot by one byte, and
/// says whether there was such a slot.
pub fn nudge(lengths: &mut Vec<u32>, pick: usize, grow: bool) -> (done: bool)
    ensures
        done == (pick < movable_slots(old(lengths)@, grow).len()),
        done ==> final(lengths)@ == moved(
            old(lengths)@,
            movable_slots(old(lengths)@, grow)[pick as int] as int,
            grow,
        ),
        !done ==> final(lengths)@ == old(lengths)@,
{
    let slots = find_movable(lengths, grow);
    if pick < slots.len() {
        let slot = slots[pick];
        proof {
            assert(lengths@.len() == lengths.len());
            lemma_movable_slots(lengths@, grow);
        }
        let length = lengths[slot];
        if grow {
            lengths[slot] = length + 1;
        } else {
            lengths[slot] = length - 1;
        }
        true
    } else {
        false
    }
}

/// Moves a plan to the sum `target`, one byte at a time, and every slot only
/// towards the target: a plan below it grows, a plan above it shrinks.
///
/// Each step draws among the slots that can still move towards the target.
/// That is the distribution that drawing among all slots, and drawing again
/// whenever a slot at its bound comes up, would give; drawn this way every
/// draw moves the sum, so the number of steps is the distance to the target.
pub fn fit_to_total(lengths: &mut Vec<u32>, target: usize)
    requires
        in_bounds(old(lengths)@),
        MAX_WORD_LEN * old(lengths).len() <= usize::MAX,
        MIN_WORD_LEN * old(lengths).len() <= target <= MAX_WORD_LEN * old(lengths).len(),
    ensures
        in_bounds(final(lengths)@),
        total(final(lengths)@) == target,
        moved_towards(old(lengths)@, final(lengths)@, total(old(lengths)@) < target),
{
    let mut sum = sum_of(lengths);
    let grow = sum < target;
    while sum != target
        invariant
            in_bounds(lengths@),
            moved_towards(old(lengths)@, lengths@, grow),
            sum == total(lengths@),
            MIN_WORD_LEN * lengths.len() <= target <= MAX_WORD_LEN * lengths.len(),
            if grow {
                sum <= target
            } else {
                sum >= target
            },
        decreases (if grow { target - sum } else { sum - target }),
    {
        let ghost before = lengths@;
        proof {
            if movable_slots(before, grow).len() == 0 {
                lemma_stuck_total(before, grow);
            }
            assert(before.len() == lengths.len());
            lemma_movable_slots(before, grow);
        }
        let pick = random_below(find_movable(lengths, grow).len());
        nudge(lengths, pick, grow);
        proof {
            lemma_moved(before, movable_slots(before, grow)[pick as int] as int, grow);
        }
        if grow {
            sum += 1;
        } else {
            sum -= 1;
        }
    }
}

/// Plans `words` slots whose passphrase is exactly `max_length` bytes long.
///
/// The plan is seeded with freely drawn lengths and then fitted to the bytes
/// that digits and separators leave. Which plan comes out is up to chance;
/// that it fits is not.
pub fn generate_nums_with_max_length(
    words: u8,
    max_length: u8,
    numbers: bool,
    separator: &str,
) -> (res: Result<Vec<u32>, FitError>)
    requires
        words >= 1,
    ensures
        res is Ok <==> min_total(words as int, numbers, byte_len(separator@) as int) <= max_length
            <= max_total(words as int, numbers, byte_len(separator@) as int),
        match res {
            Ok(nums) => fits(
                nums@,
                words as int,
                max_length as int,
                numbers,
                byte_len(separator@) as int,
            ),
            Err(FitError::TooShort) => max_length < min_total(
                words as int,
                numbers,
                byte_len(separator@) as int,
            ),
            Err(FitError::TooLong) => max_length > max_total(
                words as int,
                numbers,
                byte_len(separator@) as int,
            ),
            Err(_) => false,
        },
{
    match slot_budget(words, max_length, numbers, separator) {
        Ok(budget) => {
            let mut nums = generate_nums(words);
            fit_to_total(&mut nums, budget);
            Ok(nums)
        },
        Err(e) => Err(e),
    }
}

} // verus!

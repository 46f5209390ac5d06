//! Find the two values of an array that appear once where every other value
//! appears twice, without extra space: the exclusive-or of the whole array is
//! the exclusive-or of the two singletons, its lowest set bit separates them,
//! and folding over each side isolates one singleton.

use vstd::prelude::*;

verus! {

/// The exclusive-or of all elements.
pub open spec fn xor_seq(s: Seq<i32>) -> i32
    decreases s.len(),
{
    if s.len() == 0 {
        0
    } else {
        xor_seq(s.drop_last()) ^ s.last()
    }
}

/// The exclusive-or of the elements that share a bit with `mask`.
pub open spec fn xor_seq_masked(s: Seq<i32>, mask: i32) -> i32
    decreases s.len(),
{
    if s.len() == 0 {
        0
    } else if s.last() & mask != 0 {
        xor_seq_masked(s.drop_last(), mask) ^ s.last()
    } else {
        xor_seq_masked(s.drop_last(), mask)
    }
}

/// The lowest set bit of `x` (zero when `x` is zero).
pub open spec fn low_bit(x: i32) -> i32 {
    x & ((0 - x as int) as i32)
}

/// The two single values: the first is the fold of the group selected by the
/// lowest bit on which the two singletons differ, the second is the other.
pub fn find_single_numbers(nums: Vec<i32>) -> (result: Vec<i32>)
    requires
        xor_seq(nums@) != i32::MIN,
    ensures
        result@.len() == 2,
        result@[0] == xor_seq_masked(nums@, low_bit(xor_seq(nums@))),
        result@[1] == xor_seq(nums@) ^ result@[0],
{
    let mut xor: i32 = 0;
    let mut i: usize = 0;
    while i < nums.len()
        invariant
            i <= nums@.len(),
            xor == xor_seq(nums@.take(i as int)),
        decreases nums@.len() - i,
    {
        proof {
            assert(nums@.take(i + 1).drop_last() =~= nums@.take(i as int));
            assert(nums@.take(i + 1).last() == nums@[i as int]);
        }
        xor = xor ^ nums[i];
        i = i + 1;
    }
    proof {
        assert(nums@.take(i as int) =~= nums@);
    }

    let diff = xor & (-xor);
    let mut x: i32 = 0;
    let mut i: usize = 0;
    while i < nums.len()
        invariant
            i <= nums@.len(),
            diff == low_bit(xor_seq(nums@)),
            xor == xor_seq(nums@),
            x == xor_seq_masked(nums@.take(i as int), diff),
        decreases nums@.len() - i,
    {
        proof {
            assert(nums@.take(i + 1).drop_last() =~= nums@.take(i as int));
            assert(nums@.take(i + 1).last() == nums@[i as int]);
        }
        if nums[i] & diff != 0 {
            x = x ^ nums[i];
        }
        i = i + 1;
    }
    proof {
        assert(nums@.take(i as int) =~= nums@);
    }
    let mut result: Vec<i32> = Vec::new();
    result.push(x);
    result.push(xor ^ x);
    result
}

} // verus!

//! Finding a pair of array entries with a given sum: once as a yes/no
//! question, once returning the indices of such a pair.

use vstd::prelude::*;
use std::collections::HashMap;
use std::collections::HashSet;

verus! {

broadcast use vstd::std_specs::hash::group_hash_axioms;

/// No subtraction `target - nums[i]` leaves the machine range.
pub open spec fn diffs_in_range(nums: Seq<i32>, target: i32) -> bool {
    forall|i: int|
        0 <= i < nums.len() ==> i32::MIN <= target - (#[trigger] nums[i]) <= i32::MAX
}

/// Two distinct entries sum to `target`.
pub open spec fn has_pair_sum(nums: Seq<i32>, target: i32) -> bool {
    exists|a: int, b: int|
        0 <= a < b < nums.len() && (#[trigger] nums[a]) + (#[trigger] nums[b]) == target
}

/// Whether any two distinct entries sum to `target`, walking the array once
/// with a set of the values already seen.
pub fn two_num_sum1(nums: &Vec<i32>, target: i32) -> (found: bool)
    requires
        diffs_in_range(nums@, target),
    ensures
        found == has_pair_sum(nums@, target),
{
    let mut seen: HashSet<i32> = HashSet::new();
    let mut i: usize = 0;
    while i < nums.len()
        invariant
            i <= nums@.len(),
            diffs_in_range(nums@, target),
            forall|x: i32|
                seen@.contains(x) <==> exists|j: int| 0 <= j < i && (#[trigger] nums@[j]) == x,
            !has_pair_sum(nums@.take(i as int), target),
        decreases nums@.len() - i,
    {
        let num = nums[i];
        let diff = target - num;
        if seen.contains(&diff) {
            proof {
                let j = choose|j: int| 0 <= j < i && (#[trigger] nums@[j]) == diff;
                assert(nums@[j] + nums@[i as int] == target);
            }
            return true;
        }
        seen.insert(num);
        proof {
            assert forall|a: int, b: int|
                0 <= a < b < i + 1 implies (#[trigger] nums@[a]) + (#[trigger] nums@[b])
                != target by {
                if b == i {
                    if nums@[a] + nums@[b] == target {
                        assert(seen@.contains(nums@[a]) || nums@[a] == num);
                    }
                } else {
                    assert(nums@.take(i as int)[a] == nums@[a]);
                    assert(nums@.take(i as int)[b] == nums@[b]);
                }
            }
            assert forall|a: int, b: int|
                0 <= a < b < nums@.take(i + 1).len() implies (#[trigger] nums@.take(i + 1)[a])
                + (#[trigger] nums@.take(i + 1)[b]) != target by {
                assert(nums@.take(i + 1)[a] == nums@[a]);
                assert(nums@.take(i + 1)[b] == nums@[b]);
            }
        }
        i = i + 1;
    }
    proof {
        assert(nums@.take(i as int) =~= nums@);
    }
    false
}

/// The indices of two distinct entries that sum to `target` (the empty
/// vector when no such pair exists), found with a map from values to the
/// position they were last seen at.
pub fn two_num_sum2(nums: &Vec<i32>, target: i32) -> (result: Vec<i32>)
    requires
        diffs_in_range(nums@, target),
        nums@.len() <= i32::MAX,
    ensures
        result@.len() == 2 ==> 0 <= result@[0] < result@[1] < nums@.len() && nums@[result@[0] as int]
            + nums@[result@[1] as int] == target,
        result@.len() == 0 ==> !has_pair_sum(nums@, target),
        result@.len() == 0 || result@.len() == 2,
{
    let mut seen: HashMap<i32, i32> = HashMap::new();
    let mut i: usize = 0;
    while i < nums.len()
        invariant
            i <= nums@.len(),
            nums@.len() <= i32::MAX,
            diffs_in_range(nums@, target),
            forall|x: i32|
                #[trigger] seen@.contains_key(x) ==> 0 <= seen@[x] < i && nums@[seen@[x] as int]
                    == x,
            forall|j: int| 0 <= j < i ==> seen@.contains_key(#[trigger] nums@[j]),
            !has_pair_sum(nums@.take(i as int), target),
        decreases nums@.len() - i,
    {
        let num = nums[i];
        let diff = target - num;
        match seen.get(&diff) {
            Some(at) => {
                let mut result: Vec<i32> = Vec::new();
                result.push(*at);
                result.push(i as i32);
                return result;
            },
            None => {},
        }
        seen.insert(num, i as i32);
        proof {
            assert forall|a: int, b: int|
                0 <= a < b < nums@.take(i + 1).len() implies (#[trigger] nums@.take(i + 1)[a])
                + (#[trigger] nums@.take(i + 1)[b]) != target by {
                assert(nums@.take(i + 1)[a] == nums@[a]);
                assert(nums@.take(i + 1)[b] == nums@[b]);
                if b == i {
                    if nums@[a] + nums@[b] == target {
                        assert(seen@.contains_key(nums@[a]));
                    }
                } else {
                    assert(nums@.take(i as int)[a] == nums@[a]);
                    assert(nums@.take(i as int)[b] == nums@[b]);
                }
            }
        }
        i = i + 1;
    }
    proof {
        assert(nums@.take(i as int) =~= nums@);
    }
    Vec::new()
}

} // verus!

//! Alphabetical name scores: the value of an upper-case name is the sum of
//! its letters' positions in the alphabet, and a sorted list of names is
//! scored by multiplying each name's value by its position in the list.

use vstd::prelude::*;
use vstd::string::*;

verus! {

/// The alphabetical value of a name: `A` counts 1, `B` counts 2, and so on.
pub open spec fn name_score_spec(s: Seq<char>) -> int
    decreases s.len(),
{
    if s.len() == 0 {
        0
    } else {
        name_score_spec(s.drop_last()) + (s.last() as u32 - 'A' as u32 + 1)
    }
}

/// Every character is an upper-case ASCII letter.
pub open spec fn is_upper_name(s: Seq<char>) -> bool {
    forall|i: int| 0 <= i < s.len() ==> 'A' <= #[trigger] s[i] <= 'Z'
}

/// The score of a name is at most 26 per letter.
pub proof fn lemma_name_score_bounds(s: Seq<char>)
    requires
        is_upper_name(s),
    ensures
        0 <= name_score_spec(s) <= 26 * s.len(),
    decreases s.len(),
{
    if s.len() > 0 {
        lemma_name_score_bounds(s.drop_last());
    }
}

/// The total of the position-weighted scores of the first `k` names.
pub open spec fn total_score_spec(names: Seq<String>, k: int) -> int
    decreases k,
{
    if k <= 0 {
        0
    } else {
        total_score_spec(names, k - 1) + k * name_score_spec(names[k - 1]@)
    }
}

/// The alphabetical value of one upper-case name.
pub fn name_score(name: &str) -> (score: u32)
    requires
        is_upper_name(name@),
        26 * name@.len() <= u32::MAX,
    ensures
        score == name_score_spec(name@),
{
    broadcast use vstd::string::is_ascii_spec_bytes;

    let bytes = name.as_bytes();
    proof {
        assert(is_ascii(name));
        assert(bytes@ =~= Seq::new(name@.len(), |i: int| name@[i] as u8));
        lemma_name_score_bounds(name@);
    }
    let mut score: u32 = 0;
    let mut i: usize = 0;
    while i < bytes.len()
        invariant
            i <= name@.len(),
            bytes@ == Seq::new(name@.len(), |k: int| name@[k] as u8),
            is_upper_name(name@),
            26 * name@.len() <= u32::MAX,
            score == name_score_spec(name@.take(i as int)),
        decreases name@.len() - i,
    {
        proof {
            assert(name@.take(i + 1).drop_last() =~= name@.take(i as int));
            assert(name@.take(i + 1).last() == name@[i as int]);
            lemma_name_score_bounds(name@.take(i as int));
            assert(name@.take(i as int).len() <= name@.len());
        }
        score = score + (bytes[i] as u32 - 'A' as u32 + 1);
        i = i + 1;
    }
    proof {
        assert(name@.take(i as int) =~= name@);
    }
    score
}

/// The total score of an already sorted list of names: each name's value
/// times its one-based position, summed.
pub fn names_total_score(names: &Vec<String>) -> (total: u32)
    requires
        forall|i: int| 0 <= i < names@.len() ==> is_upper_name((#[trigger] names@[i])@),
        forall|i: int| 0 <= i < names@.len() ==> 26 * (#[trigger] names@[i])@.len() <= u32::MAX,
        total_score_spec(names@, names@.len() as int) <= u32::MAX,
        forall|k: int|
            0 <= k <= names@.len() ==> 0 <= #[trigger] total_score_spec(names@, k)
                <= total_score_spec(names@, names@.len() as int),
    ensures
        total == total_score_spec(names@, names@.len() as int),
{
    let mut total: u32 = 0;
    let mut i: usize = 0;
    while i < names.len()
        invariant
            i <= names@.len(),
            forall|k: int| 0 <= k < names@.len() ==> is_upper_name((#[trigger] names@[k])@),
            forall|k: int|
                0 <= k < names@.len() ==> 26 * (#[trigger] names@[k])@.len() <= u32::MAX,
            total_score_spec(names@, names@.len() as int) <= u32::MAX,
            forall|k: int|
                0 <= k <= names@.len() ==> 0 <= #[trigger] total_score_spec(names@, k)
                    <= total_score_spec(names@, names@.len() as int),
            total == total_score_spec(names@, i as int),
        decreases names@.len() - i,
    {
        let score = name_score(names[i].as_str());
        proof {
            lemma_name_score_bounds(names@[i as int]@);
            assert(total_score_spec(names@, i + 1) == total_score_spec(names@, i as int) + (i + 1)
                * name_score_spec(names@[i as int]@));
            assert((i as int + 1) * (score as int) == total_score_spec(names@, i + 1)
                - total_score_spec(names@, i as int));
            assert(0 <= (i as int + 1) * (score as int) <= u32::MAX);
        }
        let weighted = (i as u64 + 1) * (score as u64);
        total = total + (weighted as u32);
        i = i + 1;
    }
    total
}

} // verus!

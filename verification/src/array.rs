//! Sums over arrays of numbers that a host hands in.

use vstd::prelude::*;

verus! {

/// The sum of all values, as a mathematical integer.
pub open spec fn total(values: Seq<u32>) -> int
    decreases values.len(),
{
    if values.len() == 0 {
        0
    } else {
        total(values.drop_last()) + values.last()
    }
}

/// The sum of the first values is not above the sum of all.
pub proof fn lemma_total_grows(values: Seq<u32>, k: int)
    requires
        0 <= k <= values.len(),
    ensures
        0 <= total(values.take(k)) <= total(values),
    decreases values.len(),
{
    if k == values.len() {
        assert(values.take(k) == values);
        if values.len() > 0 {
            lemma_total_grows(values.drop_last(), k - 1);
            assert(values.drop_last().take(k - 1) == values.drop_last());
        }
    } else {
        lemma_total_grows(values.drop_last(), k);
        assert(values.drop_last().take(k) == values.take(k));
    }
}

/// Adds up the values, if their sum fits in a `u32`.
pub fn add_array(values: &Vec<u32>) -> (r: Option<u32>)
    ensures
        r == if total(values@) <= u32::MAX {
            Some(total(values@) as u32)
        } else {
            None
        },
{
    let mut sum: u32 = 0;
    let mut k: usize = 0;
    proof {
        assert(values@.take(0) == Seq::<u32>::empty());
    }
    while k < values.len()
        invariant
            k <= values.len(),
            sum == total(values@.take(k as int)),
        decreases values.len() - k,
    {
        proof {
            assert(values@.take(k + 1).drop_last() == values@.take(k as int));
            lemma_total_grows(values@, k + 1);
        }
        match sum.checked_add(values[k]) {
            Some(s) => {
                sum = s;
            },
            None => {
                return None;
            },
        }
        k = k + 1;
    }
    proof {
        assert(values@.take(k as int) == values@);
    }
    Some(sum)
}

} // verus!

//! Search insert position in a sorted array.
use vstd::prelude::*;

verus! {

/// Whether `s` is sorted in non-decreasing order.
pub open spec fn sorted(s: Seq<i32>) -> bool {
    forall|i: int, j: int| 0 <= i <= j < s.len() ==> s[i] <= s[j]
}

pub struct Solution;

impl Solution {
    /// The index at which `target` stands in `nums`, or at which it would be
    /// inserted to keep `nums` sorted: the number of elements below `target`.
    pub fn search_insert(nums: Vec<i32>, target: i32) -> (r: i32)
        requires
            nums.len() <= i32::MAX,
        ensures
            0 <= r <= nums.len(),
            r > 0 ==> nums@[r - 1] < target,
            r < nums.len() ==> nums@[r as int] >= target,
            sorted(nums@) ==> forall|i: int| 0 <= i < nums.len() ==> (nums@[i] < target <==> i < r),
    {
        let mut lo: usize = 0;
        let mut hi: usize = nums.len();
        while lo < hi
            invariant
                lo <= hi <= nums.len(),
                lo > 0 ==> nums@[lo - 1] < target,
                hi < nums.len() ==> nums@[hi as int] >= target,
                sorted(nums@) ==> forall|i: int| 0 <= i < lo ==> nums@[i] < target,
                sorted(nums@) ==> forall|i: int| hi <= i < nums.len() ==> nums@[i] >= target,
            decreases hi - lo,
        {
            let width: usize = hi - lo;
            assert(width >> 1 == width / 2) by (bit_vector);
            let mid = lo + (width >> 1);
            if nums[mid] < target {
                lo = mid + 1;
            } else {
                hi = mid;
            }
        }
        lo as i32
    }
}

} // verus!

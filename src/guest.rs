//! Small guest programs that the runtime executes once compiled, in their
//! source form.

use vstd::prelude::*;

verus! {

/// The sum of the first `n` elements of `s`.
pub open spec fn prefix_sum(s: Seq<i32>, n: int) -> int
    decreases n,
{
    if n <= 0 {
        0
    } else {
        prefix_sum(s, n - 1) + s[n - 1]
    }
}

/// Whether every running total of `s` fits in an `i32`.
pub open spec fn sums_fit(s: Seq<i32>) -> bool {
    forall|n: int| 0 <= n <= s.len() ==> i32::MIN <= #[trigger] prefix_sum(s, n) <= i32::MAX
}

/// The sum of the six elements of `arr`.
pub fn sum(arr: &[i32; 6]) -> (r: i32)
    requires
        sums_fit(arr@),
    ensures
        r == prefix_sum(arr@, 6),
{
    let mut total: i32 = 0;
    let mut i: usize = 0;
    while i < 6
        invariant
            i <= 6,
            sums_fit(arr@),
            total == prefix_sum(arr@, i as int),
        decreases 6 - i,
    {
        assert(i32::MIN <= prefix_sum(arr@, i + 1) <= i32::MAX);
        total = total + arr[i];
        i = i + 1;
    }
    total
}

/// The sum of `a` and `b`.
pub fn add(a: i32, b: i32) -> (r: i32)
    requires
        i32::MIN <= a + b <= i32::MAX,
    ensures
        r == a + b,
{
    a + b
}

} // verus!

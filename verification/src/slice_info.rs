use vstd::prelude::*;

use crate::measurable::Measurable;
use crate::widths::index_to_width;
use crate::widths::width_sum;

verus! {

/// Aggregate metadata over a subtree: how many elements it holds (`len`) and
/// the sum of their widths (`width`). Together with componentwise addition
/// this is a commutative monoid whose identity is `{0, 0}`.
#[derive(Clone, Copy, Debug, PartialEq, Eq, Structural)]
pub struct SliceInfo {
    pub len: u64,
    pub width: u64,
}

/// Componentwise addition, truncating; the lemmas below speak about the
/// region where no component overflows.
pub open spec fn spec_plus(a: SliceInfo, b: SliceInfo) -> SliceInfo {
    SliceInfo { len: (a.len + b.len) as u64, width: (a.width + b.width) as u64 }
}

impl SliceInfo {
    /// The monoid identity: no elements, no width.
    pub fn new() -> (r: SliceInfo)
        ensures
            r.len == 0,
            r.width == 0,
    {
        SliceInfo { len: 0, width: 0 }
    }

    /// Componentwise addition.
    pub fn plus(self, other: SliceInfo) -> (r: SliceInfo)
        requires
            self.len + other.len <= u64::MAX,
            self.width + other.width <= u64::MAX,
        ensures
            r.len == self.len + other.len,
            r.width == self.width + other.width,
            r == spec_plus(self, other),
    {
        SliceInfo { len: self.len + other.len, width: self.width + other.width }
    }

    /// Counts a slice: how many elements, and their total width.
    pub fn from_slice<M: Measurable>(s: &[M]) -> (r: SliceInfo)
        requires
            width_sum(s@) <= usize::MAX,
        ensures
            r.len == s@.len(),
            r.width == width_sum(s@),
    {
        let len = s.len();
        let width = index_to_width(s, len);
        proof {
            assert(s@.take(len as int) =~= s@);
        }
        SliceInfo { len: len as u64, width: width as u64 }
    }

    /// Componentwise subtraction, used when replacing a child's contribution.
    /// The caller must make sure that no component underflows.
    pub fn minus(self, other: SliceInfo) -> (r: SliceInfo)
        requires
            other.len <= self.len,
            other.width <= self.width,
        ensures
            r.len == self.len - other.len,
            r.width == self.width - other.width,
    {
        SliceInfo { len: self.len - other.len, width: self.width - other.width }
    }
}

/// The monoid laws for `SliceInfo` under componentwise addition: `{0, 0}` is
/// an identity on both sides, addition is commutative, and it is associative
/// wherever no component overflows.
pub proof fn lemma_info_monoid(a: SliceInfo, b: SliceInfo, c: SliceInfo)
    ensures
        spec_plus(a, SliceInfo { len: 0, width: 0 }) == a,
        spec_plus(SliceInfo { len: 0, width: 0 }, a) == a,
        spec_plus(a, b) == spec_plus(b, a),
        a.len + b.len + c.len <= u64::MAX && a.width + b.width + c.width <= u64::MAX
            ==> spec_plus(spec_plus(a, b), c) == spec_plus(a, spec_plus(b, c)),
{
}

} // verus!

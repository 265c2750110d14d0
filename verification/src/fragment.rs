//! Text fragments: one extracted line of text with its box and font.

use crate::geometry::BBox;
use vstd::prelude::*;

verus! {

/// One line of text as it was extracted from a page. A merged group of lines
/// has the same shape.
#[derive(Debug)]
pub struct Fragment {
    pub text: String,
    pub bbox: BBox,
    pub font_name: String,
    /// In a fixed-point unit that the caller chooses.
    pub font_size: u64,
}

/// Every fragment has a valid box.
pub open spec fn all_valid(x: Seq<Fragment>) -> bool {
    forall|i: int| 0 <= i < x.len() ==> (#[trigger] x[i]).bbox.wf()
}

/// The two fragments are set in the same font at the same size.
pub open spec fn same_font(a: Fragment, b: Fragment) -> bool {
    a.font_size == b.font_size && a.font_name@ == b.font_name@
}

/// Every index of the chain names a fragment.
pub open spec fn in_range(c: Seq<usize>, n: int) -> bool {
    forall|k: int| 0 <= k < c.len() ==> (#[trigger] c[k]) < n
}

impl Fragment {
    /// Whether two fragments are set in the same font at the same size.
    pub fn has_font_of(&self, other: &Fragment) -> (same: bool)
        ensures
            same == same_font(*self, *other),
    {
        self.font_size == other.font_size && self.font_name == other.font_name
    }
}

/// Whether every fragment has a valid box.
pub fn check_valid(x: &[Fragment]) -> (ok: bool)
    ensures
        ok == all_valid(x@),
{
    for i in 0..x.len()
        invariant
            forall|k: int| 0 <= k < i ==> (#[trigger] x@[k]).bbox.wf(),
    {
        if !x[i].bbox.is_valid() {
            return false;
        }
    }
    true
}

} // verus!

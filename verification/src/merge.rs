//! Merging the fragments of a refined chain into one logical unit.

use crate::fragment::{in_range, Fragment};
use crate::geometry::{is_envelope, lemma_envelope_valid, BBox};
use vstd::prelude::*;
use vstd::string::StringExecFns;

verus! {

/// The boxes of the fragments that the chain names, in chain order.
pub open spec fn member_boxes(t: Seq<Fragment>, c: Seq<usize>) -> Seq<BBox> {
    Seq::new(c.len(), |k: int| t[c[k] as int].bbox)
}

/// The texts of the fragments that the chain names, in chain order, with a
/// line feed between each two.
pub open spec fn joined(t: Seq<Fragment>, c: Seq<usize>) -> Seq<char>
    decreases c.len(),
{
    if c.len() == 0 {
        seq![]
    } else if c.len() == 1 {
        t[c[0] as int].text@
    } else {
        joined(t, c.drop_last()) + seq!['\n'] + t[c.last() as int].text@
    }
}

/// `u` is the merge of the fragments that the chain `g` names: their texts
/// joined by line feeds, the envelope of their boxes, and the font of the first.
pub open spec fn is_unit(u: Fragment, t: Seq<Fragment>, g: Seq<usize>) -> bool {
    &&& u.text@ == joined(t, g)
    &&& is_envelope(u.bbox, member_boxes(t, g))
    &&& u.font_name@ == t[g[0] as int].font_name@
    &&& u.font_size == t[g[0] as int].font_size
}

/// The smallest box that holds the boxes of all members of the chain.
pub fn merge_boxes(t: &[Fragment], c: &[usize]) -> (e: BBox)
    requires
        c.len() > 0,
        in_range(c@, t.len() as int),
    ensures
        is_envelope(e, member_boxes(t@, c@)),
        (forall|k: int| 0 <= k < c.len() ==> (#[trigger] member_boxes(t@, c@)[k]).wf()) ==> e.wf(),
{
    let b0 = &t[c[0]].bbox;
    let mut top = b0.top;
    let mut bottom = b0.bottom;
    let mut left = b0.left;
    let mut right = b0.right;
    let ghost bs = member_boxes(t@, c@);
    let ghost mut kt = 0int;
    let ghost mut kb = 0int;
    let ghost mut kl = 0int;
    let ghost mut kr = 0int;
    for i in 1..c.len()
        invariant
            in_range(c@, t.len() as int),
            bs == member_boxes(t@, c@),
            0 <= kt < i && bs[kt].top == top,
            0 <= kb < i && bs[kb].bottom == bottom,
            0 <= kl < i && bs[kl].left == left,
            0 <= kr < i && bs[kr].right == right,
            forall|k: int|
                0 <= k < i ==> top <= (#[trigger] bs[k]).top && left <= bs[k].left && bs[k].bottom
                    <= bottom && bs[k].right <= right,
    {
        let b = &t[c[i]].bbox;
        assert(*b == bs[i as int]);
        if top > b.top {
            top = b.top;
            proof {
                kt = i as int;
            }
        }
        if bottom < b.bottom {
            bottom = b.bottom;
            proof {
                kb = i as int;
            }
        }
        if left > b.left {
            left = b.left;
            proof {
                kl = i as int;
            }
        }
        if right < b.right {
            right = b.right;
            proof {
                kr = i as int;
            }
        }
    }
    let e = BBox { top, left, bottom, right };
    proof {
        if forall|k: int| 0 <= k < c.len() ==> (#[trigger] member_boxes(t@, c@)[k]).wf() {
            lemma_envelope_valid(e, bs);
        }
    }
    e
}

/// Merges the fragments that the chain names into one unit.
pub fn merge_tt(t: &[Fragment], c: &[usize]) -> (u: Fragment)
    requires
        c.len() > 0,
        in_range(c@, t.len() as int),
    ensures
        is_unit(u, t@, c@),
        (forall|k: int| 0 <= k < c.len() ==> (#[trigger] member_boxes(t@, c@)[k]).wf())
            ==> u.bbox.wf(),
{
    let bbox = merge_boxes(t, c);
    let mut text = String::new();
    proof {
        reveal_strlit("\n");
        assert("\n"@ =~= seq!['\n']);
    }
    for i in 0..c.len()
        invariant
            in_range(c@, t.len() as int),
            "\n"@ == seq!['\n'],
            text@ == joined(t@, c@.take(i as int)),
    {
        let ghost before = c@.take(i as int);
        let ghost now = c@.take(i + 1);
        assert(now.drop_last() =~= before);
        assert(now.last() == c@[i as int]);
        if i > 0 {
            text.append("\n");
        }
        text.append(t[c[i]].text.as_str());
        assert(text@ =~= joined(t@, now));
    }
    assert(c@.take(c.len() as int) =~= c@);
    Fragment {
        text,
        bbox,
        font_name: t[c[0]].font_name.clone(),
        font_size: t[c[0]].font_size,
    }
}

} // verus!

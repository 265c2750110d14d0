//! Axis-aligned boxes in page space and the reading-order relation on them.
//!
//! Coordinates are integers in a fixed-point unit that the caller chooses; the
//! vertical axis grows downward.

use std::cmp::Ordering;
use vstd::prelude::*;

verus! {

/// An axis-aligned rectangle. A valid box has `top <= bottom` and `left <= right`.
#[derive(Clone, Copy, Debug, PartialEq, Eq, Structural)]
pub struct BBox {
    pub top: i64,
    pub left: i64,
    pub bottom: i64,
    pub right: i64,
}

/// How one box stands to another in reading order.
#[derive(Clone, Copy, Debug, PartialEq, Eq, Structural)]
pub enum Relation {
    Less,
    Equal,
    Greater,
    Incomparable,
}

/// What to do with two boxes that overlap without a clean order.
#[derive(Clone, Copy, Debug, PartialEq, Eq, Structural)]
pub enum OverlapPolicy {
    TreatAsIncomparable,
    Fail,
}

/// Two boxes overlap in both directions and neither starts and ends above the other.
#[derive(Clone, Copy, Debug, PartialEq, Eq, Structural)]
pub struct AmbiguousOverlap;

impl Relation {
    /// The relation seen from the other box.
    pub open spec fn flip(self) -> Relation {
        match self {
            Relation::Less => Relation::Greater,
            Relation::Equal => Relation::Equal,
            Relation::Greater => Relation::Less,
            Relation::Incomparable => Relation::Incomparable,
        }
    }
}

impl BBox {
    /// The box is not inside out.
    pub open spec fn wf(self) -> bool {
        self.top <= self.bottom && self.left <= self.right
    }

    /// The two boxes share no column: one ends left of where the other starts.
    pub open spec fn columns_apart(self, other: BBox) -> bool {
        self.right < other.left || other.right < self.left
    }

    /// `self` ends above the line on which `other` starts.
    pub open spec fn above(self, other: BBox) -> bool {
        self.bottom < other.top
    }

    /// `self` starts above `other`, reaches into it and ends inside it.
    pub open spec fn staircase(self, other: BBox) -> bool {
        self.top < other.top && other.top < self.bottom && self.bottom < other.bottom
    }

    /// The reading-order relation between two boxes.
    pub open spec fn relation(self, other: BBox) -> Relation {
        if self == other {
            Relation::Equal
        } else if self.columns_apart(other) {
            Relation::Incomparable
        } else if self.above(other) {
            Relation::Less
        } else if other.above(self) {
            Relation::Greater
        } else if self.staircase(other) {
            Relation::Less
        } else if other.staircase(self) {
            Relation::Greater
        } else {
            Relation::Incomparable
        }
    }

    /// `self` comes before `other` in reading order.
    pub open spec fn precedes(self, other: BBox) -> bool {
        self.relation(other) == Relation::Less
    }

    /// The boxes share a column and a line, differ, and have no order.
    pub open spec fn ambiguous(self, other: BBox) -> bool {
        self != other && !self.columns_apart(other) && self.relation(other)
            == Relation::Incomparable
    }

    /// The vertical span of the box.
    pub open spec fn span(self) -> int {
        self.bottom - self.top
    }

    /// The vertical gap from the bottom of `self` to the top of `other`,
    /// zero where `other` does not start below `self`.
    pub open spec fn gap(self, other: BBox) -> int {
        if self.bottom < other.top {
            other.top - self.bottom
        } else {
            0
        }
    }

    /// Whether the box is valid.
    pub fn is_valid(&self) -> (ok: bool)
        ensures
            ok == self.wf(),
    {
        self.top <= self.bottom && self.left <= self.right
    }

    /// Exact equality of all four coordinates.
    pub fn eq(&self, other: &BBox) -> (same: bool)
        ensures
            same == (*self == *other),
    {
        self.top == other.top && self.left == other.left && self.bottom == other.bottom
            && self.right == other.right
    }

    /// Computes the reading-order relation.
    pub fn compare(&self, other: &BBox) -> (r: Relation)
        ensures
            r == self.relation(*other),
    {
        if self.eq(other) {
            return Relation::Equal;
        }
        if self.right < other.left || other.right < self.left {
            return Relation::Incomparable;
        }
        if self.bottom < other.top {
            return Relation::Less;
        }
        if self.top > other.bottom {
            return Relation::Greater;
        }
        if self.top < other.top && other.top < self.bottom && self.bottom < other.bottom {
            return Relation::Less;
        }
        if other.top < self.top && self.top < other.bottom && other.bottom < self.bottom {
            return Relation::Greater;
        }
        Relation::Incomparable
    }

    /// Computes the relation under a policy for ambiguous overlaps: with
    /// `Fail`, such a pair is an error instead of being incomparable.
    pub fn compare_with(&self, other: &BBox, policy: OverlapPolicy) -> (r: Result<
        Relation,
        AmbiguousOverlap,
    >)
        ensures
            r is Err <==> policy == OverlapPolicy::Fail && self.ambiguous(*other),
            r is Ok ==> r->Ok_0 == self.relation(*other),
    {
        let rel = self.compare(other);
        match policy {
            OverlapPolicy::TreatAsIncomparable => Ok(rel),
            OverlapPolicy::Fail => {
                let apart = self.right < other.left || other.right < self.left;
                if rel == Relation::Incomparable && !apart {
                    Err(AmbiguousOverlap)
                } else {
                    Ok(rel)
                }
            },
        }
    }

    /// The relation as a partial comparison: `None` for incomparable boxes.
    pub fn partial_cmp(&self, other: &BBox) -> (r: Option<Ordering>)
        ensures
            r == match self.relation(*other) {
                Relation::Less => Some(Ordering::Less),
                Relation::Equal => Some(Ordering::Equal),
                Relation::Greater => Some(Ordering::Greater),
                Relation::Incomparable => None,
            },
    {
        match self.compare(other) {
            Relation::Less => Some(Ordering::Less),
            Relation::Equal => Some(Ordering::Equal),
            Relation::Greater => Some(Ordering::Greater),
            Relation::Incomparable => None,
        }
    }

    /// Whether `self` comes before `other`.
    pub fn lt(&self, other: &BBox) -> (b: bool)
        ensures
            b == self.precedes(*other),
    {
        self.compare(other) == Relation::Less
    }

    /// The vertical span of the box.
    pub fn extent(&self) -> (e: u64)
        requires
            self.wf(),
        ensures
            e == self.span(),
    {
        (self.bottom as i128 - self.top as i128) as u64
    }

    /// The horizontal span of the box.
    pub fn length(&self) -> (l: u64)
        requires
            self.wf(),
        ensures
            l == self.right - self.left,
    {
        (self.right as i128 - self.left as i128) as u64
    }

    /// The vertical gap from `self` down to `other`.
    pub fn dist(&self, other: &BBox) -> (d: u64)
        ensures
            d == self.gap(*other),
    {
        if self.bottom < other.top {
            (other.top as i128 - self.bottom as i128) as u64
        } else {
            0
        }
    }
}

/// `e` is the smallest box that holds every box of `bs`: each of its sides is
/// the outermost of the corresponding sides.
pub open spec fn is_envelope(e: BBox, bs: Seq<BBox>) -> bool {
    &&& forall|k: int|
        0 <= k < bs.len() ==> e.top <= (#[trigger] bs[k]).top && e.left <= bs[k].left
            && bs[k].bottom <= e.bottom && bs[k].right <= e.right
    &&& exists|k: int| 0 <= k < bs.len() && (#[trigger] bs[k]).top == e.top
    &&& exists|k: int| 0 <= k < bs.len() && (#[trigger] bs[k]).left == e.left
    &&& exists|k: int| 0 <= k < bs.len() && (#[trigger] bs[k]).bottom == e.bottom
    &&& exists|k: int| 0 <= k < bs.len() && (#[trigger] bs[k]).right == e.right
}

/// A sequence of boxes has one envelope only.
pub proof fn lemma_envelope_unique(e1: BBox, e2: BBox, bs: Seq<BBox>)
    requires
        is_envelope(e1, bs),
        is_envelope(e2, bs),
    ensures
        e1 == e2,
{
}

/// The envelope of valid boxes is a valid box.
pub proof fn lemma_envelope_valid(e: BBox, bs: Seq<BBox>)
    requires
        is_envelope(e, bs),
        forall|k: int| 0 <= k < bs.len() ==> (#[trigger] bs[k]).wf(),
    ensures
        e.wf(),
{
    let kt = choose|k: int| 0 <= k < bs.len() && (#[trigger] bs[k]).top == e.top;
    let kl = choose|k: int| 0 <= k < bs.len() && (#[trigger] bs[k]).left == e.left;
    assert(bs[kt].wf());
    assert(bs[kl].wf());
}

/// The relation read from either side agrees: `Less` one way is `Greater` the
/// other way, and equal or incomparable boxes are so both ways.
pub proof fn lemma_relation_symmetric(a: BBox, b: BBox)
    requires
        a.wf(),
        b.wf(),
    ensures
        b.relation(a) == a.relation(b).flip(),
{
}

/// A valid box that precedes another starts strictly above it.
pub proof fn lemma_precedes_descends(a: BBox, b: BBox)
    requires
        a.wf(),
        a.precedes(b),
    ensures
        a.top < b.top,
{
}

/// No valid box precedes itself, and no two valid boxes precede each other.
pub proof fn lemma_precedes_asymmetric(a: BBox, b: BBox)
    requires
        a.wf(),
        b.wf(),
    ensures
        !(a.precedes(b) && b.precedes(a)),
{
}

} // verus!

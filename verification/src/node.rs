//! Nodes of the hierarchy.

use vstd::prelude::*;
use crate::scalar::{Scalar, INFINITE, SIGN, TWO};
use crate::vector::Vec3;

verus! {

/// One node of the hierarchy: an axis-aligned box and a link.
///
/// A leaf has `object_count > 0`, and `left_child` is where its run of
/// `object_count` entries starts in the index array. An inner node has
/// `object_count == 0`, and `left_child` is the index of the first of its two
/// children, which are neighbours in the node array.
#[derive(Debug, Clone, Copy)]
pub struct Node {
    pub min_corner: Vec3,
    pub left_child: i32,
    pub max_corner: Vec3,
    pub object_count: usize,
}

impl Node {
    /// The empty node: its box is inside out, from positive to negative
    /// infinity, so that the first point folded in becomes both corners.
    pub open spec fn empty() -> Node {
        Node {
            min_corner: Vec3(
                Scalar { bits: INFINITE },
                Scalar { bits: INFINITE },
                Scalar { bits: INFINITE },
            ),
            left_child: -1i32,
            max_corner: Vec3(
                Scalar { bits: (SIGN + INFINITE) as u32 },
                Scalar { bits: (SIGN + INFINITE) as u32 },
                Scalar { bits: (SIGN + INFINITE) as u32 },
            ),
            object_count: 0,
        }
    }

    /// Where the run of a leaf begins in the index array.
    pub open spec fn run_start(self) -> int {
        self.left_child as int
    }

    /// Where the run of a leaf ends in the index array.
    pub open spec fn run_end(self) -> int {
        self.left_child + self.object_count
    }

    /// The node with its box grown, if need be, to reach down to `low` and
    /// up to `high` on every axis. A NaN component moves nothing.
    pub open spec fn spec_grow(self, low: Vec3, high: Vec3) -> Node {
        Node {
            min_corner: Vec3(
                self.min_corner.0.spec_min(low.0),
                self.min_corner.1.spec_min(low.1),
                self.min_corner.2.spec_min(low.2),
            ),
            left_child: self.left_child,
            max_corner: Vec3(
                self.max_corner.0.spec_max(high.0),
                self.max_corner.1.spec_max(high.1),
                self.max_corner.2.spec_max(high.2),
            ),
            object_count: self.object_count,
        }
    }

    /// The box of `self` reaches at least as far as that of `inner` on every
    /// axis, both ways. No NaN can stand in either box where this holds.
    pub open spec fn encloses(self, inner: Node) -> bool {
        &&& self.min_corner.0.spec_le(inner.min_corner.0)
        &&& self.min_corner.1.spec_le(inner.min_corner.1)
        &&& self.min_corner.2.spec_le(inner.min_corner.2)
        &&& inner.max_corner.0.spec_le(self.max_corner.0)
        &&& inner.max_corner.1.spec_le(self.max_corner.1)
        &&& inner.max_corner.2.spec_le(self.max_corner.2)
    }

    /// Both boxes end at the same value on the given side of the given axis.
    pub open spec fn touches(self, inner: Node, axis: usize, upper: bool) -> bool {
        if upper {
            self.max_corner.spec_axis(axis).key() == inner.max_corner.spec_axis(axis).key()
        } else {
            self.min_corner.spec_axis(axis).key() == inner.min_corner.spec_axis(axis).key()
        }
    }

    /// How far the box reaches on each axis: the upper corner less the
    /// lower one.
    pub open spec fn extent(self) -> Vec3 {
        self.max_corner.spec_sub(self.min_corner)
    }

    /// The axis on which the box reaches farthest. Where two axes reach
    /// equally far, x goes before y and y before z.
    #[verifier::opaque]
    pub open spec fn widest_axis(self) -> usize {
        let extent = self.extent();
        if extent.0.spec_ge(extent.1) && extent.0.spec_ge(extent.2) {
            0
        } else if extent.1.spec_ge(extent.2) {
            1
        } else {
            2
        }
    }

    /// The middle of the box on an axis: the lower corner plus the extent
    /// divided by two.
    #[verifier::opaque]
    pub open spec fn middle(self, axis: usize) -> Scalar {
        self.min_corner.spec_axis(axis).spec_add(
            self.extent().spec_axis(axis).spec_div(Scalar { bits: TWO }),
        )
    }

    /// No corner component is a NaN.
    pub open spec fn is_ordered(self) -> bool {
        &&& !self.min_corner.0.spec_is_nan()
        &&& !self.min_corner.1.spec_is_nan()
        &&& !self.min_corner.2.spec_is_nan()
        &&& !self.max_corner.0.spec_is_nan()
        &&& !self.max_corner.1.spec_is_nan()
        &&& !self.max_corner.2.spec_is_nan()
    }

    /// The empty node, as every node is before it is put to use.
    pub fn default() -> (r: Node)
        ensures
            r == Node::empty(),
    {
        Node {
            min_corner: Vec3(Scalar::infinity(), Scalar::infinity(), Scalar::infinity()),
            left_child: -1,
            max_corner: Vec3(
                Scalar::neg_infinity(),
                Scalar::neg_infinity(),
                Scalar::neg_infinity(),
            ),
            object_count: 0,
        }
    }

    /// Grows the box to reach down to `low` and up to `high`.
    pub fn grow(&mut self, low: Vec3, high: Vec3)
        ensures
            *final(self) == old(self).spec_grow(low, high),
    {
        self.min_corner = Vec3(
            self.min_corner.0.min(low.0),
            self.min_corner.1.min(low.1),
            self.min_corner.2.min(low.2),
        );
        self.max_corner = Vec3(
            self.max_corner.0.max(high.0),
            self.max_corner.1.max(high.1),
            self.max_corner.2.max(high.2),
        );
    }
}

} // verus!

//! How six quads make a box.
//!
//! A box between two opposite corners is closed by six faces. Each face is a
//! quad: a corner of the box and two edges that leave it along two of the
//! axes. Which corner and which edges is a matter of combination, and this
//! module holds it as such; the lengths belong to the caller.

use vstd::prelude::*;

verus! {

/// One of the two ends of a box along an axis.
#[derive(Clone, Copy, Debug, PartialEq, Eq)]
pub enum End {
    Low,
    High,
}

/// A corner of a box: an end on each axis.
#[derive(Clone, Copy, Debug, PartialEq, Eq)]
pub struct Corner {
    pub x: End,
    pub y: End,
    pub z: End,
}

/// An edge of a box: it runs the whole length of the box along `axis` (0 is
/// x, 1 is y, 2 is z), towards the high end, or towards the low end if
/// `reversed`.
#[derive(Clone, Copy, Debug, PartialEq, Eq)]
pub struct Edge {
    pub axis: u8,
    pub reversed: bool,
}

/// A face of a box: the quad that leaves `corner` along `u` and `v`.
#[derive(Clone, Copy, Debug, PartialEq, Eq)]
pub struct Face {
    pub corner: Corner,
    pub u: Edge,
    pub v: Edge,
}

impl Corner {
    /// The end at which the corner lies on `axis`.
    pub open spec fn end(self, axis: int) -> End {
        if axis == 0 {
            self.x
        } else if axis == 1 {
            self.y
        } else {
            self.z
        }
    }
}

impl Edge {
    /// An edge can be followed from a corner that lies at the end it leaves.
    pub open spec fn leaves(self, corner: Corner) -> bool {
        self.axis <= 2 && (corner.end(self.axis as int) == End::High) == self.reversed
    }

    /// 1 for an edge towards the high end, -1 for one towards the low end.
    pub open spec fn sign(self) -> int {
        if self.reversed {
            -1
        } else {
            1
        }
    }
}

/// The sign of the cross product of the unit vectors of two different axes,
/// along the third: 1 for x and y, y and z, z and x, and -1 the other way round.
pub open spec fn cross_sign(a: int, b: int) -> int {
    if (b - a) % 3 == 1 {
        1
    } else {
        -1
    }
}

impl Face {
    /// The two edges run along different axes and both leave the corner, so
    /// that the quad reaches from the corner to the one across the side.
    pub open spec fn spans_a_side(self) -> bool {
        &&& self.u.leaves(self.corner)
        &&& self.v.leaves(self.corner)
        &&& self.u.axis != self.v.axis
    }

    /// The axis along which neither edge runs: the one the face is square to.
    pub open spec fn normal_axis(self) -> int {
        3 - self.u.axis - self.v.axis
    }

    /// The end of the box that the face closes along its normal axis.
    pub open spec fn side(self) -> End {
        self.corner.end(self.normal_axis())
    }

    /// The sign, along the normal axis, of the cross product of `u` and `v`.
    pub open spec fn normal_sign(self) -> int {
        cross_sign(self.u.axis as int, self.v.axis as int) * self.u.sign() * self.v.sign()
    }

    /// The cross product of `u` and `v` points out of the box.
    pub open spec fn faces_outward(self) -> bool {
        (self.normal_sign() == 1) == (self.side() == End::High)
    }
}

/// The six faces of a box: front, right, back, left, top, bottom.
pub open spec fn layout() -> Seq<Face> {
    seq![
        Face {
            corner: Corner { x: End::Low, y: End::Low, z: End::High },
            u: Edge { axis: 0, reversed: false },
            v: Edge { axis: 1, reversed: false },
        },
        Face {
            corner: Corner { x: End::High, y: End::Low, z: End::High },
            u: Edge { axis: 2, reversed: true },
            v: Edge { axis: 1, reversed: false },
        },
        Face {
            corner: Corner { x: End::High, y: End::Low, z: End::Low },
            u: Edge { axis: 0, reversed: true },
            v: Edge { axis: 1, reversed: false },
        },
        Face {
            corner: Corner { x: End::Low, y: End::Low, z: End::Low },
            u: Edge { axis: 2, reversed: false },
            v: Edge { axis: 1, reversed: false },
        },
        Face {
            corner: Corner { x: End::Low, y: End::High, z: End::High },
            u: Edge { axis: 0, reversed: false },
            v: Edge { axis: 2, reversed: true },
        },
        Face {
            corner: Corner { x: End::Low, y: End::Low, z: End::Low },
            u: Edge { axis: 0, reversed: false },
            v: Edge { axis: 2, reversed: false },
        },
    ]
}

/// Lists the six faces of a box in the order in which they are built: front,
/// right, back, left, top, bottom.
pub fn faces() -> (list: [Face; 6])
    ensures
        list@ == layout(),
{
    let list = [
        Face {
            corner: Corner { x: End::Low, y: End::Low, z: End::High },
            u: Edge { axis: 0, reversed: false },
            v: Edge { axis: 1, reversed: false },
        },
        Face {
            corner: Corner { x: End::High, y: End::Low, z: End::High },
            u: Edge { axis: 2, reversed: true },
            v: Edge { axis: 1, reversed: false },
        },
        Face {
            corner: Corner { x: End::High, y: End::Low, z: End::Low },
            u: Edge { axis: 0, reversed: true },
            v: Edge { axis: 1, reversed: false },
        },
        Face {
            corner: Corner { x: End::Low, y: End::Low, z: End::Low },
            u: Edge { axis: 2, reversed: false },
            v: Edge { axis: 1, reversed: false },
        },
        Face {
            corner: Corner { x: End::Low, y: End::High, z: End::High },
            u: Edge { axis: 0, reversed: false },
            v: Edge { axis: 2, reversed: true },
        },
        Face {
            corner: Corner { x: End::Low, y: End::Low, z: End::Low },
            u: Edge { axis: 0, reversed: false },
            v: Edge { axis: 2, reversed: false },
        },
    ];
    assert(list@ =~= layout());
    list
}

/// One of the six faces closes the box at `end` along `axis`.
pub open spec fn closed_at(axis: int, end: End) -> bool {
    exists|n: int|
        0 <= n < 6 && (#[trigger] layout()[n]).normal_axis() == axis && layout()[n].side() == end
}

/// The six faces close the box: each spans a side and turns its normal
/// outward, and each of the six sides is closed by one face and no other.
pub proof fn lemma_faces_close_the_box()
    ensures
        layout().len() == 6,
        forall|n: int|
            0 <= n < 6 ==> (#[trigger] layout()[n]).spans_a_side() && layout()[n].faces_outward(),
        forall|axis: int, end: End| 0 <= axis <= 2 ==> #[trigger] closed_at(axis, end),
        forall|n: int, m: int|
            0 <= n < 6 && 0 <= m < 6 && (#[trigger] layout()[n]).normal_axis() == (
            #[trigger] layout()[m]).normal_axis() && layout()[n].side() == layout()[m].side() ==> n
                == m,
{
    let l = layout();
    assert(l[0].spans_a_side() && l[0].faces_outward());
    assert(l[1].spans_a_side() && l[1].faces_outward());
    assert(l[2].spans_a_side() && l[2].faces_outward());
    assert(l[3].spans_a_side() && l[3].faces_outward());
    assert(l[4].spans_a_side() && l[4].faces_outward());
    assert(l[5].spans_a_side() && l[5].faces_outward());
    assert(l[0].normal_axis() == 2 && l[0].side() == End::High);
    assert(l[1].normal_axis() == 0 && l[1].side() == End::High);
    assert(l[2].normal_axis() == 2 && l[2].side() == End::Low);
    assert(l[3].normal_axis() == 0 && l[3].side() == End::Low);
    assert(l[4].normal_axis() == 1 && l[4].side() == End::High);
    assert(l[5].normal_axis() == 1 && l[5].side() == End::Low);
    assert forall|axis: int, end: End| 0 <= axis <= 2 implies #[trigger] closed_at(axis, end) by {
        let n: int = if axis == 2 {
            if end == End::High {
                0
            } else {
                2
            }
        } else if axis == 0 {
            if end == End::High {
                1
            } else {
                3
            }
        } else {
            if end == End::High {
                4
            } else {
                5
            }
        };
        assert(layout()[n].normal_axis() == axis && layout()[n].side() == end);
    }
}

} // verus!

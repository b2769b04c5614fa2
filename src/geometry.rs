use vstd::prelude::*;

verus! {

/// The largest coordinate magnitude that the field holds, in thousandths of
/// a unit; positions and extents stay within it so that their sums fit.
pub const COORD_LIMIT: i64 = 1_000_000_000_000;

/// A point of the field, in thousandths of a world unit.
#[derive(Clone, Copy, Debug, PartialEq, Eq, Structural)]
pub struct Position {
    pub x: i64,
    pub y: i64,
}

/// Half the width and half the height of an axis-aligned box, in thousandths
/// of a world unit.
#[derive(Clone, Copy, Debug, PartialEq, Eq, Structural)]
pub struct HalfExtents {
    pub w: i64,
    pub h: i64,
}

pub open spec fn abs(v: int) -> int {
    if v < 0 { -v } else { v }
}

impl Position {
    pub open spec fn in_field(self) -> bool {
        -COORD_LIMIT <= self.x <= COORD_LIMIT && -COORD_LIMIT <= self.y <= COORD_LIMIT
    }
}

impl HalfExtents {
    pub open spec fn wf(self) -> bool {
        0 <= self.w <= COORD_LIMIT && 0 <= self.h <= COORD_LIMIT
    }
}

/// Two boxes centred at `pa` and `pb` overlap when their centres are closer
/// than the sum of their half-extents on both axes; boxes that only touch do
/// not overlap.
pub open spec fn overlap_spec(pa: Position, ha: HalfExtents, pb: Position, hb: HalfExtents) -> bool {
    &&& abs(pa.x - pb.x) < ha.w + hb.w
    &&& abs(pa.y - pb.y) < ha.h + hb.h
}

/// Whether the box at `pa` with half-extents `ha` overlaps the box at `pb`
/// with half-extents `hb`.
pub fn overlaps(pa: Position, ha: HalfExtents, pb: Position, hb: HalfExtents) -> (r: bool)
    requires
        pa.in_field(),
        pb.in_field(),
        ha.wf(),
        hb.wf(),
    ensures
        r == overlap_spec(pa, ha, pb, hb),
{
    let dx: i64 = if pa.x >= pb.x { pa.x - pb.x } else { pb.x - pa.x };
    let dy: i64 = if pa.y >= pb.y { pa.y - pb.y } else { pb.y - pa.y };
    dx < ha.w + hb.w && dy < ha.h + hb.h
}

/// Boxes that touch exactly along a vertical edge do not overlap.
pub proof fn lemma_edge_touch_is_no_overlap(pa: Position, ha: HalfExtents, pb: Position, hb: HalfExtents)
    requires
        abs(pa.x - pb.x) == ha.w + hb.w,
    ensures
        !overlap_spec(pa, ha, pb, hb),
{
}

/// Boxes that touch exactly along a horizontal edge do not overlap.
pub proof fn lemma_edge_touch_vertical_is_no_overlap(
    pa: Position,
    ha: HalfExtents,
    pb: Position,
    hb: HalfExtents,
)
    requires
        abs(pa.y - pb.y) == ha.h + hb.h,
    ensures
        !overlap_spec(pa, ha, pb, hb),
{
}

/// Overlap does not depend on which of the two boxes comes first.
pub proof fn lemma_overlap_symmetric(pa: Position, ha: HalfExtents, pb: Position, hb: HalfExtents)
    ensures
        overlap_spec(pa, ha, pb, hb) == overlap_spec(pb, hb, pa, ha),
{
}

} // verus!

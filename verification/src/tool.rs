//! Small value types shared by the tools: the active tool, shape kinds and
//! the classification of a simplified closed outline.
use vstd::prelude::*;

verus! {

/// The drawing tool the board is in.
#[derive(Debug, Clone, Copy, PartialEq, Eq, Structural)]
pub enum Tool {
    Pen,
    Eraser,
    Select,
}

/// The geometric primitives a freehand stroke can snap to.
#[derive(Debug, Clone, Copy, PartialEq, Eq, Structural)]
pub enum ShapeKind {
    Circle,
    Line,
    Rectangle,
    Triangle,
}

/// The smallest number of raw points a stroke needs before shape snapping
/// is attempted at all.
pub const MIN_POINTS_FOR_SNAP: usize = 10;

/// What a closed outline with `vertex_count` simplified vertices (the
/// closing point counted once more) is taken to be.
pub open spec fn closed_outline_kind(vertex_count: nat) -> ShapeKind {
    if vertex_count == 5 {
        ShapeKind::Rectangle
    } else if vertex_count == 4 {
        ShapeKind::Triangle
    } else {
        ShapeKind::Circle
    }
}

/// Classifies a closed outline by the number of vertices left after
/// simplification: four corners and the closing point make a rectangle,
/// three corners and the closing point a triangle, anything else a circle.
pub fn classify_closed_outline(vertex_count: usize) -> (kind: ShapeKind)
    ensures
        kind == closed_outline_kind(vertex_count as nat),
{
    if vertex_count == 5 {
        ShapeKind::Rectangle
    } else if vertex_count == 4 {
        ShapeKind::Triangle
    } else {
        ShapeKind::Circle
    }
}

/// Whether a stroke with `point_count` raw points is long enough for
/// shape snapping to be tried.
pub fn enough_points_for_snap(point_count: usize) -> (ok: bool)
    ensures
        ok == (point_count >= MIN_POINTS_FOR_SNAP),
{
    point_count >= MIN_POINTS_FOR_SNAP
}


/// Over every vertex count: five (four corners and the closing point) make
/// a rectangle, four (three corners and the closing point) a triangle, and
/// every other count a circle.
pub proof fn lemma_outline_classes(vertex_count: nat)
    ensures
        vertex_count == 5 ==> closed_outline_kind(vertex_count) == ShapeKind::Rectangle,
        vertex_count == 4 ==> closed_outline_kind(vertex_count) == ShapeKind::Triangle,
        vertex_count != 4 && vertex_count != 5 ==> closed_outline_kind(vertex_count) == ShapeKind::Circle,
        closed_outline_kind(vertex_count) != ShapeKind::Line,
{
}

} // verus!

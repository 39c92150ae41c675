use hwboard::tool::{classify_closed_outline, enough_points_for_snap, ShapeKind, Tool};

#[test]
fn outline_vertex_counts_classify() {
    assert_eq!(classify_closed_outline(5), ShapeKind::Rectangle);
    assert_eq!(classify_closed_outline(4), ShapeKind::Triangle);
    assert_eq!(classify_closed_outline(3), ShapeKind::Circle);
    assert_eq!(classify_closed_outline(6), ShapeKind::Circle);
    assert_eq!(classify_closed_outline(0), ShapeKind::Circle);
}

#[test]
fn snapping_needs_ten_points() {
    assert!(!enough_points_for_snap(9));
    assert!(enough_points_for_snap(10));
}

#[test]
fn tools_compare() {
    assert_ne!(Tool::Pen, Tool::Select);
    assert_eq!(Tool::Eraser, Tool::Eraser);
}

use hwboard::mesh::IncrementalStrokeMesh;

#[test]
fn ribbon_joins_pairs_with_two_triangles() {
    let mut m: IncrementalStrokeMesh<u32, ()> = IncrementalStrokeMesh::new(());
    m.push_pair(0, 1);
    assert!(m.indices().is_empty());
    m.push_pair(2, 3);
    assert_eq!(m.indices(), &vec![0, 1, 2, 1, 3, 2]);
    m.push_pair(4, 5);
    assert_eq!(m.indices().len(), 12);
    assert_eq!(&m.indices()[6..], &[2, 3, 4, 3, 5, 4]);
    assert_eq!(m.vertices(), &vec![0, 1, 2, 3, 4, 5]);
}

#[test]
fn round_cap_is_a_fan() {
    let mut m: IncrementalStrokeMesh<u32, &str> = IncrementalStrokeMesh::new("o");
    let arc: Vec<u32> = (1..=13).collect();
    m.push_fan(0, arc);
    assert_eq!(m.vertices().len(), 14);
    assert_eq!(m.indices().len(), 36);
    assert_eq!(&m.indices()[..3], &[0, 1, 2]);
    assert_eq!(&m.indices()[33..], &[0, 12, 13]);
    assert_eq!(*m.origin(), "o");
}

#[test]
fn cap_then_ribbon_then_cap() {
    let mut m: IncrementalStrokeMesh<u32, ()> = IncrementalStrokeMesh::new(());
    m.push_fan(100, vec![101, 102, 103]);
    m.push_pair(10, 11);
    m.push_pair(12, 13);
    m.push_fan(200, vec![201, 202]);
    let mesh = m.finish();
    assert_eq!(mesh.vertices.len(), 4 + 4 + 3);
    assert_eq!(mesh.indices, vec![0, 1, 2, 0, 2, 3, 4, 5, 6, 5, 7, 6, 8, 9, 10]);
    assert!(mesh.indices.iter().all(|&i| (i as usize) < mesh.vertices.len()));
}

use hwboard::mesh::assemble_stroke_mesh;

#[test]
fn assembled_open_stroke_has_caps_at_both_ends() {
    let pairs = vec![(10u32, 11u32), (12, 13), (14, 15)];
    let caps = Some(((100u32, vec![101, 102]), (200u32, vec![201, 202, 203])));
    let m = assemble_stroke_mesh("o", pairs, caps);
    assert_eq!(m.vertices, vec![100, 101, 102, 10, 11, 12, 13, 14, 15, 200, 201, 202, 203]);
    assert_eq!(
        m.indices,
        vec![0, 1, 2, 3, 4, 5, 4, 6, 5, 5, 6, 7, 6, 8, 7, 9, 10, 11, 9, 11, 12]
    );
}

#[test]
fn assembled_closed_stroke_is_a_plain_ribbon() {
    let m = assemble_stroke_mesh((), vec![(0u32, 1u32), (2, 3)], None);
    assert_eq!(m.indices, vec![0, 1, 2, 1, 3, 2]);
    let empty = assemble_stroke_mesh((), Vec::<(u32, u32)>::new(), Some(((0u32, vec![1u32]), (2u32, vec![3u32]))));
    assert!(empty.vertices.is_empty() && empty.indices.is_empty());
}

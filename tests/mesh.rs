use molview::instance::{instance_layout, sphere_transform, CapacityError, InstanceLayout};
use molview::number::Decimal;
use molview::parser::Position;
use molview::shape::Ratio;
use molview::mesh::{
    create_mesh_buffers, cylinder_indices, generate_cylinder_mesh, generate_sphere_mesh,
    grid_vertices, merge_meshes, sphere_indices, GridPoint, IndexRange,
};

fn point(p: GridPoint) -> GridPoint {
    p
}

#[test]
fn one_stack_three_sectors_has_eight_vertices() {
    let (vertices, indices) = generate_sphere_mesh(1, 3, &point);
    assert_eq!(vertices.len(), 8);
    assert!(indices.iter().all(|&i| (i as usize) < vertices.len()));
    let buffers = create_mesh_buffers(1, 3, &point, &point);
    assert_eq!(buffers.sphere_index_range.start, 0);
    assert!(buffers.indices.iter().all(|&i| (i as usize) < buffers.vertices.len()));
    assert_eq!(buffers.vertices.len(), 8 + 8);
}

#[test]
fn sphere_index_list_drops_pole_triangles() {
    assert_eq!(
        sphere_indices(2, 3),
        vec![1, 4, 5, 2, 5, 6, 3, 6, 7, 4, 8, 5, 5, 9, 6, 6, 10, 7]
    );
    assert!(sphere_indices(1, 3).is_empty());
    let middle = sphere_indices(3, 1);
    assert_eq!(middle, vec![1, 2, 3, 2, 4, 3, 3, 4, 5, 4, 6, 5]);
}

#[test]
fn every_sphere_index_names_a_vertex() {
    for stacks in 1..6 {
        for sectors in 1..7 {
            let (vertices, indices) = generate_sphere_mesh(stacks, sectors, &point);
            assert_eq!(vertices.len(), (stacks + 1) * (sectors + 1));
            assert!(indices.iter().all(|&i| (i as usize) < vertices.len()));
        }
    }
}

#[test]
fn cylinder_index_list_joins_the_two_rings() {
    assert_eq!(
        cylinder_indices(2),
        vec![0, 1, 3, 3, 1, 4, 1, 2, 4, 4, 2, 5]
    );
    let (vertices, indices) = generate_cylinder_mesh(2, &point);
    assert_eq!(vertices.len(), 6);
    assert_eq!(indices.len(), 12);
}

#[test]
fn grid_points_are_row_major() {
    let v = grid_vertices(2, 2, &point);
    let expected: Vec<GridPoint> = (0..2)
        .flat_map(|ring| (0..3).map(move |sector| GridPoint { ring, sector }))
        .collect();
    assert_eq!(v, expected);
}

#[test]
fn merge_offsets_the_second_mesh() {
    let merged = merge_meshes(vec!['a', 'b', 'c'], vec![0, 1, 2], vec!['d', 'e'], vec![1, 0, 1]);
    assert_eq!(merged.vertices, vec!['a', 'b', 'c', 'd', 'e']);
    assert_eq!(merged.indices, vec![0, 1, 2, 4, 3, 4]);
    assert_eq!(merged.sphere_index_range, IndexRange { start: 0, end: 3 });
    assert_eq!(merged.cylinder_index_range, IndexRange { start: 3, end: 6 });
}

#[test]
fn shared_buffer_layout() {
    let b = create_mesh_buffers(2, 3, &point, &point);
    assert_eq!(b.vertices.len(), 12 + 8);
    assert_eq!(b.vertices[5], GridPoint { ring: 1, sector: 1 });
    assert_eq!(b.vertices[12], GridPoint { ring: 0, sector: 0 });
    assert_eq!(b.vertices[19], GridPoint { ring: 1, sector: 3 });
    assert_eq!(b.sphere_index_range, IndexRange { start: 0, end: 18 });
    assert_eq!(b.cylinder_index_range, IndexRange { start: 18, end: 36 });
    assert_eq!(&b.indices[18..24], &[12, 13, 16, 16, 13, 17]);
    assert!(b.indices.iter().all(|&i| (i as usize) < b.vertices.len()));
}

#[test]
fn offset_cylinder_indices_stay_in_range() {
    let (v1, i1) = generate_sphere_mesh(4, 5, &point);
    let (v2, i2) = generate_cylinder_mesh(5, &point);
    let n1 = v1.len();
    let n2 = v2.len();
    let merged = merge_meshes(v1, i1, v2, i2);
    assert!(merged.indices.iter().all(|&i| (i as usize) < n1 + n2));
}

#[test]
fn instances_fit() {
    assert_eq!(
        instance_layout(3, 2, 5),
        Ok(InstanceLayout {
            sphere_instances: IndexRange { start: 0, end: 3 },
            cylinder_instances: IndexRange { start: 3, end: 5 },
        })
    );
    assert_eq!(
        instance_layout(0, 0, 0),
        Ok(InstanceLayout {
            sphere_instances: IndexRange { start: 0, end: 0 },
            cylinder_instances: IndexRange { start: 0, end: 0 },
        })
    );
}

#[test]
fn instances_over_capacity() {
    assert_eq!(
        instance_layout(4, 2, 5),
        Err(CapacityError {
            spheres: 4,
            cylinders: 2,
            capacity: 5
        })
    );
    assert_eq!(
        instance_layout(usize::MAX, 2, 5),
        Err(CapacityError {
            spheres: usize::MAX,
            cylinders: 2,
            capacity: 5
        })
    );
}

#[test]
fn sphere_transform_is_a_uniform_scale() {
    let origin = Position {
        x: Decimal::new(15, 1),
        y: Decimal::new(-2, 0),
        z: Decimal::new(0, 4),
    };
    let r = Ratio { num: 32, den: 75 };
    let t = sphere_transform(origin, r);
    assert_eq!(t.translation, origin);
    let zero = Ratio { num: 0, den: 1 };
    assert_eq!(t.linear, [[r, zero, zero], [zero, r, zero], [zero, zero, r]]);
}

#[test]
fn sphere_index_count_per_stack_count() {
    assert_eq!(sphere_indices(3, 4).len(), 6 * 4 * 2);
    assert_eq!(sphere_indices(2, 5).len(), 6 * 5);
    assert_eq!(sphere_indices(1, 5).len(), 0);
    assert_eq!(sphere_indices(0, 5).len(), 0);
    let b = create_mesh_buffers(3, 4, &point, &point);
    assert_eq!(b.sphere_index_range, IndexRange { start: 0, end: 48 });
    assert_eq!(b.cylinder_index_range, IndexRange { start: 48, end: 72 });
    assert!(b.indices[48..].iter().all(|&i| i >= 20 && (i as usize) < b.vertices.len()));
}

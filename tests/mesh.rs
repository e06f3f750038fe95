use segment_walls::{
    generate_collider, Aperture, Point, Point3, Segment, SegmentConnections, SegmentNetwork, Triangulator,
    WallMesh,
};

fn p(x: i64, y: i64) -> Point {
    Point::new(x, y)
}

fn seg(ax: i64, ay: i64, bx: i64, by: i64) -> Segment {
    Segment::new(p(ax, ay), p(bx, by))
}

fn generate(segment: Segment, connections: &SegmentConnections, apertures: &Vec<Aperture>) -> WallMesh {
    let mut mesh = WallMesh::new();
    let mut triangulator = Triangulator::new();
    mesh.generate(segment, connections, apertures, &mut triangulator);
    mesh
}

fn assert_consistent(mesh: &WallMesh) {
    assert_eq!(mesh.positions.len(), mesh.uvs.len());
    assert_eq!(mesh.positions.len(), mesh.normals.len());
    assert_eq!(mesh.indices.len() % 3, 0);
    assert!(mesh.indices.iter().all(|&i| (i as usize) < mesh.positions.len()));
}

fn sub(a: Point3, b: Point3) -> [i128; 3] {
    [(a.x - b.x) as i128, (a.y - b.y) as i128, (a.z - b.z) as i128]
}

/// Every triangle faces where the normal of its first corner points
/// (counter-clockwise front faces).
fn assert_outward(mesh: &WallMesh) {
    for t in mesh.indices.chunks(3) {
        let a = mesh.positions[t[0] as usize];
        let u = sub(mesh.positions[t[1] as usize], a);
        let v = sub(mesh.positions[t[2] as usize], a);
        let face = [u[1] * v[2] - u[2] * v[1], u[2] * v[0] - u[0] * v[2], u[0] * v[1] - u[1] * v[0]];
        let n = mesh.normals[t[0] as usize];
        let d = face[0] * n.x as i128 + face[1] * n.y as i128 + face[2] * n.z as i128;
        assert!(d > 0, "triangle {:?} faces away from its normal", t);
    }
}

#[test]
fn triangulates_convex_quad() {
    let mut t = Triangulator::new();
    let quad = vec![(0, 0), (1000, 0), (1000, 1000), (0, 1000)];
    let indices = t.triangulate(&quad, false).clone();
    assert_eq!(indices.len(), 6);
    for corner in 0..4u32 {
        assert!(indices.contains(&corner));
    }
    let inverted = t.triangulate(&quad, true).clone();
    for (a, b) in indices.chunks(3).zip(inverted.chunks(3)) {
        assert_eq!([a[2], a[1], a[0]], [b[0], b[1], b[2]]);
    }
}

#[test]
fn triangulates_with_hole() {
    let mut t = Triangulator::new();
    let points = vec![(0, 0), (1000, 0), (1000, 1000), (0, 1000), (400, 400), (600, 400), (600, 600), (400, 600)];
    t.add_hole(4);
    let indices = t.triangulate(&points, false).clone();
    assert_eq!(indices.len(), 24);
    assert!(t.hole_indices.is_empty());
}

#[test]
fn free_standing_wall() {
    let mesh = generate(seg(0, 0, 10000, 0), &SegmentConnections::new(), &Vec::new());
    assert_consistent(&mesh);
    // Top, two sides, front and back caps.
    assert_eq!(mesh.positions.len(), 4 + 4 + 4 + 8);
    assert_eq!(mesh.indices.len(), 6 + 6 + 6 + 12);
    assert_eq!(&mesh.indices[0..6], &[0, 3, 1, 1, 3, 2]);
    assert_eq!(mesh.positions[0], Point3 { x: 0, y: 2800, z: 75 });
    assert_eq!(mesh.positions[1], Point3 { x: 0, y: 2800, z: -75 });
    assert_eq!(mesh.positions[2], Point3 { x: 10000, y: 2800, z: -75 });
    assert_eq!(mesh.positions[3], Point3 { x: 10000, y: 2800, z: 75 });
    assert_eq!(mesh.uvs[2], segment_walls::Uv { u: 10000, v: -75 });
    assert_eq!(mesh.normals[4], Point3 { x: 0, y: 0, z: -75 });
    assert_eq!(mesh.normals[8], Point3 { x: 0, y: 0, z: 75 });
    assert_eq!(mesh.normals[12], Point3 { x: -10000, y: 0, z: 0 });
    assert_eq!(mesh.normals[16], Point3 { x: 10000, y: 0, z: 0 });
    assert_outward(&mesh);
}

#[test]
fn zero_length_wall_is_empty() {
    let mesh = generate(seg(5, 5, 5, 5), &SegmentConnections::new(), &Vec::new());
    assert!(mesh.positions.is_empty() && mesh.uvs.is_empty() && mesh.normals.is_empty() && mesh.indices.is_empty());
}

#[test]
fn corner_with_one_neighbour() {
    let mut net = SegmentNetwork::new();
    let a = net.insert(seg(0, 0, 10000, 0), true, 1);
    net.insert(seg(10000, 0, 10000, 10000), true, 1);
    net.update();
    let mesh = generate(net.segment(a), net.connections(a), &Vec::new());
    assert_consistent(&mesh);
    // Only the free start gets a cap.
    assert_eq!(mesh.positions.len(), 4 + 8 + 4);
    assert_eq!(mesh.indices.len(), 6 + 12 + 6);
    // The outer corner at the end reaches the neighbour's outer edge.
    assert_eq!(mesh.positions[2], Point3 { x: 10075, y: 2800, z: -75 });
    assert_eq!(mesh.positions[3], Point3 { x: 9925, y: 2800, z: 75 });
    assert_outward(&mesh);
}

#[test]
fn junction_of_three_walls() {
    let mut net = SegmentNetwork::new();
    let a = net.insert(seg(0, 0, 10000, 0), true, 1);
    net.insert(seg(10000, 0, 10000, 10000), true, 1);
    net.insert(seg(10000, 0, 20000, 0), true, 1);
    net.update();
    let mesh = generate(net.segment(a), net.connections(a), &Vec::new());
    assert_consistent(&mesh);
    // A start cap, and one fan triangle at the junction.
    assert_eq!(mesh.positions.len(), 4 + 8 + 4 + 1);
    assert_eq!(mesh.indices.len(), 6 + 12 + 6 + 3);
    assert_eq!(&mesh.indices[24..27], &[3, 16, 2]);
    assert_eq!(mesh.positions[16], Point3 { x: 10000, y: 2800, z: 0 });
}

#[test]
fn generate_is_idempotent() {
    let mut net = SegmentNetwork::new();
    let a = net.insert(seg(0, 0, 7000, 3000), true, 1);
    net.insert(seg(7000, 3000, 9000, -2000), true, 1);
    net.insert(seg(0, 0, -3000, 500), true, 1);
    net.insert(seg(0, 0, 100, 4000), true, 1);
    net.update();
    let door = door(3000);
    let mut mesh = WallMesh::new();
    let mut triangulator = Triangulator::new();
    mesh.generate(net.segment(a), net.connections(a), &door, &mut triangulator);
    let first = mesh.clone();
    mesh.generate(net.segment(a), net.connections(a), &door, &mut triangulator);
    assert_eq!(first.positions, mesh.positions);
    assert_eq!(first.uvs, mesh.uvs);
    assert_eq!(first.normals, mesh.normals);
    assert_eq!(first.indices, mesh.indices);
    assert_consistent(&mesh);
}

fn door(at: i64) -> Vec<Aperture> {
    vec![Aperture {
        cutout: vec![p(-500, 0), p(-500, 2000), p(500, 2000), p(500, 0)],
        translation: Point3 { x: at, y: 0, z: 0 },
        hole: false,
        placing_object: false,
    }]
}

#[test]
fn wall_with_door() {
    let mesh = generate(seg(0, 0, 10000, 0), &SegmentConnections::new(), &door(5000));
    assert_consistent(&mesh);
    assert_eq!(mesh.positions.len(), 4 + 8 + 8 + 8);
    // Each side is an eight-cornered outline: six triangles.
    assert_eq!(mesh.indices.len(), 6 + 18 + 18 + 12);
    assert_eq!(mesh.positions[5], Point3 { x: 4500, y: 0, z: -75 });
    assert_eq!(mesh.positions[6], Point3 { x: 4500, y: 2000, z: -75 });
    assert_eq!(mesh.uvs[6], segment_walls::Uv { u: 4500, v: -75 + 2000 });
    assert_outward(&mesh);
}

#[test]
fn wall_with_window() {
    let window = vec![Aperture {
        cutout: vec![p(-500, 1000), p(500, 1000), p(500, 2000), p(-500, 2000)],
        translation: Point3 { x: 5000, y: 0, z: 0 },
        hole: true,
        placing_object: false,
    }];
    let mesh = generate(seg(0, 0, 10000, 0), &SegmentConnections::new(), &window);
    assert_consistent(&mesh);
    assert_eq!(mesh.positions.len(), 4 + 8 + 8 + 8);
    // A rectangle with a rectangular hole: eight triangles per side.
    assert_eq!(mesh.indices.len(), 6 + 24 + 24 + 12);
    assert_outward(&mesh);
}

#[test]
fn collider_split_by_opening() {
    let wall = seg(0, 0, 10000, 0);
    let opening = vec![Aperture {
        cutout: vec![p(-1000, 0), p(-1000, 2000), p(1000, 2000), p(1000, 0)],
        translation: Point3 { x: 4000, y: 0, z: 0 },
        hole: false,
        placing_object: false,
    }];
    let collider = generate_collider(wall, &opening);
    assert_eq!(collider.vertices.len(), 16);
    assert_eq!(collider.triangles.len(), 20);
    // The first cuboid runs from 0 to 3000, the second from 5000 to 10000.
    assert_eq!(collider.vertices[0], Point3 { x: 0, y: 0, z: 75 });
    assert_eq!(collider.vertices[2], Point3 { x: 3000, y: 0, z: -75 });
    assert_eq!(collider.vertices[8], Point3 { x: 5000, y: 0, z: 75 });
    assert_eq!(collider.vertices[10], Point3 { x: 10000, y: 0, z: -75 });
    assert_eq!(collider.vertices[15], Point3 { x: 10000, y: 2800, z: 75 });
    assert_eq!(collider.triangles[0], (5, 4, 6));
    assert_eq!(collider.triangles[10], (13, 12, 14));
}

#[test]
fn collider_ignores_holes_and_previews() {
    let wall = seg(0, 0, 10000, 0);
    let openings = vec![
        Aperture {
            cutout: vec![p(-500, 1000), p(500, 1000), p(500, 2000)],
            translation: Point3 { x: 3000, y: 0, z: 0 },
            hole: true,
            placing_object: false,
        },
        Aperture {
            cutout: vec![p(-500, 0), p(500, 0)],
            translation: Point3 { x: 6000, y: 0, z: 0 },
            hole: false,
            placing_object: true,
        },
    ];
    let collider = generate_collider(wall, &openings);
    assert_eq!(collider.vertices.len(), 8);
    assert_eq!(collider.triangles.len(), 10);
    assert!(generate_collider(seg(1, 1, 1, 1), &openings).vertices.is_empty());
}

#[test]
fn reconciliation_pass_refreshes_neighbours() {
    let mut net = SegmentNetwork::new();
    let a = net.insert(seg(0, 0, 10000, 0), true, 1);
    let b = net.insert(seg(10000, 0, 10000, 10000), true, 1);
    let mut meshes = vec![WallMesh::new(), WallMesh::new()];
    let apertures: Vec<Vec<Aperture>> = vec![Vec::new(), Vec::new()];
    let mut triangulator = Triangulator::new();
    let touched = net.update_meshes(&mut meshes, &apertures, &mut triangulator);
    assert!(touched.contains(&a) && touched.contains(&b));
    assert_eq!(meshes[a].positions.len(), 16);
    assert_eq!(meshes[b].positions.len(), 16);

    // Moving `b` away frees the end of `a`, whose mesh is rebuilt too.
    net.set_segment(b, seg(50000, 0, 50000, 10000));
    let touched = net.update_meshes(&mut meshes, &apertures, &mut triangulator);
    assert_eq!(touched, vec![b, a]);
    assert_eq!(meshes[a].positions.len(), 20);
    assert_eq!(meshes[b].positions.len(), 20);
    assert_consistent(&meshes[a]);
}

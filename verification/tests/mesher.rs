use std::cmp::Ordering;
use cubes_lib::chunk::mesh_parts::MeshPart;
use cubes_lib::chunk::Chunk;
use cubes_lib::chunk::mesher::{as_option, axis, is_back_face, Axis, Mesher, Quad};
use cubes_lib::octree::octant_face::OctantFace;
use cubes_lib::octree::Octree;
use cubes_lib::point::Point3;

#[test]
fn full_octree_meshed_with_6_quads() {
    println!("WOW");
    let octree: Octree<u32> = Octree::new(Point3::origin(), Some(1), 5);
    let mesher = Mesher::new(&octree);

    let quads = mesher.generate_quads_array();
    for quad in &quads {
        println!("{:?}", quad);
    }
    assert_eq!(quads.len(), 6);
    for quad in &quads {
        assert_eq!(quad.width(), 32);
        assert_eq!(quad.height(), 32);
        assert_eq!(quad.block, 1);
    }
}

#[test]
fn empty_octree_has_no_quads() {
    let octree: Octree<u32> = Octree::new(Point3::origin(), None, 3);
    assert!(Mesher::new(&octree).generate_quads_array().is_empty());
}

#[test]
fn single_block_meshed_with_6_unit_quads() {
    let octree: Octree<u32> = Octree::new(Point3::new(8, 8, 8), None, 2).insert(&Point3::new(9, 9, 9), 7);
    let mesher = Mesher::new(&octree);
    assert_eq!(mesher.offset, Point3::new(8, 8, 8));
    assert_eq!(mesher.size, 4);
    let quads = mesher.generate_quads_array();
    assert_eq!(quads.len(), 6);
    let faces: Vec<OctantFace> = quads.iter().map(|q| q.face).collect();
    for face in [
        OctantFace::Left,
        OctantFace::Right,
        OctantFace::Down,
        OctantFace::Up,
        OctantFace::Front,
        OctantFace::Back,
    ] {
        assert!(faces.contains(&face), "{:?}", face);
    }
    // The face towards negative x lies on the plane x = 9, the one towards
    // positive x on the plane x = 10.
    let left = quads.iter().find(|q| q.face == OctantFace::Left).unwrap();
    assert_eq!(left.bottom_left, Point3::new(9, 9, 9));
    assert_eq!(left.top_right, Point3::new(9, 10, 10));
    let right = quads.iter().find(|q| q.face == OctantFace::Right).unwrap();
    assert_eq!(right.bottom_left, Point3::new(10, 9, 9));
    for q in &quads {
        assert_eq!(q.block, 7);
        assert_eq!(q.width(), 1);
        assert_eq!(q.height(), 1);
    }
}

#[test]
fn to_index_orders_x_fastest() {
    let octree: Octree<u32> = Octree::new(Point3::origin(), None, 2);
    let mesher = Mesher::new(&octree);
    assert_eq!(mesher.to_index(1, 0, 0), 1);
    assert_eq!(mesher.to_index(0, 1, 0), 4);
    assert_eq!(mesher.to_index(0, 0, 1), 16);
    assert_eq!(mesher.to_index(3, 2, 1), 3 + 8 + 16);
}

#[test]
fn quad_dimensions_of_a_mask() {
    let octree: Octree<u32> = Octree::new(Point3::origin(), None, 2);
    let mesher = Mesher::new(&octree);
    let a = Some((1u32, false));
    let b = Some((2u32, false));
    // Rows of four: a run of three, then two rows that match it.
    let mask = vec![a, a, a, b, a, a, a, a, a, a, b, a, b, b, b, b];
    assert_eq!(mesher.determine_quad_dimensions(&mask), (3, 2));
    let single = vec![b];
    assert_eq!(mesher.determine_quad_dimensions(&single), (1, 1));
}

#[test]
fn axis_helpers() {
    assert_eq!(Axis::X.next(), Axis::Y);
    assert_eq!(Axis::Z.next(), Axis::X);
    assert_eq!(Axis::Z.index(), 2);
    assert_eq!(Axis::Y.front_face(), OctantFace::Up);
    assert_eq!(Axis::Z.back_face(), OctantFace::Front);
    assert_eq!(axis(&OctantFace::Back), Axis::Z);
    assert!(is_back_face(&OctantFace::Up));
    assert!(!is_back_face(&OctantFace::Right));
    assert_eq!(as_option(true), Some(()));
    assert_eq!(as_option(false), None);
}

#[test]
fn quad_coordinates_follow_its_face() {
    let q = Quad::new(
        Point3::new(1, 2, 3),
        Point3::new(1, 2, 7),
        Point3::new(1, 6, 3),
        Point3::new(1, 6, 7),
        3,
        OctantFace::Right,
    );
    assert_eq!((q.u(), q.v(), q.width(), q.height()), (2, 3, 4, 4));
    let q = Quad::new(
        Point3::new(1, 2, 3),
        Point3::new(1, 5, 3),
        Point3::new(4, 2, 3),
        Point3::new(4, 5, 3),
        3,
        OctantFace::Back,
    );
    assert_eq!((q.u(), q.v(), q.width(), q.height()), (1, 2, 3, 3));
}

#[test]
fn quads_ordered_by_place_then_larger_first() {
    let quad = |bl: (i32, i32, i32), tr: (i32, i32, i32), block: u32| {
        Quad::new(
            Point3::new(bl.0, bl.1, bl.2),
            Point3::new(bl.0, bl.1, tr.2),
            Point3::new(bl.0, tr.1, bl.2),
            Point3::new(tr.0, tr.1, tr.2),
            block,
            OctantFace::Right,
        )
    };
    let a = quad((1, 2, 3), (1, 6, 7), 1);
    let b = quad((1, 2, 5), (1, 3, 6), 1);
    let c = quad((1, 4, 3), (1, 5, 4), 1);
    let wide = quad((1, 2, 3), (1, 9, 4), 1);
    assert_eq!(a.compare(&b), Ordering::Less);
    assert_eq!(b.compare(&a), Ordering::Greater);
    assert_eq!(a.compare(&c), Ordering::Less);
    assert_eq!(wide.compare(&a), Ordering::Less);
    assert_eq!(a.compare(&a), Ordering::Equal);
    assert_eq!(a.partial_compare(&b), Some(Ordering::Less));
    assert_eq!(a.partial_compare(&quad((1, 2, 3), (1, 6, 7), 2)), None);
}

#[test]
fn chunk_mesh_parts_follow_its_octree() {
    use_chunk_mesh();
}

fn use_chunk_mesh() {
    assert!(Chunk::with_empty(Point3::new(0, 0, 0)).generate_mesh().is_none());
    let full = Chunk::with_block(Point3::new(0, 0, 0), 3).generate_mesh().unwrap();
    assert_eq!(full.len(), 1);
    assert!(matches!(full[0], MeshPart::Cube { at, diameter: 256 } if at == Point3::new(0, 0, 0)));

    let mut chunk = Chunk::with_empty(Point3::new(2, 0, 0));
    chunk.place_block(&Point3::new(1, 2, 3), 5);
    let parts = chunk.generate_mesh().unwrap();
    assert_eq!(parts.len(), 1);
    match &parts[0] {
        MeshPart::Quads { at, quads } => {
            assert_eq!(*at, Point3::new(0, 0, 0));
            assert_eq!(quads.len(), 6);
        },
        other => panic!("{:?}", other),
    }

    // Four single blocks in four different octants of the chunk.
    let mut half = Chunk::with_empty(Point3::new(0, 0, 0));
    for x in 0..2u16 {
        for z in 0..2u16 {
            half.place_block(&Point3::new(x * 128, 0, z * 128), 1);
        }
    }
    assert_eq!(half.generate_mesh().unwrap().len(), 4);
}

#[test]
fn greedy_run_across_rows_stays_inside_the_mask() {
    // Seen along x, the cells at x = 0 form the mask [empty, a, a, a]: the
    // run that starts at the second entry continues into the next row.
    let octree: Octree<u32> = Octree::new(Point3::origin(), None, 1)
        .insert(&Point3::new(0, 1, 0), 1)
        .insert(&Point3::new(0, 0, 1), 1)
        .insert(&Point3::new(0, 1, 1), 1);
    let quads = Mesher::new(&octree).generate_quads_array();
    let left: Vec<&Quad> = quads.iter().filter(|q| q.face == OctantFace::Left).collect();
    assert_eq!(left.len(), 1);
    assert_eq!(left[0].bottom_left, Point3::new(0, 1, 0));
    assert_eq!((left[0].width(), left[0].height()), (2, 2));
}

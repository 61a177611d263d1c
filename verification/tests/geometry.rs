use cubes_lib::chunk::file_format::{
    bits_to_variant, block_to_bytes, bytes_to_block, bytes_to_chunk_lists, chunk_lists_to_bytes, variant_to_bits,
    variants_to_bytes, NodeVariant, VarIter,
};
use cubes_lib::iter_tools::all_equal;
use cubes_lib::octree::builder::{build_octree, pow8_usize, OctreeBuilder};
use cubes_lib::octree::dimensions::Cuboid;
use cubes_lib::octree::octant::{Octant, OctantId};
use cubes_lib::octree::octant_dimensions::OctantDimensions;
use cubes_lib::octree::octant_face::OctantFace;
use cubes_lib::octree::octree_data::OctreeData;
use cubes_lib::octree::Octree;
use cubes_lib::morton_code::MortonCode;
use cubes_lib::point::Point3;
use cubes_lib::collision::{CollisionDetection, CollisionDetectionError};

fn p(x: u16, y: u16, z: u16) -> Point3<u16> {
    Point3::new(x, y, z)
}

#[test]
fn octant_ids_in_number_order() {
    let mut iter = OctantId::iter();
    let mut seen = Vec::new();
    while let Some(id) = iter.next() {
        seen.push(id.to_usize());
    }
    assert_eq!(seen, vec![0, 1, 2, 3, 4, 5, 6, 7]);
    assert_eq!(OctantId::from_u8(8), None);
    let high = OctantId::from_u8(7).unwrap();
    assert!(high.is_x_high() && high.is_y_high() && high.is_z_high());
    let x_only = OctantId::from_u8(4).unwrap();
    assert!(x_only.is_x_high() && !x_only.is_y_high() && !x_only.is_z_high());
    assert_eq!(x_only.sub_octant_bottom_left(p(10, 20, 30), 8), p(18, 20, 30));
}

#[test]
fn octant_dimensions_geometry() {
    let dims = OctantDimensions::new(p(8, 0, 4), 4);
    assert_eq!(dims.top_right(), p(11, 3, 7));
    assert_eq!(dims.get_octant_index(&p(10, 1, 7)), 2);
    assert_eq!(dims.get_octant(&p(8, 3, 4)).to_usize(), 2);
    assert_eq!(dims.sub_octant_dimensions(OctantId::from_u8(5).unwrap()), OctantDimensions::new(p(10, 0, 6), 2));
    assert_eq!(dims.face_adjacent_point(OctantFace::Right), p(12, 0, 4));
    assert_eq!(dims.face_adjacent_point(OctantFace::Left), p(7, 0, 4));
    assert_eq!(dims.face_adjacent_point(OctantFace::Back), p(8, 0, 8));
    assert_eq!(OctantDimensions::nearest_octant_point(p(13, 7, 16), 3), p(8, 0, 16));
    assert_eq!(OctantFace::from_usize(3), Some(OctantFace::Down));
    assert_eq!(OctantFace::from_usize(6), None);
}

#[test]
fn octant_and_cuboid() {
    let octant = Octant::new(5u32, p(2, 3, 4), 2);
    assert_eq!(octant.top_right(), Point3::new(4usize, 5, 6));
    let cuboid = Cuboid::new(p(0, 1, 2), p(4, 4, 4));
    assert_eq!(cuboid.bottom_left, p(1, 2, 3));
    let iter = cuboid.into_iter();
    assert_eq!(iter.curr, p(1, 2, 3));
}

#[test]
fn variant_bits_roundtrip() {
    for v in [NodeVariant::Error, NodeVariant::Empty, NodeVariant::Leaf, NodeVariant::Branch] {
        assert_eq!(bits_to_variant(variant_to_bits(&v)), v);
    }
    let vars = vec![NodeVariant::Branch, NodeVariant::Leaf, NodeVariant::Empty, NodeVariant::Empty, NodeVariant::Leaf];
    assert_eq!(variants_to_bytes(&vars), vec![0b1110_0101, 0b1000_0000]);
    let bytes = variants_to_bytes(&vars);
    let mut iter = VarIter::new(&bytes);
    assert_eq!(iter.next(), Some(NodeVariant::Branch));
    assert_eq!(iter.next(), Some(NodeVariant::Leaf));
}

#[test]
fn blocks_are_big_endian() {
    assert_eq!(block_to_bytes(0x0a0b0c0d), [0x0a, 0x0b, 0x0c, 0x0d]);
    assert_eq!(bytes_to_block(&[0, 0, 1, 2]), 258);
}

#[test]
fn chunk_lists_roundtrip() {
    let mut vars = vec![NodeVariant::Branch];
    for i in 0..8 {
        vars.push(if i == 3 { NodeVariant::Leaf } else { NodeVariant::Empty });
    }
    let blocks = vec![77u32];
    let bytes = chunk_lists_to_bytes(&vars, &blocks);
    assert_eq!(bytes.len(), 3 + 4);
    let (vars_back, blocks_back) = bytes_to_chunk_lists(&bytes);
    assert_eq!(vars_back, vars);
    assert_eq!(blocks_back, blocks);
}

#[test]
fn all_equal_checks_every_element() {
    assert!(all_equal::<u8>(&[]));
    assert!(all_equal(&[3, 3, 3]));
    assert!(!all_equal(&[3, 3, 4]));
}

#[test]
fn test_raw_tree_size_matches_octree_size() {
    let raw_tree: OctreeBuilder<u32> = OctreeBuilder::new(6);

    assert_eq!(raw_tree.data.len(), 262144);
}

#[test]
fn test_builder_uses_expected_raw_tree_for_octree() {
    let builder: OctreeBuilder<u32> = OctreeBuilder::new(7);

    assert_eq!(builder.data.len(), 2097152);
}

#[test]
fn builder_places_each_entry_at_its_morton_cell() {
    let mut builder: OctreeBuilder<u32> = OctreeBuilder::new(2);
    assert_eq!(pow8_usize(2), 64);
    for i in 0..64usize {
        builder.data[i] = if i % 3 == 0 { Some(i as u32) } else { None };
    }
    let data = builder.data.clone();
    let octree = builder.build();
    for i in 0..64u128 {
        let pt = MortonCode::from_raw(i).as_point();
        let cell = p(pt.x as u16, pt.y as u16, pt.z as u16);
        assert_eq!(octree.get(&cell), data[i as usize]);
    }
}

#[test]
fn builder_compresses_uniform_octants() {
    let mut builder: OctreeBuilder<u32> = OctreeBuilder::new(3);
    for e in builder.data.iter_mut() {
        *e = Some(4);
    }
    let octree = builder.build();
    assert_eq!(octree, Octree::with_fields(OctreeData::Leaf(4), OctantDimensions::new(p(0, 0, 0), 8), 3));
    let data = vec![None; 8];
    let small: Octree<u32> = build_octree(&data, 0, p(2, 2, 2), 1);
    assert!(small.is_empty());
}

#[test]
fn collision_error_variant() {
    let e = CollisionDetectionError::ChunkAlreadyPresent;
    assert_eq!(format!("{:?}", e), "ChunkAlreadyPresent");
}

#[test]
fn octree_laws_on_values() {
    // Inserting twice is inserting once; deleting after inserting where the
    // point was empty gives the octree back.
    let base: Octree<u32> = Octree::with_uniform_dimension(3).insert(&p(1, 2, 3), 9);
    let once = base.insert(&p(5, 5, 5), 1);
    assert_eq!(once.insert(&p(5, 5, 5), 1), once);
    assert_eq!(once.delete(&p(5, 5, 5)), base);
    let a = base.insert(&p(0, 0, 0), 1).insert(&p(7, 7, 7), 2);
    let b = base.insert(&p(7, 7, 7), 2).insert(&p(0, 0, 0), 1);
    assert_eq!(a, b);
}

#[test]
fn collision_detection_records_each_chunk_once() {
    let mut detection = CollisionDetection::new();
    let a = Point3::new(0, 0, 0);
    let b = Point3::new(1, -1, 0);
    assert_eq!(detection.add_chunk(a, vec![1, 2, 3]), Ok(()));
    assert_eq!(detection.add_chunk(b, vec![4]), Ok(()));
    assert_eq!(detection.add_chunk(a, vec![9]), Err(CollisionDetectionError::ChunkAlreadyPresent));
    assert!(detection.contains_chunk(&b));
    assert_eq!(detection.remove_chunk(&a), Some(vec![1, 2, 3]));
    assert!(!detection.contains_chunk(&a));
    assert_eq!(detection.remove_chunk(&a), None);
    assert_eq!(detection.add_chunk(a, vec![5]), Ok(()));
}

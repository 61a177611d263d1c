use cubes_lib::chunk::format_check::chunk_bytes_decodable;
use cubes_lib::chunk::builder::{gen_subtree, ChunkBuilder};
use cubes_lib::chunk::file_format::{bytes_to_chunk, chunk_to_bytes, ChunkDeserialize, ChunkSerialize};
use cubes_lib::chunk::Chunk;
use cubes_lib::octree::builder::OctreeBuilder;
use cubes_lib::octree::Octree;
use cubes_lib::octree::octree_data::OctreeData;
use cubes_lib::point::Point3;
use std::collections::HashSet;

/// A small deterministic generator of pseudo random bytes.
struct Lcg(u64);
impl Lcg {
    fn next_u8(&mut self) -> u8 {
        self.0 = self.0.wrapping_mul(6364136223846793005).wrapping_add(1442695040888963407);
        (self.0 >> 33) as u8
    }
}

fn p(x: u16, y: u16, z: u16) -> Point3<u16> {
    Point3::new(x, y, z)
}


#[test]
fn test_chunk_iterator() {
    let mut chunk = Chunk::new(Point3::new(0, 0, 0), Octree::with_uniform_dimension(8));
    chunk
        .place_block(&p(0, 0, 0), 1)
        .place_block(&p(0, 0, 1), 2)
        .place_block(&p(0, 1, 0), 3)
        .place_block(&p(0, 1, 1), 4)
        .place_block(&p(1, 0, 0), 5)
        .place_block(&p(1, 0, 1), 6)
        .place_block(&p(1, 1, 0), 7)
        .place_block(&p(1, 1, 1), 8);

    let blocks = chunk.block_iter();
    let mut iter = blocks.iter().map(|(pt, b)| (*pt, b));

    assert_eq!(iter.next(), Some((p(1, 1, 1), &8)));
    assert_eq!(iter.next(), Some((p(1, 1, 0), &7)));
    assert_eq!(iter.next(), Some((p(1, 0, 1), &6)));
    assert_eq!(iter.next(), Some((p(1, 0, 0), &5)));
    assert_eq!(iter.next(), Some((p(0, 1, 1), &4)));
    assert_eq!(iter.next(), Some((p(0, 1, 0), &3)));
    assert_eq!(iter.next(), Some((p(0, 0, 1), &2)));
    assert_eq!(iter.next(), Some((p(0, 0, 0), &1)));
    assert_eq!(iter.next(), None);
}

#[test]
fn chunk_test_chunk_insertions() {
    let mut rng = Lcg(11);
    let mut chunk = Chunk::new(Point3::new(0, 0, 0), Octree::with_uniform_dimension(8));
    for _ in 0..1000 {
        chunk.place_block(&p(rng.next_u8().into(), rng.next_u8().into(), rng.next_u8().into()), 1234);
    }

    println!("{:?}", chunk);
}

#[test]
fn mod_test_chunk_insertions() {
    let mut rng = Lcg(23);
    let mut points = HashSet::new();
    let mut chunk = Chunk::with_empty(Point3::origin_i32());
    for _ in 0..1000 {
        let pt = p(rng.next_u8().into(), rng.next_u8().into(), rng.next_u8().into());
        chunk.place_block(&pt, 1234);
        points.insert(pt);
    }

    for point in points {
        assert_eq!(chunk.get_block(&point), Some(1234));
    }
}

#[test]
fn test_plateau_built_correctly() {
    let half_chunk: u16 = 128;
    let mut chunk_to_be: OctreeBuilder<u32> = OctreeBuilder::new(8);
    for x in 0..256u16 {
        for y in 0..256u16 {
            for z in 0..256u16 {
                chunk_to_be.set(&p(x, y, z), if y < half_chunk { Some(1) } else { None });
            }
        }
    }
    let chunk = Chunk::new(Point3::origin_i32(), chunk_to_be.build());
    for x in 0..256u16 {
        for y in 0..256u16 {
            for z in 0..256u16 {
                let pos = p(x, y, z);
                assert_eq!(
                    chunk.get_block(&pos),
                    if y < half_chunk { Some(1) } else { None },
                    "{:?}",
                    pos
                );
            }
        }
    }
}

fn difference(a: u16, b: u16) -> u16 {
    if a > b {
        a - b
    } else {
        b - a
    }
}

#[test]
fn test_sphere_built_correctly() {
    let half_chunk: u16 = 128;
    let r_2: u32 = half_chunk as u32 * half_chunk as u32;
    let mut chunk_to_be: OctreeBuilder<u32> = OctreeBuilder::new(8);
    let inside = |x: u16, y: u16, z: u16| {
        let (dx, dy, dz) = (
            difference(x, half_chunk) as u32,
            difference(y, half_chunk) as u32,
            difference(z, half_chunk) as u32,
        );
        dx * dx + dy * dy + dz * dz <= r_2
    };
    for x in 0..256u16 {
        for y in 0..256u16 {
            for z in 0..256u16 {
                chunk_to_be.set(&p(x, y, z), if inside(x, y, z) { Some(1) } else { None });
            }
        }
    }
    let chunk = Chunk::new(Point3::origin_i32(), chunk_to_be.build());
    for x in 0..256u16 {
        for y in 0..256u16 {
            for z in 0..256u16 {
                if inside(x, y, z) {
                    let pos = p(x, y, z);
                    assert_eq!(chunk.get_block(&pos), Some(1), "{:?}", pos);
                }
            }
        }
    }
}

#[test]
fn translation_bidirectionality_test() {
    // A chunk goes through the encoding and back unchanged.
    let mut rng = Lcg(5);
    let mut test_chunk = Chunk::with_empty(Point3::origin_i32());
    for _ in 0..500 {
        let pt = p(rng.next_u8().into(), rng.next_u8().into(), rng.next_u8().into());
        let block = (rng.next_u8() % 4) as u32 + 1;
        test_chunk.place_block(&pt, block);
    }
    let center = Point3::origin_i32();
    let rebuilt_chunk = bytes_to_chunk(&chunk_to_bytes(&test_chunk), center);
    assert_eq!(test_chunk, rebuilt_chunk);
}

#[test]
fn chunk_serialize_roundtrip_keeps_position() {
    let mut chunk = Chunk::with_block(Point3::new(3, -2, 7), 9);
    chunk.place_block(&p(255, 0, 17), 4);
    let bytes = ChunkSerialize::into(&chunk);
    let back = ChunkDeserialize::from(&bytes, Point3::new(3, -2, 7));
    assert_eq!(back, chunk);
}

#[test]
fn chunk_of_one_block_encodes_to_leaf_and_block() {
    let chunk = Chunk::with_block(Point3::origin_i32(), 0x01020304);
    // One leaf variant packed in the first byte, then the block big-endian.
    assert_eq!(chunk_to_bytes(&chunk), vec![0b1000_0000, 1, 2, 3, 4]);
    let empty = Chunk::with_empty(Point3::origin_i32());
    assert_eq!(chunk_to_bytes(&empty), vec![0b0100_0000]);
}

#[test]
fn gen_subtree_is_full_and_empty() {
    let tree = gen_subtree(p(0, 0, 0), 2);
    assert!(tree.is_node());
    assert_eq!(tree.bounds.diameter(), 4);
    for x in 0..4u16 {
        for y in 0..4u16 {
            for z in 0..4u16 {
                assert_eq!(tree.get(&p(x, y, z)), None);
            }
        }
    }
    let leaf = gen_subtree(p(5, 6, 7), 0);
    assert!(leaf.is_empty());
}

#[test]
fn chunk_builder_builds_compressed_empty_chunk() {
    let builder = ChunkBuilder::new(Point3::new(1, 2, 3));
    assert!(builder.tree.is_node());
    let chunk = builder.build();
    assert_eq!(chunk, Chunk::with_empty(Point3::new(1, 2, 3)));
}

#[test]
fn decodable_bytes_are_recognised() {
    let mut chunk = Chunk::with_empty(Point3::origin_i32());
    chunk.place_block(&p(10, 200, 3), 6);
    let bytes = chunk_to_bytes(&chunk);
    assert!(chunk_bytes_decodable(&bytes));
    // Nothing at all, a lone branch, and a leaf whose block is cut short.
    assert!(!chunk_bytes_decodable(&vec![]));
    assert!(!chunk_bytes_decodable(&vec![0b1100_0000]));
    assert!(!chunk_bytes_decodable(&vec![0b1000_0000, 1, 2]));
    // A kind that marks an error.
    assert!(!chunk_bytes_decodable(&vec![0b0000_0000]));
}

#[test]
fn builder_set_writes_the_cell_at_its_morton_code() {
    let mut builder: OctreeBuilder<u32> = OctreeBuilder::new(2);
    builder.set(&p(1, 0, 0), Some(9));
    assert_eq!(builder.data[4], Some(9));
    builder.set(&p(3, 3, 3), Some(2));
    assert_eq!(builder.data[63], Some(2));
    let octree = builder.build();
    assert_eq!(octree.get(&p(1, 0, 0)), Some(9));
    assert_eq!(octree.get(&p(3, 3, 3)), Some(2));
    assert_eq!(octree.get(&p(0, 0, 0)), None);
}

#[test]
fn gen_subtree_keeps_the_high_corner_in_slot_zero() {
    let tree = gen_subtree(p(0, 0, 0), 1);
    match &tree.data {
        OctreeData::Node(children) => {
            let corners: Vec<Point3<u16>> = children.iter().map(|c| c.root_point()).collect();
            assert_eq!(
                corners,
                vec![p(1, 1, 1), p(1, 1, 0), p(1, 0, 1), p(1, 0, 0), p(0, 1, 1), p(0, 1, 0), p(0, 0, 1), p(0, 0, 0)]
            );
        },
        other => panic!("{:?}", other),
    }
}

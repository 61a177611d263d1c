use cubes_lib::chunk::Chunk;
use cubes_lib::dimension::storage::DimensionStorage;
use cubes_lib::dimension::{Dimension, DimensionConfig};
use cubes_lib::morton_code::MortonCode;
use cubes_lib::point::Point3;

#[test]
fn storage_insert_returns_previous_chunk() {
    let mut storage = DimensionStorage::new();
    assert_eq!(storage.len, 9);
    assert_eq!(storage.len(), 0);
    let a = MortonCode::new(1, 0, 0);
    let b = MortonCode::new(0, 0, 0);
    assert_eq!(storage.insert(a, Chunk::with_block(Point3::new(1, 0, 0), 1)), None);
    assert_eq!(storage.insert(b, Chunk::with_block(Point3::new(0, 0, 0), 2)), None);
    assert_eq!(storage.len(), 2);
    let old = storage.insert(a, Chunk::with_block(Point3::new(1, 0, 0), 3));
    assert_eq!(old, Some(Chunk::with_block(Point3::new(1, 0, 0), 1)));
    assert_eq!(storage.len(), 2);
    assert_eq!(storage.get(&a), Some(&Chunk::with_block(Point3::new(1, 0, 0), 3)));
    assert_eq!(storage.get(&b), Some(&Chunk::with_block(Point3::new(0, 0, 0), 2)));
    assert_eq!(storage.get(&MortonCode::new(5, 5, 5)), None);
    // Kept in the order of the codes.
    assert_eq!(storage.indices, vec![b, a]);
    assert!(storage.chunk_stored(&a));
    assert!(!storage.chunk_stored(&MortonCode::new(0, 1, 0)));
    assert_eq!(storage.chunks().len(), 2);
}

#[test]
fn storage_search_finds_insertion_points() {
    let mut storage = DimensionStorage::with_capacity(4);
    for x in [4, 0, 2] {
        storage.insert(MortonCode::new(x, 0, 0), Chunk::with_empty(Point3::new(x, 0, 0)));
    }
    assert_eq!(storage.search(&MortonCode::new(0, 0, 0)), Ok(0));
    assert_eq!(storage.search(&MortonCode::new(2, 0, 0)), Ok(1));
    assert_eq!(storage.search(&MortonCode::new(1, 0, 0)), Err(1));
    assert_eq!(storage.search(&MortonCode::new(7, 0, 0)), Err(3));
}

#[test]
fn dimension_reports_its_chunks() {
    let mut dimension = Dimension::new();
    let m = MortonCode::new(3, 2, 1);
    assert!(!dimension.chunk_exists(&m));
    dimension.storage.insert(m, Chunk::with_empty(Point3::new(3, 2, 1)));
    assert!(dimension.chunk_exists(&m));
    assert_eq!(dimension.get_chunk(&m), Some(&Chunk::with_empty(Point3::new(3, 2, 1))));
    assert_eq!(dimension.iter().len(), 1);
}

#[test]
fn dimension_config_defaults() {
    let config = DimensionConfig::default();
    assert_eq!(config.generate_radius, 4);
    assert_eq!(config.directory, "./resources/dimension/");
    let config = DimensionConfig::new(String::from("/tmp/world"), 2);
    assert_eq!(config.directory, "/tmp/world");
    assert_eq!(config.generate_radius, 2);
}

#[test]
fn chunks_to_generate_are_neither_stored_nor_queued() {
    let mut dimension = Dimension::new();
    let stored = Point3::new(0, 0, 0);
    dimension.storage.insert(MortonCode::from_point(&stored), Chunk::with_empty(stored));
    let candidates = vec![Point3::new(0, 0, 0), Point3::new(1, 0, 0), Point3::new(0, 1, 0), Point3::new(2, 2, 2)];
    let queued = vec![MortonCode::new(2, 2, 2), MortonCode::new(1, 0, 0)];
    assert_eq!(dimension.chunks_to_generate(&queued, &candidates), vec![MortonCode::new(0, 1, 0)]);
    assert_eq!(
        dimension.chunks_to_generate(&vec![], &candidates),
        vec![MortonCode::new(1, 0, 0), MortonCode::new(0, 1, 0), MortonCode::new(2, 2, 2)]
    );
}

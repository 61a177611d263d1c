use cubes_lib::octree::octant_dimensions::OctantDimensions;
use cubes_lib::octree::octree_data::OctreeData;
use cubes_lib::octree::Octree;
use cubes_lib::point::Point3;
use std::collections::BTreeSet;

fn p(x: u16, y: u16, z: u16) -> Point3<u16> {
    Point3::new(x, y, z)
}

/// A small deterministic generator of pseudo random bytes.
struct Lcg(u64);
impl Lcg {
    fn next_u8(&mut self) -> u8 {
        self.0 = self.0.wrapping_mul(6364136223846793005).wrapping_add(1442695040888963407);
        (self.0 >> 33) as u8
    }
}

#[test]
fn mod_octree_new_constructs_expected_tree() {
    let octree: Octree<i32> = Octree::with_uniform_dimension(8);
    assert_eq!(
        octree,
        Octree::with_fields(OctreeData::Empty, OctantDimensions::new(p(0, 0, 0), 256), 8)
    );
    // The same tree built at the origin with nothing in it.
    let level: Octree<u32> = Octree::new(Point3::origin(), None, 8);
    assert_eq!(level.bounds.diameter(), 256);
    assert_eq!(
        level,
        Octree::with_fields(OctreeData::Empty, OctantDimensions::new(p(0, 0, 0), 256), 8)
    );
}

#[test]
fn octree_dimensions_bounds_are_correct() {
    let dims = OctantDimensions::new(p(1, 1, 1), 2);
    assert_eq!(dims.x_max(), 2);
    assert_eq!(dims.x_min(), 1);
    assert_eq!(dims.y_max(), 2);
    assert_eq!(dims.y_min(), 1);
    assert_eq!(dims.z_max(), 2);
    assert_eq!(dims.z_min(), 1);
    assert_eq!(dims.center(), p(2, 2, 2));
}

#[test]
fn octree_creates_dimensions() {
    let octree: Octree<()> = Octree::with_uniform_dimension(8);
    assert_eq!(octree.bounds.x_max(), 255);
    assert_eq!(octree.bounds.x_min(), 0);
    assert_eq!(octree.bounds.y_max(), 255);
    assert_eq!(octree.bounds.y_min(), 0);
    assert_eq!(octree.bounds.z_max(), 255);
    assert_eq!(octree.bounds.z_min(), 0);
    assert_eq!(octree.bounds.center(), p(128, 128, 128));
}

#[test]
fn octree_subnodes_constructed_correctly() {
    let octree: Octree<i32> = Octree::with_uniform_dimension(1);
    let points = vec![
        (p(0, 0, 0), false),
        (p(0, 0, 1), false),
        (p(0, 1, 0), false),
        (p(0, 1, 1), false),
        (p(1, 0, 0), false),
        (p(1, 0, 1), false),
        (p(1, 1, 0), false),
        (p(1, 1, 1), false),
        (p(1, 1, 2), true),
        (p(1, 2, 1), true),
        (p(1, 2, 2), true),
        (p(2, 1, 1), true),
        (p(2, 1, 2), true),
        (p(2, 2, 1), true),
        (p(2, 2, 2), true),
        (p(2, 2, 3), true),
        (p(2, 3, 2), true),
        (p(2, 3, 3), true),
    ];
    for (pt, expected) in points {
        assert_eq!(octree.outside_bounds(&pt), expected, "{:?}", pt);
    }
}

#[test]
fn mod_octree_insert_handles_center_point() {
    let octree: Octree<i32> = Octree::with_uniform_dimension(4);
    let center = octree.bounds.center();
    assert_eq!(octree.insert(&center, 1234).get(&center), Some(1234));
    // The origin of a chunk sized octree.
    let level: Octree<i32> = Octree::new(Point3::origin(), None, 8);
    assert_eq!(
        level.insert(&Point3::origin(), 1234).get(&Point3::origin()),
        Some(1234)
    );
}

#[test]
fn mod_octree_element_retrieved_after_insertion_in_same_octants() {
    let p1 = p(2, 2, 2);
    let p2 = p(1, 1, 1);
    for height in [2u32, 8] {
        let octree: Octree<i32> = Octree::with_uniform_dimension(height)
            .insert(&p1, 1234)
            .insert(&p2, 5678);
        assert_eq!(octree.get(&p1), Some(1234));
        assert_eq!(octree.get(&p2), Some(5678));
    }
}

#[test]
fn mod_octree_element_retrieved_after_inserterion_in_diff_octants() {
    let p1 = p(1, 1, 1);
    let p2 = p(7, 7, 7);
    for height in [3u32, 8] {
        let octree: Octree<i32> = Octree::with_uniform_dimension(height)
            .insert(&p1, 1234)
            .insert(&p2, 5678);
        assert_eq!(octree.get(&p1), Some(1234));
        assert_eq!(octree.get(&p2), Some(5678));
    }
}

#[test]
fn mod_octree_insert_updates_element() {
    let pt = p(1, 1, 1);
    for height in [4u32, 8] {
        let octree: Octree<i32> = Octree::with_uniform_dimension(height).insert(&pt, 1234);
        assert_eq!(octree.get(&pt), Some(1234));
        let octree = octree.insert(&pt, 5678);
        assert_eq!(octree.get(&pt), Some(5678));
    }
}

#[test]
fn mod_octree_deletes_expected_element() {
    let pt = p(4, 1, 1);
    for height in [5u32, 8] {
        let octree: Octree<i32> = Octree::with_uniform_dimension(height)
            .insert(&p(1, 1, 1), 1234)
            .insert(&p(1, 1, 2), 4567)
            .insert(&pt, 7890);
        assert_eq!(octree.get(&pt), Some(7890));
        let octree = octree.delete(&pt);
        assert_eq!(octree.get(&pt), None);
        assert_eq!(octree.get(&p(1, 1, 1)), Some(1234));
        assert_eq!(octree.get(&p(1, 1, 2)), Some(4567));
    }
}

#[test]
fn octree_print_test() {
    let octree = Octree::with_uniform_dimension(8)
        .insert(&p(1, 1, 1), 1)
        .insert(&p(1, 1, 2), 2)
        .insert(&p(1, 2, 1), 3)
        .insert(&p(1, 2, 2), 4)
        .insert(&p(2, 1, 1), 5)
        .insert(&p(2, 1, 2), 6)
        .insert(&p(2, 2, 1), 7)
        .insert(&p(2, 2, 2), 8);
    println!("{:#?}", octree);
}

#[test]
fn mod_octree_delete_is_idempotent() {
    let pt = p(1, 1, 1);
    for height in [5u32, 8] {
        let octree: Octree<i32> = Octree::with_uniform_dimension(height).insert(&pt, 1234);
        let once = octree.delete(&pt);
        let result = once.delete(&pt);
        assert_eq!(result.get(&pt), None);
        assert_eq!(result, once);
    }
}

#[test]
fn mod_octree_iterator_length_is_correct() {
    for height in [5u32, 8] {
        let octree: Octree<i32> = Octree::with_uniform_dimension(height)
            .insert(&p(2, 2, 2), 1234)
            .insert(&p(1, 1, 2), 4567)
            .insert(&p(2, 1, 1), 7890);
        assert_eq!(octree.iter().len(), 3);
    }
}

#[test]
fn mod_octree_iterator_contains_correct_elements() {
    let octree = Octree::with_uniform_dimension(3)
        .insert(&p(2, 2, 2), 1u32)
        .insert(&p(2, 4, 2), 2)
        .insert(&p(4, 4, 4), 3)
        .insert(&p(2, 2, 4), 4);
    let result_set: BTreeSet<(OctantDimensions, u32)> = octree.iter().into_iter().collect();
    let mut expected_set = BTreeSet::new();
    expected_set.insert((OctantDimensions::new(p(4, 4, 4), 1), 3u32));
    expected_set.insert((OctantDimensions::new(p(2, 4, 2), 1), 2u32));
    expected_set.insert((OctantDimensions::new(p(2, 2, 4), 1), 4u32));
    expected_set.insert((OctantDimensions::new(p(2, 2, 2), 1), 1u32));
    assert_eq!(result_set, expected_set);
}

#[test]
fn octree_insertion_compresses_common_subnodes_in_single_level() {
    let octree = Octree::with_uniform_dimension(1)
        .insert(&p(1, 1, 1), 1)
        .insert(&p(1, 1, 0), 1)
        .insert(&p(1, 0, 1), 1)
        .insert(&p(0, 1, 0), 1)
        .insert(&p(0, 1, 1), 1)
        .insert(&p(1, 0, 0), 1)
        .insert(&p(0, 0, 1), 1)
        .insert(&p(0, 0, 0), 1);
    assert_eq!(
        octree,
        Octree::with_fields(OctreeData::Leaf(1), OctantDimensions::new(p(0, 0, 0), 2), 1)
    );
}

#[test]
fn mod_octree_insertion_compresses_common_nodes_in_subtree() {
    let octree = Octree::with_uniform_dimension(8)
        .insert(&p(1, 1, 1), 1234)
        .insert(&p(1, 1, 0), 1234)
        .insert(&p(1, 0, 1), 1234)
        .insert(&p(0, 1, 0), 1234)
        .insert(&p(0, 1, 1), 1234)
        .insert(&p(1, 0, 0), 1234)
        .insert(&p(0, 0, 1), 1234)
        .insert(&p(0, 0, 0), 1234);
    let items = octree.iter();
    assert_eq!(items.first(), Some(&(OctantDimensions::new(p(0, 0, 0), 2), 1234)));
    assert_eq!(items.len(), 1);
}

#[test]
fn octree_test_large_amount_of_insertions() {
    let mut rng = Lcg(7);
    let mut octree = Octree::with_uniform_dimension(8);
    let mut points = Vec::new();
    for _ in 0..1000 {
        let pt = p(rng.next_u8().into(), rng.next_u8().into(), rng.next_u8().into());
        octree = octree.insert(&pt, 1234);
        points.push(pt);
    }
    for pt in points {
        assert_eq!(octree.get(&pt), Some(1234));
    }
    println!("{:?}", octree.root_point());
}

#[test]
fn octree_delete_outside_cube_clears_nearest_point() {
    let octree: Octree<i32> = Octree::with_uniform_dimension(2).insert(&p(3, 0, 0), 9);
    let cleared = octree.delete(&p(200, 0, 0));
    assert_eq!(cleared.get(&p(3, 0, 0)), None);
}

#[test]
fn octree_compress_collapses_uniform_branches() {
    let mut octree: Octree<i32> = Octree::with_fields(
        OctreeData::Empty,
        OctantDimensions::new(p(0, 0, 0), 2),
        1,
    );
    octree = octree.insert(&p(0, 0, 0), 5);
    assert!(octree.is_node());
    let mut full = octree;
    for x in 0..2u16 {
        for y in 0..2u16 {
            for z in 0..2u16 {
                full = full.insert(&p(x, y, z), 5);
            }
        }
    }
    full.compress();
    assert_eq!(full.data, OctreeData::Leaf(5));
}

#[test]
fn octree_iterator_visits_levels_from_the_root_down() {
    let mut octree: Octree<u32> = Octree::with_uniform_dimension(2);
    for x in 0..2u16 {
        for y in 0..2u16 {
            for z in 0..2u16 {
                octree = octree.insert(&p(x, y, z), 1);
            }
        }
    }
    octree = octree.insert(&p(3, 3, 3), 2);
    assert_eq!(
        octree.iter(),
        vec![(OctantDimensions::new(p(0, 0, 0), 2), 1), (OctantDimensions::new(p(3, 3, 3), 1), 2)]
    );
}

#[test]
fn octree_with_children_collapses_equal_flat_children() {
    use_children();
}

fn use_children() {
    let leaf = |x: u16, y: u16, z: u16, v: Option<u32>| std::sync::Arc::new(Octree::new(p(x, y, z), v, 0));
    // Slot i holds the octant numbered 7 - i: slot 0 is the high corner.
    let same: Vec<_> = (0..8u16).map(|i| leaf((7 - i) / 4, ((7 - i) / 2) % 2, (7 - i) % 2, Some(3))).collect();
    let t = Octree::with_children(same, p(0, 0, 0), 1);
    assert_eq!(t, Octree::with_fields(OctreeData::Leaf(3), OctantDimensions::new(p(0, 0, 0), 2), 1));
    let mixed: Vec<_> = (0..8u16)
        .map(|i| leaf((7 - i) / 4, ((7 - i) / 2) % 2, (7 - i) % 2, if i == 2 { Some(4) } else { Some(3) }))
        .collect();
    let t = Octree::with_children(mixed, p(0, 0, 0), 1);
    assert!(t.is_node());
    assert!(t.is_well_formed());
    assert_eq!(t.get(&p(1, 0, 1)), Some(4));
    assert_eq!(t.get(&p(0, 1, 1)), Some(3));
}

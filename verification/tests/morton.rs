use cubes_lib::morton_code::MortonCode;
use cubes_lib::point::Point3;

fn split_by_n(input: u128, bits_remaining: usize) -> u128 {
    if bits_remaining == 0 {
        0
    } else {
        (split_by_n(input >> 1, bits_remaining - 1) << 3) | (input & 1)
    }
}

fn control_encode_impl(fields: &[i32]) -> u128 {
    if fields.len() == 1 {
        split_by_n(fields[0] as u128, 32)
    } else {
        let (first, tail) = fields
            .split_first()
            .expect("Expected non empty slice for control_encode_impl");
        (control_encode_impl(tail) << 1) | split_by_n(*first as u128, 32)
    }
}

fn join_by_n(input: u128, bits_remaining: usize) -> u128 {
    if bits_remaining == 0 {
        0
    } else {
        (join_by_n(input >> 3, bits_remaining - 1) << 1) | (input & 1)
    }
}

fn control_decode_impl(encoded: u128) -> (i32, i32, i32) {
    let z = join_by_n(encoded, 32) as i32;
    let y = join_by_n(encoded >> 1, 32) as i32;
    let x = join_by_n(encoded >> 2, 32) as i32;
    (x, y, z)
}

#[test]
fn test_morton_i32_encoding_against_control() {
    let field_bits = 32 / 3;
    let monstrosity = (0..=(field_bits - 4)).flat_map(|offset| {
        (0..16).flat_map(move |i| (0..16).flat_map(move |j| (0..16).map(move |k| (offset, i, j, k))))
    });
    for (offset, i, j, k) in monstrosity {
        let x: i32 = i << offset;
        let y: i32 = j << offset;
        let z: i32 = k << offset;

        let expected = control_encode_impl(&[z, y, x]);
        let result = MortonCode::new(x, y, z).data;

        assert_eq!(
            result, expected,
            "Wrong result for ({}, {}, {}) expected: {:?} but got: {:?}",
            x, y, z, expected, result
        );
    }
}

#[test]
fn test_morton_i32_decoding_against_control() {
    let encoded_bits = (64 / 3) * 3;
    let product = (0..=(encoded_bits - 12)).flat_map(|offset| (0..4096u128).map(move |morton| (offset, morton)));
    for (offset, morton) in product {
        let encoded = morton << offset;
        let expected = control_decode_impl(encoded);
        let result = MortonCode::from_raw(encoded).decode();
        assert_eq!(expected, result, "Incorrect decoding for Morton value {}", encoded);
    }
}

#[test]
fn morton_decode_undoes_encode() {
    for &(x, y, z) in &[(0, 0, 0), (1, 2, 3), (-1, 5, -7), (i32::MAX, i32::MIN, 12345), (-256, 255, 0)] {
        let code = MortonCode::new(x, y, z);
        assert_eq!(code.decode(), (x, y, z));
        assert_eq!(code.as_point(), Point3::new(x, y, z));
        assert_eq!(MortonCode::from_point(&Point3::new(x, y, z)), code);
    }
}

#[test]
fn morton_code_of_unit_points() {
    assert_eq!(MortonCode::new(1, 0, 0).raw(), 4);
    assert_eq!(MortonCode::new(0, 1, 0).raw(), 2);
    assert_eq!(MortonCode::new(0, 0, 1).raw(), 1);
    assert_eq!(MortonCode::new(2, 0, 0).raw(), 32);
    assert_eq!(MortonCode::new(3, 3, 3).raw(), 63);
}

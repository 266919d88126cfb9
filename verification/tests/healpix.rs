use polytope_quadtree::healpix_nested::{
    axes_idx_to_healpix_idx, axes_idx_to_healpix_idx_batch, div_03, fij_to_nest, int_sqrt,
    nest_encode_bits, pll, ring_to_nested, ring_to_nested_batched,
};

fn grid(k: u32) -> (i64, i64, i64) {
    let nside = 1i64 << k;
    (nside, 12 * nside * nside, 2 * nside * (nside - 1))
}

#[test]
fn pixel_numbers_by_ring_and_place() {
    // resolution 2: rings of 4, 8, 8, 8, 8, 8, 4 pixels
    assert_eq!(axes_idx_to_healpix_idx(2, 0, 0), 0);
    assert_eq!(axes_idx_to_healpix_idx(2, 0, 3), 3);
    assert_eq!(axes_idx_to_healpix_idx(2, 1, 0), 4);
    assert_eq!(axes_idx_to_healpix_idx(2, 2, 5), 17);
    assert_eq!(axes_idx_to_healpix_idx(2, 5, 7), 43);
    assert_eq!(axes_idx_to_healpix_idx(2, 6, 0), 44);
    assert_eq!(axes_idx_to_healpix_idx(2, 6, 3), 47);
}

#[test]
fn pixel_number_past_the_last_ring_is_the_grid_size() {
    assert_eq!(axes_idx_to_healpix_idx(2, 7, 5), 48);
    assert_eq!(axes_idx_to_healpix_idx(2, 100, 0), 48);
    assert_eq!(axes_idx_to_healpix_idx(1, 3, 9), 12);
    assert_eq!(axes_idx_to_healpix_idx(4, 15, 1), 192);
}

#[test]
fn pixel_numbers_of_the_smallest_grid() {
    assert_eq!(axes_idx_to_healpix_idx(1, 0, 2), 2);
    assert_eq!(axes_idx_to_healpix_idx(1, 1, 0), 4);
    assert_eq!(axes_idx_to_healpix_idx(1, 2, 3), 11);
}

#[test]
fn pixel_numbers_in_a_batch() {
    assert_eq!(
        axes_idx_to_healpix_idx_batch(4, 3, vec![0, 1, 15]),
        vec![24, 25, 39]
    );
    assert_eq!(axes_idx_to_healpix_idx_batch(4, 3, Vec::new()), Vec::<usize>::new());
}

#[test]
fn integer_roots() {
    assert_eq!(int_sqrt(0), 0);
    assert_eq!(int_sqrt(1), 1);
    assert_eq!(int_sqrt(3), 1);
    assert_eq!(int_sqrt(4), 2);
    assert_eq!(int_sqrt(99), 9);
    assert_eq!(int_sqrt(100), 10);
    assert_eq!(int_sqrt(1 << 60), 1 << 30);
    assert_eq!(int_sqrt((1 << 60) - 1), (1 << 30) - 1);
    assert_eq!(int_sqrt(i64::MAX), 3037000499);
}

#[test]
fn quotients_up_to_three() {
    assert_eq!(div_03(0, 5), 0);
    assert_eq!(div_03(4, 5), 0);
    assert_eq!(div_03(5, 5), 1);
    assert_eq!(div_03(9, 5), 1);
    assert_eq!(div_03(10, 5), 2);
    assert_eq!(div_03(15, 5), 3);
    assert_eq!(div_03(19, 5), 3);
    assert_eq!(div_03(500, 5), 3);
}

#[test]
fn face_offsets() {
    let table = [1, 3, 5, 7, 0, 2, 4, 6, 1, 3, 5, 7];
    for f in 0..12 {
        assert_eq!(pll(f), table[f]);
    }
}

#[test]
fn bits_are_moved_apart() {
    assert_eq!(nest_encode_bits(0), 0);
    assert_eq!(nest_encode_bits(1), 1);
    assert_eq!(nest_encode_bits(2), 4);
    assert_eq!(nest_encode_bits(3), 5);
    assert_eq!(nest_encode_bits(0b1011), 0b1000101);
    assert_eq!(nest_encode_bits(0xFFFF_FFFF), 0x5555_5555_5555_5555);
    assert_eq!(nest_encode_bits(0x1_0000_0000), 0);
    assert_eq!(nest_encode_bits(-1), 0x5555_5555_5555_5555);
}

#[test]
fn nested_number_from_face_and_coordinates() {
    assert_eq!(fij_to_nest(0, 0, 0, 1), 0);
    assert_eq!(fij_to_nest(0, 1, 0, 1), 1);
    assert_eq!(fij_to_nest(0, 0, 1, 1), 2);
    assert_eq!(fij_to_nest(0, 1, 1, 1), 3);
    assert_eq!(fij_to_nest(5, 0, 0, 1), 20);
    assert_eq!(fij_to_nest(11, 3, 3, 2), 11 * 16 + 15);
    assert_eq!(fij_to_nest(2, 5, 2, 3), 2 * 64 + 0b010001 + 0b001000);
}

#[test]
fn ring_to_nested_of_the_grid_of_side_two() {
    let (nside, npix, ncap) = grid(1);
    let first: Vec<u64> = (0..10).map(|idx| ring_to_nested(idx, nside, npix, ncap, 1)).collect();
    assert_eq!(first, vec![3, 7, 11, 15, 2, 1, 6, 5, 10, 9]);
}

#[test]
fn ring_to_nested_of_one_pixel_of_side_sixteen() {
    let (nside, npix, ncap) = grid(4);
    assert_eq!(ring_to_nested(1504, nside, npix, ncap, 4), 1130);
}

#[test]
fn ring_to_nested_is_one_to_one() {
    for k in 1..6 {
        let (nside, npix, ncap) = grid(k);
        let idxs: Vec<i64> = (0..npix).collect();
        let mut nested = ring_to_nested_batched(idxs, nside, npix, ncap, k);
        assert_eq!(nested.len() as i64, npix);
        nested.sort();
        for (at, value) in nested.iter().enumerate() {
            assert_eq!(*value, at as u64);
        }
    }
}

#[test]
fn ring_to_nested_keeps_the_poles_in_the_polar_faces() {
    let (nside, npix, ncap) = grid(3);
    // the four pixels round the north pole are the last of faces 0 to 3
    for face in 0..4 {
        assert_eq!(
            ring_to_nested(face, nside, npix, ncap, 3),
            (face as u64 + 1) * 64 - 1
        );
    }
    // the four pixels round the south pole are the first of faces 8 to 11
    for face in 0..4 {
        assert_eq!(
            ring_to_nested(npix - 4 + face, nside, npix, ncap, 3),
            (face as u64 + 8) * 64
        );
    }
}

#[test]
fn ring_to_nested_at_the_greatest_order() {
    let (nside, npix, ncap) = grid(29);
    assert_eq!(ring_to_nested(0, nside, npix, ncap, 29), (1u64 << 58) - 1);
    assert_eq!(ring_to_nested(npix - 1, nside, npix, ncap, 29), 11 * (1u64 << 58));
    assert!(ring_to_nested(npix / 2, nside, npix, ncap, 29) < npix as u64);
}

use realpix::{
    clamp_to_face, compact_bits, deinterleave, interleave, spread_bits, Error, Hpd, Nested, Ring,
};

#[test]
fn interleave_known_values() {
    assert_eq!(interleave(0, 0), 0);
    assert_eq!(interleave(1, 0), 1);
    assert_eq!(interleave(0, 1), 2);
    assert_eq!(interleave(3, 5), 39);
    assert_eq!(interleave(0xffff, 0xffff), 0xffff_ffff);
    assert_eq!(interleave(0x1_0003, 0), 5);
}

#[test]
fn spread_and_compact_known_values() {
    assert_eq!(spread_bits(0b1011), 0b100_0101);
    assert_eq!(spread_bits(0x1_0000), 0);
    assert_eq!(compact_bits(0b100_0101), 0b1011);
    assert_eq!(compact_bits(0x5555_5555), 0xffff);
    assert_eq!(compact_bits(0xaaaa_aaaa), 0);
    assert_eq!(deinterleave(39), (3, 5));
}

#[test]
fn interleave_round_trips() {
    for x in (0u32..65536).step_by(97) {
        for y in (0u32..65536).step_by(89) {
            let v = interleave(x, y);
            assert_eq!(deinterleave(v as u32), (x, y));
        }
    }
}

#[test]
fn nested_known_index() {
    assert_eq!(Nested::face_xy_to_pixel(32, 5, 3, 5), 5 * 1024 + 39);
    assert_eq!(Nested::pixel_to_face_xy(32, 5 * 1024 + 39), Ok((5, 3, 5)));
}

#[test]
fn invalid_pixel_is_rejected() {
    let nside = 16;
    let total = (12 * nside * nside) as u64;

    assert!(Nested::pixel_to_face_xy(nside, total).is_err());
}

#[test]
fn pixel_past_the_end_is_invalid_for_both_schemes() {
    for nside in [1u32, 4, 16, 1024, 32768] {
        let total = 12 * (nside as u64) * (nside as u64);
        assert_eq!(Nested::pixel_to_face_xy(nside, total), Err(Error::InvalidPixel));
        assert_eq!(Ring::pixel_to_hpd(nside, total), Err(Error::InvalidPixel));
        assert!(Nested::pixel_to_face_xy(nside, total - 1).is_ok());
        assert!(Ring::pixel_to_hpd(nside, total - 1).is_ok());
    }
}

#[test]
fn nested_index_round_trip() {
    let mut nside: u32 = 4;
    while nside <= 256 {
        let total = 12 * (nside as u64) * (nside as u64);
        for p in 0..total {
            let (f, x, y) = Nested::pixel_to_face_xy(nside, p).unwrap();
            assert!(f < 12 && x < nside && y < nside);
            assert_eq!(Nested::face_xy_to_pixel(nside, f, x, y), p);
        }
        nside *= 2;
    }
}

#[test]
fn ring_lowest_resolution_follows_faces() {
    for f in 0..12i32 {
        let h = Hpd { x: 0, y: 0, f };
        assert_eq!(Ring::hpd2ring(1, h), f as i64);
        assert_eq!(Ring::ring2hpd(1, f as i64), h);
    }
}

#[test]
fn ring_known_indices() {
    // The first pixel of the north polar cap sits on face 0 at its polar corner.
    assert_eq!(Ring::hpd2ring(4, Hpd { x: 3, y: 3, f: 0 }), 0);
    // The last pixel of the grid sits on face 11 at its southern corner.
    assert_eq!(Ring::hpd2ring(4, Hpd { x: 0, y: 0, f: 11 }), 191);
    assert_eq!(Ring::ring2hpd(4, 0), Hpd { x: 3, y: 3, f: 0 });
    assert_eq!(Ring::ring2hpd(4, 191), Hpd { x: 0, y: 0, f: 11 });
}

#[test]
fn ring_index_round_trip() {
    let mut nside: i64 = 1;
    while nside <= 256 {
        let total = 12 * nside * nside;
        let mut seen = vec![false; total as usize];
        for p in 0..total {
            let h = Ring::ring2hpd(nside, p);
            assert!(h.f >= 0 && h.f < 12 && h.x >= 0 && h.x < nside && h.y >= 0 && h.y < nside);
            assert_eq!(Ring::hpd2ring(nside, h), p, "nside {} pixel {}", nside, p);
            assert!(!seen[p as usize]);
            seen[p as usize] = true;
        }
        nside *= 2;
    }
}

#[test]
fn ring_face_coordinates_to_index_is_a_bijection() {
    let nside: u32 = 16;
    let total = 12 * nside * nside;
    let mut seen = vec![false; total as usize];
    for f in 0..12 {
        for x in 0..nside {
            for y in 0..nside {
                let p = Ring::face_xy_to_pixel(nside, f, x, y);
                assert!(p < total as u64);
                let back = Ring::ring2hpd(nside as i64, p as i64);
                assert_eq!(back, Hpd { x: x as i64, y: y as i64, f: f as i32 });
                assert!(!seen[p as usize]);
                seen[p as usize] = true;
            }
        }
    }
}

#[test]
fn equatorial_face_rule() {
    assert_eq!(Ring::equatorial_face(2, 2), 6);
    assert_eq!(Ring::equatorial_face(4, 4), 4);
    assert_eq!(Ring::equatorial_face(1, 2), 1);
    assert_eq!(Ring::equatorial_face(3, 2), 10);
}

#[test]
fn clamp_keeps_coordinates_on_the_face() {
    assert_eq!(clamp_to_face(-3, 32), 0);
    assert_eq!(clamp_to_face(7, 32), 7);
    assert_eq!(clamp_to_face(32, 32), 31);
    assert_eq!(clamp_to_face(i64::MAX, 32), 31);
}

#[test]
fn largest_resolution_converts_both_ways() {
    let nside: u32 = 32768;
    let total = 12 * (nside as u64) * (nside as u64);
    for p in [0, 1, total / 3, total / 2, total - 2, total - 1] {
        let (f, x, y) = Nested::pixel_to_face_xy(nside, p).unwrap();
        assert_eq!(Nested::face_xy_to_pixel(nside, f, x, y), p);
        let h = Ring::pixel_to_hpd(nside, p).unwrap();
        assert_eq!(Ring::hpd2ring(nside as i64, h), p as i64);
    }
}

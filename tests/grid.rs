use realpix::{
    is_power_of_two, is_valid_face_resolution, ConstHealpix, DynamicHealpix, Error, Nested, Pixel,
    MAX_FACE_RESOLUTION,
};

#[test]
fn iter_pixels_should_iterate_over_all_pixels() {
    let healpix = ConstHealpix::<32>::new();
    let count = healpix.pixel_range().count();
    assert_eq!(count, healpix.total_pixels() as usize);
}

#[test]
fn pixel_count_is_correct() {
    let nside = 32;
    let total = 12 * nside * nside;

    let max_pixel = Pixel::<Nested>::from_u64(total as u64 - 1).as_u64();

    assert_eq!(max_pixel, total as u64 - 1);
}

#[test]
fn pixel_range_yields_each_index_once() {
    let healpix = DynamicHealpix::new(8).unwrap();
    let all: Vec<u64> = healpix.pixel_range().collect();
    assert_eq!(all.len(), 768);
    for (i, p) in all.iter().enumerate() {
        assert_eq!(*p as usize, i);
    }
}

#[test]
fn runtime_resolution_ten_is_rejected() {
    assert_eq!(DynamicHealpix::new(10).err(), Some(Error::InvalidFaceResolution));
}

#[test]
fn runtime_resolution_sixteen_is_accepted() {
    let healpix = DynamicHealpix::new(16).unwrap();
    assert_eq!(healpix.face_resolution(), 16);
    assert_eq!(healpix.pixels_per_face(), 256);
    assert_eq!(healpix.total_pixels(), 3072);
}

#[test]
fn runtime_resolution_zero_and_too_large_are_rejected() {
    assert_eq!(DynamicHealpix::new(0).err(), Some(Error::InvalidFaceResolution));
    assert_eq!(DynamicHealpix::new(65536).err(), Some(Error::InvalidFaceResolution));
    assert_eq!(MAX_FACE_RESOLUTION, 32768);
    let largest = DynamicHealpix::new(32768).unwrap();
    assert_eq!(largest.pixels_per_face(), 1_073_741_824);
    assert_eq!(largest.total_pixels(), 12_884_901_888);
}

#[test]
fn total_pixels_is_twelve_faces() {
    let mut n: u32 = 1;
    while n <= MAX_FACE_RESOLUTION {
        let healpix = DynamicHealpix::new(n).unwrap();
        assert_eq!(healpix.total_pixels() as u64, 12 * (n as u64) * (n as u64));
        assert_eq!(healpix.pixels_per_face() as u64, (n as u64) * (n as u64));
        n *= 2;
    }
    let fixed = ConstHealpix::<1024>::new();
    assert_eq!(fixed.face_resolution(), 1024);
    assert_eq!(fixed.total_pixels(), 12_582_912);
}

#[test]
fn power_of_two_check() {
    assert!(!is_power_of_two(0));
    assert!(is_power_of_two(1));
    assert!(is_power_of_two(16));
    assert!(!is_power_of_two(10));
    assert!(is_power_of_two(1 << 31));
    assert!(!is_power_of_two(u32::MAX));
    assert!(!is_valid_face_resolution(1 << 31));
    assert!(!is_valid_face_resolution(65536));
    assert!(is_valid_face_resolution(32768));
    assert!(is_valid_face_resolution(1024));
}

#[test]
fn error_messages() {
    assert_eq!(Error::InvalidPixel.message(), "The pixel is out of bounds");
    assert_eq!(
        Error::InvalidFaceResolution.message(),
        "face resolution must be a power of two"
    );
}

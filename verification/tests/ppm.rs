use rtrcrs::ppm::{decimal, header, picture, pixel_line};

#[test]
fn decimal_digits() {
    assert_eq!(decimal(0), b"0");
    assert_eq!(decimal(7), b"7");
    assert_eq!(decimal(10), b"10");
    assert_eq!(decimal(255), b"255");
    assert_eq!(decimal(1920), b"1920");
    assert_eq!(decimal(1080), b"1080");
    assert_eq!(decimal(1_000_000_000), b"1000000000");
    assert_eq!(decimal(u32::MAX), b"4294967295");
    for n in (0..100_000u32).step_by(37) {
        assert_eq!(decimal(n), n.to_string().as_bytes());
        let back: u32 = String::from_utf8(decimal(n)).unwrap().parse().unwrap();
        assert_eq!(back, n);
    }
}

#[test]
fn the_header_names_the_size() {
    let mut want = vec![b'P', b'3', b'\n'];
    want.extend_from_slice(b"1920 1080\n255\n");
    assert_eq!(header(1920, 1080), want);
    let mut want = vec![b'P', b'3', b'\n'];
    want.extend_from_slice(b"1 0\n255\n");
    assert_eq!(header(1, 0), want);
}

#[test]
fn a_line_for_a_pixel() {
    assert_eq!(pixel_line(0, 127, 255), b"0 127 255\n");
    assert_eq!(pixel_line(9, 10, 100), b"9 10 100\n");
}

#[test]
fn a_picture_of_two_by_two() {
    let pixels = vec![255, 0, 0, 0, 255, 0, 0, 0, 255, 12, 34, 56];
    let text = picture(2, 2, &pixels).unwrap();
    let mut want = vec![b'P', b'3', b'\n'];
    want.extend_from_slice(b"2 2\n255\n255 0 0\n0 255 0\n0 0 255\n12 34 56\n");
    assert_eq!(text, want);
}

#[test]
fn a_picture_needs_three_bytes_for_every_pixel() {
    assert!(picture(2, 2, &vec![0; 11]).is_none());
    assert!(picture(2, 2, &vec![0; 13]).is_none());
    assert!(picture(2, 2, &vec![0; 12]).is_some());
    assert!(picture(0, 5, &vec![0; 3]).is_none());
    assert_eq!(picture(0, 5, &Vec::new()).unwrap(), header(0, 5));
    assert!(picture(u32::MAX, u32::MAX, &vec![0; 3]).is_none());
}

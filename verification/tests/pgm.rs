use sigtrace::pgm::{read_p5, write_p5, Gray};

#[test]
fn reads_a_plain_header() {
    let mut bytes = b"P5\n3 2\n255\n".to_vec();
    bytes.extend_from_slice(&[1, 2, 3, 4, 5, 6]);
    let g = read_p5(&bytes).unwrap();
    assert_eq!((g.w, g.h), (3, 2));
    assert_eq!(g.px, vec![1, 2, 3, 4, 5, 6]);
}

#[test]
fn reads_comments_and_plus_signs() {
    let mut bytes = b"P5 # made by hand\n# another\n+2\t1 255 ".to_vec();
    bytes.extend_from_slice(&[9, 8, 7]);
    let g = read_p5(&bytes).unwrap();
    assert_eq!((g.w, g.h), (2, 1));
    // only w * h bytes are taken
    assert_eq!(g.px, vec![9, 8]);
}

#[test]
fn write_then_read_gives_the_image_back() {
    let g = Gray { w: 12, h: 3, px: (0..36).map(|i| (i * 7) as u8).collect() };
    let bytes = write_p5(&g);
    assert_eq!(&bytes[..11], b"P5\n12 3\n255");
    let back = read_p5(&bytes).unwrap();
    assert_eq!((back.w, back.h), (12, 3));
    assert_eq!(back.px, g.px);
}

#[test]
fn write_p5_exact_bytes() {
    let g = Gray { w: 2, h: 1, px: vec![0, 255] };
    assert_eq!(write_p5(&g), b"P5\n2 1\n255\n\x00\xff".to_vec());
}

#[test]
fn each_error_has_its_message() {
    let cases: Vec<(&[u8], &str)> = vec![
        (b"", "empty"),
        (b"  # only a comment", "empty"),
        (b"P6 1 1 255 x", "not P5: P6"),
        (b"P5", "no width"),
        (b"P5 x 1 255 a", "bad width"),
        (b"P5 -1 1 255 a", "bad width"),
        (b"P5 1", "no height"),
        (b"P5 1 1a 255 a", "bad height"),
        (b"P5 1 1", "no maxval"),
        (b"P5 1 1 +", "bad maxval"),
        (b"P5 1 1 65535 ab", "only maxval 255 supported"),
        (b"P5 0 1 255 a", "image dimensions must be non-zero"),
        (b"P5 1 1 255", "missing raster separator"),
        (b"P5 3 3 255 abc", "truncated raster"),
        (b"P5 99999999999999999999 1 255 a", "bad width"),
    ];
    for (bytes, msg) in cases {
        match read_p5(bytes) {
            Ok(_) => panic!("accepted {:?}", bytes),
            Err(e) => assert_eq!(e, msg),
        }
    }
}

#[test]
fn dimension_overflow_is_reported() {
    let bytes = format!("P5 {} {} 255 x", usize::MAX, 2).into_bytes();
    assert_eq!(read_p5(&bytes).err().unwrap(), "image dimensions overflow");
    let bytes = format!("P5 {} {} 255 x", usize::MAX - 3, 1).into_bytes();
    assert_eq!(read_p5(&bytes).err().unwrap(), "raster length overflow");
}

#[test]
fn non_ascii_magic_is_quoted_lossily() {
    let bytes = b"P\xff 1 1 255 a";
    assert_eq!(read_p5(bytes).err().unwrap(), "not P5: P\u{fffd}");
}

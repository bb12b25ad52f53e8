use rust_fractals::ppm::{RasterError, PPM};

#[test]
fn new_is_black() {
    let p = PPM::new(3, 2).unwrap();
    assert_eq!(p.width(), 3);
    assert_eq!(p.height(), 2);
    for y in 0..2 {
        for x in 0..3 {
            assert_eq!(p.get_pixel(x, y), Some([0, 0, 0]));
        }
    }
}

#[test]
fn new_refuses_zero_dimensions() {
    assert!(matches!(PPM::new(0, 5), Err(RasterError::Allocation)));
    assert!(matches!(PPM::new(5, 0), Err(RasterError::Allocation)));
    assert!(matches!(PPM::new(0, 0), Err(RasterError::Allocation)));
}

#[test]
fn new_refuses_overflowing_dimensions() {
    assert!(matches!(PPM::new(usize::MAX, 2), Err(RasterError::Allocation)));
    assert!(matches!(PPM::new(usize::MAX / 4, 2), Err(RasterError::Allocation)));
}

#[test]
fn put_pixel_writes_one_cell() {
    let mut p = PPM::new(3, 2).unwrap();
    assert_eq!(p.put_pixel(2, 1, [1, 2, 3]), Ok(()));
    assert_eq!(p.get_pixel(2, 1), Some([1, 2, 3]));
    assert_eq!(p.get_pixel(1, 1), Some([0, 0, 0]));
    assert_eq!(p.get_pixel(2, 0), Some([0, 0, 0]));
}

#[test]
fn put_pixel_out_of_range_changes_nothing() {
    let mut p = PPM::new(2, 3).unwrap();
    assert_eq!(p.put_pixel(2, 0, [9, 9, 9]), Err(RasterError::Index));
    assert_eq!(p.put_pixel(0, 3, [9, 9, 9]), Err(RasterError::Index));
    assert_eq!(p.put_pixel(usize::MAX, usize::MAX, [9, 9, 9]), Err(RasterError::Index));
    for y in 0..3 {
        for x in 0..2 {
            assert_eq!(p.get_pixel(x, y), Some([0, 0, 0]));
        }
    }
    assert_eq!(p.get_pixel(2, 0), None);
}

#[test]
fn encode_header_and_scan_order() {
    let mut p = PPM::new(3, 2).unwrap();
    p.put_pixel(0, 0, [255, 0, 10]).unwrap();
    p.put_pixel(1, 0, [1, 2, 3]).unwrap();
    p.put_pixel(2, 0, [100, 200, 7]).unwrap();
    p.put_pixel(0, 1, [4, 5, 6]).unwrap();
    p.put_pixel(2, 1, [0, 99, 255]).unwrap();
    let text = String::from_utf8(p.encode()).unwrap();
    assert_eq!(
        text,
        "P3\n3 2\n255\n255 0 10\n1 2 3\n100 200 7\n4 5 6\n0 0 0\n0 99 255\n"
    );
}

#[test]
fn encode_every_pixel_written_reads_back() {
    let (w, h) = (4usize, 3usize);
    let mut p = PPM::new(w, h).unwrap();
    for y in 0..h {
        for x in 0..w {
            p.put_pixel(x, y, [(x * 60) as u8, (y * 90) as u8, (x + 10 * y) as u8]).unwrap();
        }
    }
    let text = String::from_utf8(p.encode()).unwrap();
    let mut lines = text.lines();
    assert_eq!(lines.next(), Some("P3"));
    assert_eq!(lines.next(), Some("4 3"));
    assert_eq!(lines.next(), Some("255"));
    for y in 0..h {
        for x in 0..w {
            let vals: Vec<u8> = lines
                .next()
                .unwrap()
                .split(' ')
                .map(|s| s.parse().unwrap())
                .collect();
            assert_eq!(vals, vec![(x * 60) as u8, (y * 90) as u8, (x + 10 * y) as u8]);
        }
    }
    assert_eq!(lines.next(), None);
}

#[test]
fn encode_single_black_pixel() {
    let p = PPM::new(1, 1).unwrap();
    assert_eq!(p.encode(), b"P3\n1 1\n255\n0 0 0\n".to_vec());
}

#[test]
fn decode_recovers_every_pixel() {
    let (w, h) = (5usize, 2usize);
    let mut p = PPM::new(w, h).unwrap();
    for y in 0..h {
        for x in 0..w {
            p.put_pixel(x, y, [(x * 50) as u8, (y * 255) as u8, (x * y + 7) as u8]).unwrap();
        }
    }
    let q = PPM::decode(&p.encode()).unwrap();
    assert_eq!(q.width(), w);
    assert_eq!(q.height(), h);
    for y in 0..h {
        for x in 0..w {
            assert_eq!(q.get_pixel(x, y), p.get_pixel(x, y));
        }
    }
    assert_eq!(q.encode(), p.encode());
}

#[test]
fn decode_reads_hand_written_text() {
    let q = PPM::decode(&b"P3\n2 1\n255\n10 20 30\n255 0 9\n".to_vec()).unwrap();
    assert_eq!(q.width(), 2);
    assert_eq!(q.height(), 1);
    assert_eq!(q.get_pixel(0, 0), Some([10, 20, 30]));
    assert_eq!(q.get_pixel(1, 0), Some([255, 0, 9]));
}

#[test]
fn decode_refuses_malformed_text() {
    let bad: [&[u8]; 10] = [
        b"",
        b"P6\n1 1\n255\n0 0 0\n",
        b"P3\n1 1\n255\n0 0 0",
        b"P3\n1 1\n255\n0 0 0\n0 0 0\n",
        b"P3\n1 1\n255\n256 0 0\n",
        b"P3\n1 1\n255\n00 0 0\n",
        b"P3\n0 1\n255\n",
        b"P3\n1 1\n254\n0 0 0\n",
        b"P3\n1  1\n255\n0 0 0\n",
        b"P3\n2 1\n255\n0 0 0\n",
    ];
    for b in bad.iter() {
        assert!(PPM::decode(&b.to_vec()).is_none());
    }
}

#[test]
fn decode_refuses_huge_numbers() {
    assert!(PPM::decode(&b"P3\n99999999999999999999999 1\n255\n".to_vec()).is_none());
}

#[test]
fn to_png_holds_the_pixels() {
    let (w, h) = (3usize, 2usize);
    let mut p = PPM::new(w, h).unwrap();
    for y in 0..h {
        for x in 0..w {
            p.put_pixel(x, y, [(x * 100) as u8, (y * 200) as u8, 42]).unwrap();
        }
    }
    let png = p.to_png().unwrap();
    assert_eq!(&png[..8], &[137u8, 80, 78, 71, 13, 10, 26, 10]);
    assert_ne!(png, p.channel_bytes());
    let back = image::load_from_memory(&png).unwrap().to_rgb8();
    assert_eq!(back.dimensions(), (3, 2));
    for y in 0..h {
        for x in 0..w {
            assert_eq!(back.get_pixel(x as u32, y as u32).0, p.get_pixel(x, y).unwrap());
        }
    }
}

#[test]
fn channel_bytes_follow_scan_order() {
    let mut p = PPM::new(2, 2).unwrap();
    p.put_pixel(1, 0, [1, 2, 3]).unwrap();
    p.put_pixel(0, 1, [4, 5, 6]).unwrap();
    assert_eq!(p.channel_bytes(), vec![0, 0, 0, 1, 2, 3, 4, 5, 6, 0, 0, 0]);
}

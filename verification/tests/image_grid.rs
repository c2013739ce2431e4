use allrgb::color_dist;
use allrgb::Image;

#[test]
fn new_fills_every_cell() {
    let img: Image<(u8, u8, u8)> = Image::new((7, 8, 9), 3, 2);
    assert_eq!(img.width(), 3);
    assert_eq!(img.height(), 2);
    for y in 0..2 {
        for x in 0..3 {
            assert_eq!(img.get(x, y), (7, 8, 9));
        }
    }
}

#[test]
fn set_changes_one_cell() {
    let mut img: Image<(u8, u8, u8)> = Image::new((0, 0, 0), 3, 3);
    img.set(1, 2, (5, 6, 7));
    assert_eq!(img.get(1, 2), (5, 6, 7));
    for y in 0..3 {
        for x in 0..3 {
            if (x, y) != (1, 2) {
                assert_eq!(img.get(x, y), (0, 0, 0));
            }
        }
    }
}

#[test]
fn neighbors_center_has_eight() {
    let img: Image<bool> = Image::new(false, 3, 3);
    let nbrs = img.neighbors(1, 1);
    assert_eq!(nbrs.len(), 8);
    for &(a, b) in nbrs.iter() {
        assert!(a <= 2 && b <= 2);
        assert!((a, b) != (1, 1));
        let dx = (a as i32 - 1).abs();
        let dy = (b as i32 - 1).abs();
        assert!(dx <= 1 && dy <= 1);
    }
    for i in 0..nbrs.len() {
        for j in (i + 1)..nbrs.len() {
            assert_ne!(nbrs[i], nbrs[j]);
        }
    }
}

#[test]
fn neighbors_corner_has_three() {
    let img: Image<bool> = Image::new(false, 3, 3);
    let nbrs = img.neighbors(0, 0);
    assert_eq!(nbrs, vec![(1, 0), (0, 1), (1, 1)]);
}

#[test]
fn neighbors_on_single_column() {
    let img: Image<bool> = Image::new(false, 1, 3);
    assert_eq!(img.neighbors(0, 1), vec![(0, 0), (0, 2)]);
    assert_eq!(img.neighbors(0, 0), vec![(0, 1)]);
    assert_eq!(img.neighbors(0, 2), vec![(0, 1)]);
}

#[test]
fn color_dist_sums_squared_channel_differences() {
    assert_eq!(color_dist((0, 0, 0), (1, 2, 3)), 14);
    assert_eq!(color_dist((255, 0, 0), (0, 0, 0)), 65025);
    assert_eq!(color_dist((10, 20, 30), (10, 20, 30)), 0);
    assert_eq!(color_dist((1, 1, 1), (0, 0, 0)), 3);
    assert_eq!(color_dist((3, 5, 7), (7, 5, 3)), color_dist((7, 5, 3), (3, 5, 7)));
    assert_eq!(color_dist((255, 255, 255), (0, 0, 0)), 3 * 65025);
}

#[test]
fn ppm_bytes_exact_layout() {
    let mut img: Image<(u8, u8, u8)> = Image::new((0, 0, 0), 2, 1);
    img.set(0, 0, (10, 20, 30));
    img.set(1, 0, (40, 50, 60));
    let want: Vec<u8> = vec![
        b'P', b'6', b'\n', b'2', b' ', b'1', b'\n', b'2', b'5', b'5', b'\n', 10, 20, 30, 40, 50,
        60,
    ];
    assert_eq!(img.ppm_bytes(), want);
}

#[test]
fn ppm_bytes_multi_digit_dimensions() {
    let img: Image<(u8, u8, u8)> = Image::new((1, 2, 3), 12, 10);
    let bytes = img.ppm_bytes();
    let header: Vec<u8> = b"P6\n12 10\n255\n".to_vec();
    assert_eq!(&bytes[..header.len()], &header[..]);
    assert_eq!(bytes.len(), header.len() + 12 * 10 * 3);
    assert_eq!(&bytes[header.len()..header.len() + 3], &[1, 2, 3]);
}

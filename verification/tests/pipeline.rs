use visible_rects::report::Region;
use visible_rects::{buffer_matches, process};

fn image(width: usize, height: usize, alpha: impl Fn(usize, usize) -> u8) -> Vec<u8> {
    let mut pixels = Vec::with_capacity(width * height * 4);
    for y in 0..height {
        for x in 0..width {
            pixels.push((x % 251) as u8);
            pixels.push((y % 241) as u8);
            pixels.push(((x + y) % 239) as u8);
            pixels.push(alpha(x, y));
        }
    }
    pixels
}

fn region(x: usize, y: usize, width: usize, height: usize) -> Region {
    Region { x, y, width, height }
}

fn overlap(a: &Region, b: &Region) -> bool {
    a.x < b.x + b.width && a.x + a.width > b.x && a.y < b.y + b.height && a.y + a.height > b.y
}

fn check_cover(pixels: &[u8], width: usize, height: usize, rects: &[Region]) {
    let mut hits = vec![0u32; width * height];
    for r in rects {
        assert!(r.width >= 1 && r.width <= 512);
        assert!(r.height >= 1 && r.height <= 512);
        assert!(r.x + r.width <= width);
        assert!(r.y + r.height <= height);
        for y in r.y..r.y + r.height {
            for x in r.x..r.x + r.width {
                hits[y * width + x] += 1;
            }
        }
    }
    for y in 0..height {
        for x in 0..width {
            let n = hits[y * width + x];
            assert!(n <= 1, "pixel ({x}, {y}) lies in {n} rectangles");
            if pixels[(y * width + x) * 4 + 3] != 0 {
                assert_eq!(n, 1, "visible pixel ({x}, {y}) is not covered");
            }
        }
    }
}

#[test]
fn transparent_image_gives_no_rectangle() {
    let pixels = image(37, 21, |_, _| 0);
    let out = process(&pixels, 37, 21);
    assert!(out.rects.is_empty());
    assert_eq!(out.hash, crc32fast::hash(&pixels));
}

#[test]
fn image_without_pixels_gives_no_rectangle() {
    for (w, h) in [(0, 0), (0, 7), (7, 0)] {
        let out = process(&[], w, h);
        assert!(out.rects.is_empty());
        assert_eq!(out.hash, 0);
    }
}

#[test]
fn single_transparent_pixel_has_known_checksum() {
    let out = process(&[0, 0, 0, 0], 1, 1);
    assert!(out.rects.is_empty());
    assert_eq!(out.hash, 0x2144_df1c);
}

#[test]
fn single_visible_pixel() {
    let out = process(&[9, 8, 7, 1], 1, 1);
    assert_eq!(out.rects, vec![region(0, 0, 1, 1)]);
    assert_eq!(out.hash, crc32fast::hash(&[9, 8, 7, 1]));
}

#[test]
fn only_the_alpha_byte_decides_visibility() {
    let out = process(&[255, 255, 255, 0, 0, 0, 0, 1], 2, 1);
    assert_eq!(out.rects, vec![region(1, 0, 1, 1)]);
}

#[test]
fn small_opaque_image_becomes_one_rectangle() {
    let pixels = image(4, 3, |_, _| 255);
    let out = process(&pixels, 4, 3);
    assert_eq!(out.rects, vec![region(0, 0, 4, 3)]);
}

#[test]
fn opaque_square_in_transparent_image() {
    let pixels = image(100, 100, |x, y| {
        if (45..55).contains(&x) && (45..55).contains(&y) { 255 } else { 0 }
    });
    let out = process(&pixels, 100, 100);
    assert_eq!(out.rects, vec![region(45, 45, 10, 10)]);
    assert_eq!(out.hash, crc32fast::hash(&pixels));
}

#[test]
fn run_ends_before_the_first_invisible_pixel() {
    let alpha = [1u8, 1, 0, 1, 1, 1, 0];
    let pixels = image(7, 1, |x, _| alpha[x]);
    let out = process(&pixels, 7, 1);
    // merging the two runs wastes one pixel
    assert_eq!(out.rects, vec![region(0, 0, 6, 1)]);
}

#[test]
fn wide_opaque_rows_are_cut_into_tiles() {
    let pixels = image(600, 2, |_, _| 200);
    let out = process(&pixels, 600, 2);
    assert_eq!(
        out.rects,
        vec![region(0, 0, 512, 1), region(0, 1, 512, 1), region(512, 0, 88, 1), region(512, 1, 88, 1)]
    );
    let area: usize = out.rects.iter().map(|r| r.width * r.height).sum();
    assert!(area >= 600 * 2);
    check_cover(&pixels, 600, 2, &out.rects);
}

#[test]
fn opaque_image_is_covered_by_tiles() {
    let (w, h) = (700, 40);
    let pixels = image(w, h, |_, _| 1);
    let out = process(&pixels, w, h);
    check_cover(&pixels, w, h, &out.rects);
    let area: usize = out.rects.iter().map(|r| r.width * r.height).sum();
    assert!(area >= w * h);
    assert_eq!(area, w * h);
}

#[test]
fn tall_opaque_image_is_covered_by_tiles() {
    let (w, h) = (3, 530);
    let pixels = image(w, h, |_, _| 77);
    let out = process(&pixels, w, h);
    check_cover(&pixels, w, h, &out.rects);
    let area: usize = out.rects.iter().map(|r| r.width * r.height).sum();
    assert!(area >= w * h);
}

#[test]
fn scattered_pixels_are_covered_without_overlap() {
    let (w, h) = (90, 70);
    let pixels = image(w, h, |x, y| if (x * 7 + y * 13 + x * y) % 11 < 3 { 5 } else { 0 });
    let out = process(&pixels, w, h);
    check_cover(&pixels, w, h, &out.rects);
    for (i, a) in out.rects.iter().enumerate() {
        for b in &out.rects[i + 1..] {
            assert!(!overlap(a, b));
        }
    }
}

#[test]
fn far_apart_blobs_stay_apart() {
    let pixels = image(200, 200, |x, y| {
        if (x < 2 && y < 2) || ((150..152).contains(&x) && (150..152).contains(&y)) { 255 } else { 0 }
    });
    let out = process(&pixels, 200, 200);
    assert_eq!(out.rects, vec![region(0, 0, 2, 2), region(150, 150, 2, 2)]);
}

#[test]
fn nearby_blobs_become_one_rectangle() {
    let pixels = image(20, 2, |x, _| if x < 2 || (10..12).contains(&x) { 255 } else { 0 });
    let out = process(&pixels, 20, 2);
    assert_eq!(out.rects, vec![region(0, 0, 12, 2)]);
}

#[test]
fn same_buffer_has_same_checksum() {
    let pixels = image(16, 16, |x, y| ((x ^ y) & 1) as u8);
    let first = process(&pixels, 16, 16);
    let second = process(&pixels.clone(), 16, 16);
    assert_eq!(first.hash, second.hash);
    assert_eq!(first.rects, second.rects);
    // the checksum is that of the bytes, whatever size they are taken for
    assert_eq!(process(&pixels, 32, 8).hash, first.hash);
    assert_eq!(process(&pixels, 256, 1).hash, first.hash);
}

#[test]
fn changed_byte_changes_checksum() {
    let pixels = image(8, 8, |_, _| 0);
    let base = process(&pixels, 8, 8).hash;
    for at in [0usize, 1, 2, 3, 100, 255] {
        let mut other = pixels.clone();
        other[at] ^= 0x40;
        assert_ne!(process(&other, 8, 8).hash, base, "byte {at}");
    }
}

#[test]
fn checksum_covers_invisible_pixels() {
    let a = [1u8, 2, 3, 0, 4, 5, 6, 0];
    let b = [9u8, 2, 3, 0, 4, 5, 6, 0];
    assert_eq!(process(&a, 2, 1).hash, crc32fast::hash(&a));
    assert_eq!(process(&b, 2, 1).hash, crc32fast::hash(&b));
    assert_ne!(process(&a, 2, 1).hash, process(&b, 2, 1).hash);
}

#[test]
fn checksum_of_known_text() {
    assert_eq!(process(b"hello world!", 3, 1).hash, crc32fast::hash(b"hello world!"));
    assert_eq!(process(b"123456789abc", 1, 3).hash, crc32fast::hash(b"123456789abc"));
    assert_eq!(process(b"1234", 1, 1).hash, 0x9be3_e0a3);
}

#[test]
fn buffer_length_is_checked_against_the_size() {
    assert!(buffer_matches(0, 0, 0));
    assert!(buffer_matches(0, 0, 9));
    assert!(buffer_matches(40_000, 100, 100));
    assert!(!buffer_matches(39_999, 100, 100));
    assert!(!buffer_matches(40_001, 100, 100));
    assert!(!buffer_matches(10_000, 100, 100));
    assert!(!buffer_matches(4, 0, 1));
}

#[test]
fn buffer_length_check_does_not_overflow() {
    assert!(!buffer_matches(0, usize::MAX, 2));
    assert!(!buffer_matches(usize::MAX, usize::MAX, usize::MAX));
    assert!(!buffer_matches(0, usize::MAX / 2 + 1, 1));
    assert!(!buffer_matches(usize::MAX - 3, usize::MAX / 4 + 1, 1));
}

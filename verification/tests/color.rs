use lib::color::{grayscale_to_y_plane, rgb_to_ycbcr, rgb_to_ycbcr_planar};

#[test]
fn pure_black() {
    let (y, cb, cr) = rgb_to_ycbcr(0, 0, 0);
    assert_eq!(y, 0);
    assert_eq!(cb, 128);
    assert_eq!(cr, 128);
}

#[test]
fn pure_white() {
    let (y, cb, cr) = rgb_to_ycbcr(255, 255, 255);
    assert_eq!(y, 255);
    assert_eq!(cb, 128);
    assert_eq!(cr, 128);
}

#[test]
fn pure_red() {
    let (y, cb, cr) = rgb_to_ycbcr(255, 0, 0);
    assert!((y as i16 - 76).abs() <= 1, "Y={y}");
    assert!((cb as i16 - 85).abs() <= 1, "Cb={cb}");
    assert_eq!(cr, 255);
}

#[test]
fn pure_green() {
    let (y, cb, cr) = rgb_to_ycbcr(0, 255, 0);
    assert!((y as i16 - 150).abs() <= 1, "Y={y}");
    assert!((cb as i16 - 44).abs() <= 1, "Cb={cb}");
    assert!((cr as i16 - 21).abs() <= 1, "Cr={cr}");
}

#[test]
fn pure_blue() {
    let (y, cb, cr) = rgb_to_ycbcr(0, 0, 255);
    assert!((y as i16 - 29).abs() <= 1, "Y={y}");
    assert_eq!(cb, 255);
    assert!((cr as i16 - 107).abs() <= 1, "Cr={cr}");
}

#[test]
fn neutral_gray_has_no_chrominance() {
    let (y, cb, cr) = rgb_to_ycbcr(128, 128, 128);
    assert_eq!(y, 128);
    assert_eq!(cb, 128);
    assert_eq!(cr, 128);
}

#[test]
fn output_always_in_u8_range() {
    for &r in &[0u8, 1, 127, 128, 254, 255] {
        for &g in &[0u8, 1, 127, 128, 254, 255] {
            for &b in &[0u8, 1, 127, 128, 254, 255] {
                let (_y, _cb, _cr) = rgb_to_ycbcr(r, g, b);
            }
        }
    }
}

#[test]
fn every_gray_level_keeps_its_value() {
    for v in 0..=255u8 {
        assert_eq!(rgb_to_ycbcr(v, v, v), (v, 128, 128));
    }
}

#[test]
fn exact_fixed_point_values() {
    // Y = (19595*255 + 32768) >> 16 = 76; Cb = ((-11059*255 + 32768) >> 16) + 128 = 85.
    assert_eq!(rgb_to_ycbcr(255, 0, 0), (76, 85, 255));
    assert_eq!(rgb_to_ycbcr(0, 255, 0), (150, 44, 21));
    assert_eq!(rgb_to_ycbcr(0, 0, 255), (29, 255, 107));
}

#[test]
fn planar_correct_length() {
    let rgb = vec![128u8; 10 * 5 * 3];
    let (y, cb, cr) = rgb_to_ycbcr_planar(&rgb, 10, 5);
    assert_eq!(y.len(), 50);
    assert_eq!(cb.len(), 50);
    assert_eq!(cr.len(), 50);
}

#[test]
fn planar_matches_per_pixel() {
    let rgb = [200u8, 100, 50, 10, 20, 30];
    let (y, cb, cr) = rgb_to_ycbcr_planar(&rgb, 2, 1);
    let (y0, cb0, cr0) = rgb_to_ycbcr(200, 100, 50);
    let (y1, cb1, cr1) = rgb_to_ycbcr(10, 20, 30);
    assert_eq!((y[0], cb[0], cr[0]), (y0, cb0, cr0));
    assert_eq!((y[1], cb[1], cr[1]), (y1, cb1, cr1));
}

#[test]
fn planar_ignores_an_incomplete_last_pixel() {
    let rgb = [1u8, 2, 3, 4, 5];
    let (y, cb, cr) = rgb_to_ycbcr_planar(&rgb, 1, 1);
    assert_eq!((y.len(), cb.len(), cr.len()), (1, 1, 1));
}

#[test]
fn grayscale_is_identity() {
    let gray = vec![0u8, 64, 128, 192, 255];
    assert_eq!(grayscale_to_y_plane(&gray), gray);
}

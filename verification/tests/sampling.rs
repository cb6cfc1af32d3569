use lib::sampling::{downsample_plane, subsample_chroma};
use lib::types::Subsampling;

#[test]
fn no_downsampling_returns_copy() {
    let plane = vec![10u8, 20, 30, 40];
    let result = downsample_plane(&plane, 2, 2, 1, 1);
    assert_eq!(result, plane);
}

#[test]
fn horizontal_2x_downsample() {
    let plane = vec![10u8, 20, 30, 40];
    let result = downsample_plane(&plane, 4, 1, 2, 1);
    assert_eq!(result.len(), 2);
    assert_eq!(result[0], 15);
    assert_eq!(result[1], 35);
}

#[test]
fn vertical_2x_downsample() {
    let plane = vec![10u8, 20, 30, 40];
    let result = downsample_plane(&plane, 1, 4, 1, 2);
    assert_eq!(result.len(), 2);
    assert_eq!(result[0], 15);
    assert_eq!(result[1], 35);
}

#[test]
fn downsample_2x2_box() {
    let plane = vec![
        10, 20, 30, 40,
        50, 60, 70, 80,
        90, 100, 110, 120,
        130, 140, 150, 160,
    ];
    let result = downsample_plane(&plane, 4, 4, 2, 2);
    assert_eq!(result.len(), 4);
    assert_eq!(result[0], 35);
    assert_eq!(result[1], 55);
}

#[test]
fn downsample_odd_dimension() {
    let plane = vec![10u8, 20, 30];
    let result = downsample_plane(&plane, 3, 1, 2, 1);
    assert_eq!(result.len(), 2);
    assert_eq!(result[0], 15);
    assert_eq!(result[1], 30);
}

#[test]
fn downsample_rounds_half_up() {
    // (1 + 2 + 1) / 2 rounded: (3 + 1) / 2 = 2; (255 + 254 + 1) / 2 = 255.
    let plane = vec![1u8, 2, 255, 254];
    let result = downsample_plane(&plane, 4, 1, 2, 1);
    assert_eq!(result, vec![2, 255]);
}

#[test]
fn downsample_corner_cell_uses_only_inside_samples() {
    // 3 x 3 plane by 2 x 2: the last cell holds one sample.
    let plane = vec![0u8, 0, 9, 0, 0, 9, 7, 7, 200];
    let result = downsample_plane(&plane, 3, 3, 2, 2);
    assert_eq!(result, vec![0, 9, 7, 200]);
}

#[test]
fn subsample_chroma_444_is_identity() {
    let cb = vec![100u8; 16];
    let cr = vec![200u8; 16];
    let (cb_s, cb_w, cb_h, cr_s, cr_w, cr_h) = subsample_chroma(&cb, &cr, 4, 4, Subsampling::S444);
    assert_eq!(cb_w, 4);
    assert_eq!(cb_h, 4);
    assert_eq!(cr_w, 4);
    assert_eq!(cr_h, 4);
    assert_eq!(cb_s, cb);
    assert_eq!(cr_s, cr);
}

#[test]
fn subsample_chroma_420_halves_both() {
    let cb = vec![128u8; 8 * 8];
    let cr = vec![128u8; 8 * 8];
    let (_, cb_w, cb_h, _, cr_w, cr_h) = subsample_chroma(&cb, &cr, 8, 8, Subsampling::S420);
    assert_eq!(cb_w, 4);
    assert_eq!(cb_h, 4);
    assert_eq!(cr_w, 4);
    assert_eq!(cr_h, 4);
}

#[test]
fn subsample_chroma_422_halves_horizontal_only() {
    let cb = vec![128u8; 8 * 8];
    let cr = vec![128u8; 8 * 8];
    let (_, cb_w, cb_h, _, cr_w, cr_h) = subsample_chroma(&cb, &cr, 8, 8, Subsampling::S422);
    assert_eq!(cb_w, 4);
    assert_eq!(cb_h, 8);
    assert_eq!(cr_w, 4);
    assert_eq!(cr_h, 8);
}

#[test]
fn subsample_chroma_420_odd_size_rounds_up() {
    let cb = vec![50u8; 5 * 3];
    let cr = vec![60u8; 5 * 3];
    let (cb_s, cb_w, cb_h, cr_s, _, _) = subsample_chroma(&cb, &cr, 5, 3, Subsampling::S420);
    assert_eq!((cb_w, cb_h), (3, 2));
    assert_eq!(cb_s, vec![50u8; 6]);
    assert_eq!(cr_s, vec![60u8; 6]);
}

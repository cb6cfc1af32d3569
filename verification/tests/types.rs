use lib::error::Error;
use lib::types::{ColorSpace, EncoderConfig, RawImage, Subsampling};

#[test]
fn rgb_has_3_components() {
    assert_eq!(ColorSpace::Rgb.num_components(), 3);
}

#[test]
fn grayscale_has_1_component() {
    assert_eq!(ColorSpace::Grayscale.num_components(), 1);
}

#[test]
fn s444_factors() {
    let (hy, vy, hcb, vcb, hcr, vcr) = Subsampling::S444.factors();
    assert_eq!((hy, vy), (1, 1));
    assert_eq!((hcb, vcb), (1, 1));
    assert_eq!((hcr, vcr), (1, 1));
}

#[test]
fn s422_factors() {
    let (hy, vy, hcb, vcb, hcr, vcr) = Subsampling::S422.factors();
    assert_eq!((hy, vy), (2, 1));
    assert_eq!((hcb, vcb), (1, 1));
    assert_eq!((hcr, vcr), (1, 1));
}

#[test]
fn s420_factors() {
    let (hy, vy, hcb, vcb, hcr, vcr) = Subsampling::S420.factors();
    assert_eq!((hy, vy), (2, 2));
    assert_eq!((hcb, vcb), (1, 1));
    assert_eq!((hcr, vcr), (1, 1));
}

#[test]
fn h_max_values() {
    assert_eq!(Subsampling::S444.h_max(), 1);
    assert_eq!(Subsampling::S422.h_max(), 2);
    assert_eq!(Subsampling::S420.h_max(), 2);
}

#[test]
fn v_max_values() {
    assert_eq!(Subsampling::S444.v_max(), 1);
    assert_eq!(Subsampling::S422.v_max(), 1);
    assert_eq!(Subsampling::S420.v_max(), 2);
}

#[test]
fn default_config() {
    let c = EncoderConfig::default();
    assert_eq!(c.quality, 85);
    assert_eq!(c.subsampling, Subsampling::S420);
    assert_eq!(c.restart_interval, 0);
}

#[test]
fn default_config_density() {
    let c = EncoderConfig::default();
    assert_eq!((c.density_units, c.x_density, c.y_density), (0, 1, 1));
}

#[test]
fn validate_quality_bounds() {
    assert!(EncoderConfig { quality: 0, ..EncoderConfig::default() }.validate().is_err());
    assert!(EncoderConfig { quality: 1, ..EncoderConfig::default() }.validate().is_ok());
    assert!(EncoderConfig { quality: 100, ..EncoderConfig::default() }.validate().is_ok());
    assert!(EncoderConfig { quality: 101, ..EncoderConfig::default() }.validate().is_err());
}

#[test]
fn validate_quality_error_carries_value() {
    assert_eq!(
        EncoderConfig { quality: 200, ..EncoderConfig::default() }.validate(),
        Err(Error::InvalidQuality(200))
    );
}

#[test]
fn validate_correct_rgb() {
    let data = vec![0u8; 10 * 10 * 3];
    let img = RawImage { width: 10, height: 10, color_space: ColorSpace::Rgb, data: &data };
    assert!(img.validate().is_ok());
}

#[test]
fn validate_correct_grayscale() {
    let data = vec![0u8; 10 * 10];
    let img = RawImage { width: 10, height: 10, color_space: ColorSpace::Grayscale, data: &data };
    assert!(img.validate().is_ok());
}

#[test]
fn validate_zero_width() {
    let img = RawImage { width: 0, height: 10, color_space: ColorSpace::Rgb, data: &[] };
    assert!(matches!(img.validate(), Err(Error::InvalidDimensions { .. })));
}

#[test]
fn validate_zero_height() {
    let img = RawImage { width: 10, height: 0, color_space: ColorSpace::Rgb, data: &[] };
    assert!(matches!(img.validate(), Err(Error::InvalidDimensions { .. })));
}

#[test]
fn validate_too_large() {
    let img = RawImage { width: 65536, height: 1, color_space: ColorSpace::Rgb, data: &[] };
    assert!(matches!(img.validate(), Err(Error::InvalidDimensions { .. })));
}

#[test]
fn validate_buffer_too_small() {
    let data = vec![0u8; 10];
    let img = RawImage { width: 10, height: 10, color_space: ColorSpace::Rgb, data: &data };
    assert!(matches!(img.validate(), Err(Error::BufferSizeMismatch { .. })));
}

#[test]
fn validate_buffer_too_large() {
    let data = vec![0u8; 1000];
    let img = RawImage { width: 10, height: 10, color_space: ColorSpace::Rgb, data: &data };
    assert!(matches!(img.validate(), Err(Error::BufferSizeMismatch { .. })));
}

#[test]
fn validate_buffer_mismatch_reports_sizes() {
    let data = vec![0u8; 10];
    let img = RawImage { width: 10, height: 10, color_space: ColorSpace::Rgb, data: &data };
    assert_eq!(img.validate(), Err(Error::BufferSizeMismatch { expected: 300, actual: 10 }));
}

#[test]
fn validate_max_dimensions() {
    let data = vec![0u8; 65535];
    let img = RawImage { width: 65535, height: 1, color_space: ColorSpace::Grayscale, data: &data };
    assert!(img.validate().is_ok());
}

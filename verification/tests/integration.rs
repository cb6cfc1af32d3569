use lib::encoder::encode;
use lib::error::Error;
use lib::types::{ColorSpace, EncoderConfig, RawImage, Subsampling};

#[test]
fn encode_color_all_configs() {
    let w = 16u32;
    let h = 16u32;
    let mut pixels = Vec::with_capacity((w * h * 3) as usize);
    for y in 0..h {
        for x in 0..w {
            let r = (x * 255 / (w - 1)) as u8;
            let g = (y * 255 / (h - 1)) as u8;
            pixels.push(r);
            pixels.push(g);
            pixels.push(128u8);
        }
    }
    let image = RawImage { width: w, height: h, color_space: ColorSpace::Rgb, data: &pixels };
    for quality in [1, 50, 85, 100] {
        for sub in [Subsampling::S444, Subsampling::S422, Subsampling::S420] {
            let config = EncoderConfig { quality, subsampling: sub, ..EncoderConfig::default() };
            let data = encode(&image, &config).unwrap();
            assert_eq!(data[0..2], [0xFF, 0xD8], "SOI marker");
            assert_eq!(data[data.len() - 2..], [0xFF, 0xD9], "EOI marker");
        }
    }
}

#[test]
fn encode_grayscale() {
    let w = 16u32;
    let h = 16u32;
    let pixels: Vec<u8> = (0..w * h).map(|i| (i % 256) as u8).collect();
    let image = RawImage { width: w, height: h, color_space: ColorSpace::Grayscale, data: &pixels };
    let data = encode(&image, &EncoderConfig::default()).unwrap();
    assert_eq!(data[0..2], [0xFF, 0xD8]);
    assert_eq!(data[data.len() - 2..], [0xFF, 0xD9]);
}

#[test]
fn encode_with_restart_markers() {
    let w = 32u32;
    let h = 32u32;
    let pixels = vec![100u8; (w * h * 3) as usize];
    let image = RawImage { width: w, height: h, color_space: ColorSpace::Rgb, data: &pixels };
    let config = EncoderConfig { restart_interval: 2, ..EncoderConfig::default() };
    let data = encode(&image, &config).unwrap();
    assert_eq!(data[0..2], [0xFF, 0xD8]);
    assert_eq!(data[data.len() - 2..], [0xFF, 0xD9]);
    let has_rst = data.windows(2).any(|w| w[0] == 0xFF && (0xD0..=0xD7).contains(&w[1]));
    assert!(has_rst, "restart markers should be present when restart_interval > 0");
}

#[test]
fn encode_non_multiple_of_8() {
    for (w, h) in [(1, 1), (7, 7), (9, 9), (13, 11), (15, 17), (1, 100), (100, 1)] {
        let pixels = vec![128u8; (w * h * 3) as usize];
        let image = RawImage { width: w, height: h, color_space: ColorSpace::Rgb, data: &pixels };
        let data = encode(&image, &EncoderConfig::default()).unwrap();
        assert_eq!(data[0..2], [0xFF, 0xD8], "SOI for {}x{}", w, h);
        assert_eq!(data[data.len() - 2..], [0xFF, 0xD9], "EOI for {}x{}", w, h);
    }
}

#[test]
fn validation_rejects_invalid_input() {
    let bad = RawImage { width: 0, height: 10, color_space: ColorSpace::Rgb, data: &[] };
    assert!(bad.validate().is_err());
    let bad = RawImage { width: 10, height: 10, color_space: ColorSpace::Rgb, data: &[0; 10] };
    assert!(bad.validate().is_err());
    let config = EncoderConfig { quality: 0, ..EncoderConfig::default() };
    assert!(config.validate().is_err());
    let config = EncoderConfig { quality: 101, ..EncoderConfig::default() };
    assert!(config.validate().is_err());
}

#[test]
fn encode_full_pipeline_validation() {
    let bad_image = RawImage { width: 0, height: 10, color_space: ColorSpace::Rgb, data: &[] };
    assert!(encode(&bad_image, &EncoderConfig::default()).is_err());
    let pixels = vec![0u8; 10 * 10 * 3];
    let image = RawImage { width: 10, height: 10, color_space: ColorSpace::Rgb, data: &pixels };
    let bad_config = EncoderConfig { quality: 0, ..EncoderConfig::default() };
    assert!(encode(&image, &bad_config).is_err());
}

#[test]
fn encode_reports_image_errors_before_quality() {
    let bad_image = RawImage { width: 0, height: 10, color_space: ColorSpace::Rgb, data: &[] };
    let bad_config = EncoderConfig { quality: 0, ..EncoderConfig::default() };
    assert_eq!(encode(&bad_image, &bad_config), Err(Error::InvalidDimensions { width: 0, height: 10 }));
    let pixels = vec![0u8; 10];
    let image = RawImage { width: 2, height: 2, color_space: ColorSpace::Grayscale, data: &pixels };
    assert_eq!(encode(&image, &bad_config), Err(Error::BufferSizeMismatch { expected: 4, actual: 10 }));
    let pixels = vec![0u8; 4];
    let image = RawImage { width: 2, height: 2, color_space: ColorSpace::Grayscale, data: &pixels };
    assert_eq!(encode(&image, &bad_config), Err(Error::InvalidQuality(0)));
}

#[test]
fn encode_solid_color_images() {
    let w = 32u32;
    let h = 32u32;
    for color in [(255, 0, 0), (0, 255, 0), (0, 0, 255), (0, 0, 0), (255, 255, 255)] {
        let mut pixels = Vec::with_capacity((w * h * 3) as usize);
        for _ in 0..w * h {
            pixels.push(color.0);
            pixels.push(color.1);
            pixels.push(color.2);
        }
        let image = RawImage { width: w, height: h, color_space: ColorSpace::Rgb, data: &pixels };
        let data = encode(&image, &EncoderConfig::default()).unwrap();
        assert_eq!(data[0..2], [0xFF, 0xD8]);
        assert_eq!(data[data.len() - 2..], [0xFF, 0xD9]);
    }
}

#[test]
fn encode_grayscale_with_restart() {
    let w = 24u32;
    let h = 24u32;
    let pixels: Vec<u8> = (0..w * h).map(|i| (i % 256) as u8).collect();
    let image = RawImage { width: w, height: h, color_space: ColorSpace::Grayscale, data: &pixels };
    let config = EncoderConfig { restart_interval: 3, ..EncoderConfig::default() };
    let data = encode(&image, &config).unwrap();
    assert_eq!(data[0..2], [0xFF, 0xD8]);
    assert_eq!(data[data.len() - 2..], [0xFF, 0xD9]);
}

#[test]
fn higher_quality_produces_larger_file() {
    let w = 32u32;
    let h = 32u32;
    let mut pixels = Vec::new();
    for y in 0..h {
        for x in 0..w {
            pixels.push((x * 8) as u8);
            pixels.push((y * 8) as u8);
            pixels.push(128u8);
        }
    }
    let image = RawImage { width: w, height: h, color_space: ColorSpace::Rgb, data: &pixels };
    let low_q = encode(&image, &EncoderConfig { quality: 10, ..EncoderConfig::default() }).unwrap();
    let high_q = encode(&image, &EncoderConfig { quality: 95, ..EncoderConfig::default() }).unwrap();
    assert!(
        high_q.len() > low_q.len(),
        "quality 95 ({} bytes) should be larger than quality 10 ({} bytes)",
        high_q.len(), low_q.len(),
    );
}

#[test]
fn jfif_marker_present() {
    let pixels = vec![128u8; 8 * 8 * 3];
    let image = RawImage { width: 8, height: 8, color_space: ColorSpace::Rgb, data: &pixels };
    let data = encode(&image, &EncoderConfig::default()).unwrap();
    assert_eq!(data[2], 0xFF);
    assert_eq!(data[3], 0xE0);
    assert_eq!(&data[6..11], b"JFIF\0");
}

#[test]
fn grayscale_file_layout() {
    let pixels = vec![128u8; 8 * 8];
    let image = RawImage { width: 8, height: 8, color_space: ColorSpace::Grayscale, data: &pixels };
    let data = encode(&image, &EncoderConfig::default()).unwrap();
    // SOI, APP0 (18 bytes), DQT (69 bytes), then SOF0 with one component.
    assert_eq!(&data[0..2], &[0xFF, 0xD8]);
    assert_eq!(&data[20..22], &[0xFF, 0xDB]);
    assert_eq!(&data[89..91], &[0xFF, 0xC0]);
    assert_eq!(data[98], 1);
    // A flat block: DC category 0 and EOB, each a one-bit code 0, padded.
    assert_eq!(&data[data.len() - 3..], &[0x3F, 0xFF, 0xD9]);
}

#[test]
fn grayscale_without_restarts_encodes_every_image() {
    // Flat, gradient and pseudo-random images at several sizes and
    // qualities: without restart markers no Huffman code is ever missing.
    let mut seed = 12345u32;
    for (w, h) in [(1u32, 1u32), (8, 8), (17, 9), (40, 24)] {
        let n = (w * h) as usize;
        let flat = vec![200u8; n];
        let gradient: Vec<u8> = (0..n).map(|i| (i * 7 % 256) as u8).collect();
        let noise: Vec<u8> = (0..n)
            .map(|_| {
                seed = seed.wrapping_mul(1_103_515_245).wrapping_add(12345);
                (seed >> 16) as u8
            })
            .collect();
        for pixels in [&flat, &gradient, &noise] {
            let image = RawImage { width: w, height: h, color_space: ColorSpace::Grayscale, data: pixels };
            for quality in [1u8, 50, 100] {
                let config = EncoderConfig { quality, restart_interval: 0, ..EncoderConfig::default() };
                let data = encode(&image, &config).unwrap();
                assert_eq!(data[data.len() - 2..], [0xFF, 0xD9]);
            }
        }
    }
}

#[test]
fn color_444_without_restarts_encodes_every_image() {
    let mut seed = 777u32;
    for (w, h) in [(1u32, 1u32), (8, 8), (19, 5), (24, 24)] {
        let n = (w * h * 3) as usize;
        let flat = vec![90u8; n];
        let gradient: Vec<u8> = (0..n).map(|i| (i * 5 % 256) as u8).collect();
        let noise: Vec<u8> = (0..n)
            .map(|_| {
                seed = seed.wrapping_mul(1_103_515_245).wrapping_add(12345);
                (seed >> 16) as u8
            })
            .collect();
        for pixels in [&flat, &gradient, &noise] {
            let image = RawImage { width: w, height: h, color_space: ColorSpace::Rgb, data: pixels };
            for quality in [1u8, 60, 100] {
                let config = EncoderConfig {
                    quality,
                    subsampling: Subsampling::S444,
                    restart_interval: 0,
                    ..EncoderConfig::default()
                };
                let data = encode(&image, &config).unwrap();
                assert_eq!(data[data.len() - 2..], [0xFF, 0xD9]);
            }
        }
    }
}

#[test]
fn every_file_is_framed_by_soi_app0_and_eoi() {
    let rgb = vec![10u8; 9 * 7 * 3];
    let gray = vec![10u8; 9 * 7];
    let images = [
        RawImage { width: 9, height: 7, color_space: ColorSpace::Rgb, data: &rgb },
        RawImage { width: 9, height: 7, color_space: ColorSpace::Grayscale, data: &gray },
    ];
    for image in &images {
        for sub in [Subsampling::S444, Subsampling::S422, Subsampling::S420] {
            let config = EncoderConfig {
                quality: 70,
                subsampling: sub,
                restart_interval: 1,
                density_units: 1,
                x_density: 300,
                y_density: 0x1234,
            };
            let data = encode(image, &config).unwrap();
            let head: [u8; 20] = [
                0xFF, 0xD8, 0xFF, 0xE0, 0x00, 0x10, b'J', b'F', b'I', b'F', 0x00, 1, 2, 1, 0x01, 0x2C,
                0x12, 0x34, 0, 0,
            ];
            assert_eq!(data[..20], head);
            assert_eq!(data[data.len() - 2..], [0xFF, 0xD9]);
        }
    }
}

#[test]
fn mid_gray_image_with_default_settings_encodes() {
    let pixels = vec![128u8; 64 * 64 * 3];
    let image = RawImage { width: 64, height: 64, color_space: ColorSpace::Rgb, data: &pixels };
    let config = EncoderConfig { quality: 85, ..EncoderConfig::default() };
    let jpeg_bytes = encode(&image, &config).expect("encoding failed");
    assert_eq!(jpeg_bytes[..2], [0xFF, 0xD8]);
    assert_eq!(jpeg_bytes[jpeg_bytes.len() - 2..], [0xFF, 0xD9]);
}

#[test]
fn flat_rgb_block_with_default_settings_encodes() {
    // One 8x8 block of 200s, 4:2:0: the MCU codes its single luminance
    // block four times, the repeats with a DC difference of zero.
    let pixels = vec![200u8; 8 * 8 * 3];
    let image = RawImage { width: 8, height: 8, color_space: ColorSpace::Rgb, data: &pixels };
    let data = encode(&image, &EncoderConfig::default()).unwrap();
    assert_eq!(data[..2], [0xFF, 0xD8]);
    assert_eq!(data[data.len() - 2..], [0xFF, 0xD9]);
}

#[test]
fn every_valid_image_encodes_with_every_layout() {
    // Edge repeats of partial MCUs and DC predictions reset at restart
    // markers never leave a symbol without a Huffman code.
    let mut seed = 4242u32;
    for (w, h) in [(1u32, 1u32), (8, 8), (9, 17), (23, 10), (33, 33)] {
        let n = (w * h * 3) as usize;
        let flat = vec![200u8; n];
        let gradient: Vec<u8> = (0..n).map(|i| (i * 11 % 256) as u8).collect();
        let noise: Vec<u8> = (0..n)
            .map(|_| {
                seed = seed.wrapping_mul(1_103_515_245).wrapping_add(12345);
                (seed >> 16) as u8
            })
            .collect();
        for pixels in [&flat, &gradient, &noise] {
            let gray = &pixels[..(w * h) as usize];
            let images = [
                RawImage { width: w, height: h, color_space: ColorSpace::Rgb, data: pixels },
                RawImage { width: w, height: h, color_space: ColorSpace::Grayscale, data: gray },
            ];
            for image in &images {
                for sub in [Subsampling::S444, Subsampling::S422, Subsampling::S420] {
                    for restart_interval in [0u16, 1, 2, 3] {
                        for quality in [1u8, 85, 100] {
                            let config = EncoderConfig { quality, subsampling: sub, restart_interval, ..EncoderConfig::default() };
                            let data = encode(image, &config).unwrap();
                            assert_eq!(data[..2], [0xFF, 0xD8]);
                            assert_eq!(data[data.len() - 2..], [0xFF, 0xD9]);
                        }
                    }
                }
            }
        }
    }
}

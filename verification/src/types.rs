//! The encoder's input types: the raw image and the parameters that control
//! its compression.
use vstd::prelude::*;

use crate::error::Error;

verus! {

/// The color model of the source pixels.
#[derive(Debug, Clone, Copy, PartialEq, Eq, Structural)]
pub enum ColorSpace {
    /// Interleaved R, G, B bytes; converted to YCbCr by the encoder.
    Rgb,
    /// One byte per pixel, taken as the Y (luminance) component.
    Grayscale,
}

impl ColorSpace {
    /// Number of components per pixel.
    pub open spec fn spec_num_components(self) -> u8 {
        match self {
            ColorSpace::Rgb => 3,
            ColorSpace::Grayscale => 1,
        }
    }

    /// Number of components (channels) for this color space.
    pub fn num_components(self) -> (n: u8)
        ensures
            n == self.spec_num_components(),
    {
        match self {
            ColorSpace::Rgb => 3,
            ColorSpace::Grayscale => 1,
        }
    }
}

/// Chroma subsampling mode: the sampling factors of the SOF0 frame header
/// (T.81 §A.1.1, §B.2.2).
#[derive(Debug, Clone, Copy, PartialEq, Eq, Structural)]
pub enum Subsampling {
    /// 4:4:4: Y(1*1), Cb(1*1), Cr(1*1).
    S444,
    /// 4:2:2: Y(2*1), Cb(1*1), Cr(1*1).
    S422,
    /// 4:2:0: Y(2*2), Cb(1*1), Cr(1*1).
    S420,
}

impl Subsampling {
    /// `(H_y, V_y, H_cb, V_cb, H_cr, V_cr)`.
    pub open spec fn spec_factors(self) -> (u8, u8, u8, u8, u8, u8) {
        match self {
            Subsampling::S444 => (1, 1, 1, 1, 1, 1),
            Subsampling::S422 => (2, 1, 1, 1, 1, 1),
            Subsampling::S420 => (2, 2, 1, 1, 1, 1),
        }
    }

    /// The largest horizontal factor of the components.
    pub open spec fn spec_h_max(self) -> u8 {
        match self {
            Subsampling::S444 => 1,
            _ => 2,
        }
    }

    /// The largest vertical factor of the components.
    pub open spec fn spec_v_max(self) -> u8 {
        match self {
            Subsampling::S420 => 2,
            _ => 1,
        }
    }

    /// The sampling factors of all three components:
    /// `(H_y, V_y, H_cb, V_cb, H_cr, V_cr)`.
    pub fn factors(self) -> (f: (u8, u8, u8, u8, u8, u8))
        ensures
            f == self.spec_factors(),
    {
        match self {
            Subsampling::S444 => (1, 1, 1, 1, 1, 1),
            Subsampling::S422 => (2, 1, 1, 1, 1, 1),
            Subsampling::S420 => (2, 2, 1, 1, 1, 1),
        }
    }

    /// Maximum horizontal sampling factor across all components (Hmax).
    pub fn h_max(self) -> (h: u8)
        ensures
            h == self.spec_h_max(),
    {
        match self {
            Subsampling::S444 => 1,
            Subsampling::S422 | Subsampling::S420 => 2,
        }
    }

    /// Maximum vertical sampling factor across all components (Vmax).
    pub fn v_max(self) -> (v: u8)
        ensures
            v == self.spec_v_max(),
    {
        match self {
            Subsampling::S444 | Subsampling::S422 => 1,
            Subsampling::S420 => 2,
        }
    }
}

/// The maxima are the maxima of the factors, and the luminance factors are
/// the maxima: Y has the largest factors, the chroma factors are 1.
pub proof fn lemma_luma_has_max_factors(s: Subsampling)
    ensures
        s.spec_factors().0 == s.spec_h_max(),
        s.spec_factors().1 == s.spec_v_max(),
        s.spec_factors().2 == 1 && s.spec_factors().3 == 1,
        s.spec_factors().4 == 1 && s.spec_factors().5 == 1,
        s.spec_h_max() >= 1 && s.spec_v_max() >= 1,
{
}

/// Parameters that control the encoding.
#[derive(Debug, Clone)]
pub struct EncoderConfig {
    /// Quality factor in 1..=100 (IJG scaling of the Annex K tables).
    pub quality: u8,
    /// Chroma subsampling mode.
    pub subsampling: Subsampling,
    /// Restart interval in MCUs (0 = no restart markers).
    pub restart_interval: u16,
    /// JFIF density unit (0 = aspect ratio only, 1 = dots/inch, 2 = dots/cm).
    pub density_units: u8,
    /// Horizontal pixel density.
    pub x_density: u16,
    /// Vertical pixel density.
    pub y_density: u16,
}

impl Default for EncoderConfig {
    /// Quality 85, 4:2:0, no restart markers, 1:1 aspect ratio.
    fn default() -> (c: Self)
        ensures
            c.quality == 85,
            c.subsampling == Subsampling::S420,
            c.restart_interval == 0,
            c.density_units == 0,
            c.x_density == 1,
            c.y_density == 1,
    {
        EncoderConfig {
            quality: 85,
            subsampling: Subsampling::S420,
            restart_interval: 0,
            density_units: 0,
            x_density: 1,
            y_density: 1,
        }
    }
}

impl EncoderConfig {
    /// The quality is in 1..=100.
    pub open spec fn valid(&self) -> bool {
        1 <= self.quality <= 100
    }

    /// Checks the configuration: an invalid quality is the only error.
    pub fn validate(&self) -> (r: Result<(), Error>)
        ensures
            r.is_ok() <==> self.valid(),
            !self.valid() ==> r == Err::<(), Error>(Error::InvalidQuality(self.quality)),
    {
        if self.quality == 0 || self.quality > 100 {
            return Err(Error::InvalidQuality(self.quality));
        }
        Ok(())
    }
}

/// A raw image borrowed from the caller: interleaved R, G, B bytes (or one
/// byte per pixel for grayscale) in row-major order, top row first.
#[derive(Debug, Clone)]
pub struct RawImage<'a> {
    /// Image width in pixels (1..=65535).
    pub width: u32,
    /// Image height in pixels (1..=65535).
    pub height: u32,
    /// The color model of the pixel data.
    pub color_space: ColorSpace,
    /// The pixel data.
    pub data: &'a [u8],
}

impl<'a> RawImage<'a> {
    /// Both dimensions are in 1..=65535 (T.81 §B.2.2, parameters X and Y).
    pub open spec fn dimensions_valid(&self) -> bool {
        1 <= self.width <= 65535 && 1 <= self.height <= 65535
    }

    /// Number of bytes the pixel buffer must hold.
    pub open spec fn expected_len(&self) -> int {
        self.width * self.height * self.color_space.spec_num_components()
    }

    /// The dimensions are valid and the buffer holds exactly one sample per
    /// pixel and component.
    pub open spec fn valid(&self) -> bool {
        self.dimensions_valid() && self.data@.len() == self.expected_len()
    }

    /// Validates dimensions and buffer size.
    ///
    /// `InvalidDimensions` when a dimension is 0 or above 65535; otherwise
    /// `BufferSizeMismatch` when the buffer length is not
    /// width * height * components.
    pub fn validate(&self) -> (r: Result<(), Error>)
        ensures
            r.is_ok() <==> self.valid(),
            !self.dimensions_valid() ==> r == Err::<(), Error>(
                Error::InvalidDimensions { width: self.width, height: self.height },
            ),
            self.dimensions_valid() && !self.valid() ==> r == Err::<(), Error>(
                Error::BufferSizeMismatch {
                    expected: self.expected_len() as usize,
                    actual: self.data@.len() as usize,
                },
            ),
    {
        if self.width == 0 || self.height == 0 || self.width > 65535 || self.height > 65535 {
            return Err(Error::InvalidDimensions { width: self.width, height: self.height });
        }
        let nc = self.color_space.num_components();
        assert(self.width as u64 * self.height as u64 <= 65535 * 65535) by (nonlinear_arith)
            requires
                self.width <= 65535,
                self.height <= 65535,
        ;
        let area: u64 = self.width as u64 * self.height as u64;
        assert(area * nc <= 65535 * 65535 * 3) by (nonlinear_arith)
            requires
                area <= 65535 * 65535,
                nc <= 3,
        ;
        let expected: u64 = area * nc as u64;
        if self.data.len() as u64 != expected {
            return Err(Error::BufferSizeMismatch { expected: expected as usize, actual: self.data.len() });
        }
        Ok(())
    }
}

} // verus!

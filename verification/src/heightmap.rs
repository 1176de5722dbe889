//! The byte raster behind a heightmap.
//!
//! A heightmap is a rectangle of single-channel samples, one byte each,
//! stored row by row. It is made once, from the red channel of an RGB
//! image, and only read afterwards. Turning a sample into a height and
//! blending the four samples around a point is the caller's arithmetic;
//! which four samples those are is decided here.

use vstd::prelude::*;

verus! {

/// Why a heightmap could not be made.
#[derive(Clone, Copy, Debug, PartialEq, Eq, Structural)]
pub enum HeightmapError {
    /// The bytes are not a PNG image that can be decoded.
    Decode,
    /// The image has no pixel.
    Empty,
    /// The pixel buffer does not hold three bytes for each pixel.
    SizeMismatch,
}

/// An RGB image as a decoder hands it over: three bytes for each pixel,
/// row by row.
struct RgbRaster {
    width: u32,
    height: u32,
    raw: Vec<u8>,
}

/// The four samples around a point of the raster: `r00` at the cell's own
/// column and row, `r10` one column on, `r01` one row on, `r11` both.
#[derive(Clone, Copy, Debug, PartialEq, Eq, Structural)]
pub struct CornerSamples {
    pub r00: u8,
    pub r10: u8,
    pub r01: u8,
    pub r11: u8,
}

/// Single-channel raster of height samples.
pub struct Heightmap {
    width: u32,
    height: u32,
    data_r: Vec<u8>,
}

/// The error of the `image` crate, taken as it comes and never looked
/// into.
#[verifier::external_type_specification]
#[verifier::external_body]
pub struct ExImageError(image::ImageError);

/// What decoding `bytes` as a PNG image and converting the image to 8-bit
/// RGB gives: width, height and the pixel buffer; `None` where the bytes
/// cannot be decoded.
pub uninterp spec fn png_rgb8(bytes: Seq<u8>) -> Option<(u32, u32, Seq<u8>)>;

/// Decodes a PNG image held in memory with `image::load_from_memory_with_format`,
/// converts it with `DynamicImage::to_rgb8`, and takes the result apart with
/// `ImageBuffer::dimensions` and `ImageBuffer::into_raw`.
///
/// Not proved: that the outcome is the one named [`png_rgb8`], which is to
/// say that it depends on the bytes alone.
#[verifier::external_body]
fn decode_png_rgb8(bytes: &[u8]) -> (r: Result<RgbRaster, image::ImageError>)
    ensures
        match r {
            Ok(img) => png_rgb8(bytes@) == Some((img.width, img.height, img.raw@)),
            Err(_) => png_rgb8(bytes@) is None,
        },
{
    let img = image::load_from_memory_with_format(bytes, image::ImageFormat::Png)?.to_rgb8();
    let (width, height) = img.dimensions();
    Ok(RgbRaster { width, height, raw: img.into_raw() })
}

/// The first of every three bytes.
pub open spec fn red_channel(raw: Seq<u8>) -> Seq<u8> {
    Seq::new((raw.len() / 3) as nat, |k: int| raw[3 * k])
}

/// The index next to `i` in a row or column of `n` samples; the last one
/// stays in place.
pub open spec fn next_clamped(i: int, n: int) -> int {
    if i + 1 <= n - 1 {
        i + 1
    } else {
        n - 1
    }
}

impl Heightmap {
    #[verifier::type_invariant]
    spec fn rectangular(self) -> bool {
        &&& self.width > 0
        &&& self.height > 0
        &&& self.data_r@.len() == self.width * self.height
    }

    /// Number of samples in a row.
    pub closed spec fn spec_width(&self) -> u32 {
        self.width
    }

    /// Number of rows.
    pub closed spec fn spec_height(&self) -> u32 {
        self.height
    }

    /// The samples, row by row.
    pub closed spec fn samples(&self) -> Seq<u8> {
        self.data_r@
    }

    /// The sample in column `x` of row `z`.
    pub open spec fn texel(&self, x: int, z: int) -> u8 {
        self.samples()[z * self.spec_width() + x]
    }

    /// Whether column `x` of row `z` exists.
    pub open spec fn covers(&self, x: int, z: int) -> bool {
        0 <= x < self.spec_width() && 0 <= z < self.spec_height()
    }

    /// A raster has at least one sample, and exactly one for each column
    /// of each row.
    pub open spec fn shaped(&self) -> bool {
        &&& self.spec_width() > 0
        &&& self.spec_height() > 0
        &&& self.samples().len() == self.spec_width() * self.spec_height()
    }

    /// Whether `r` is what making a heightmap from a `width` by `height`
    /// RGB image with the pixel buffer `raw` gives: `Empty` for an image
    /// without pixels, else `SizeMismatch` for a buffer that does not hold
    /// three bytes for each pixel, else the raster of the red channel.
    pub open spec fn made_from(
        r: Result<Heightmap, HeightmapError>,
        width: u32,
        height: u32,
        raw: Seq<u8>,
    ) -> bool {
        if width == 0 || height == 0 {
            r matches Err(e) && e == HeightmapError::Empty
        } else if raw.len() != 3 * (width * height) {
            r matches Err(e) && e == HeightmapError::SizeMismatch
        } else {
            r matches Ok(map) && map.spec_width() == width && map.spec_height() == height
                && map.samples() == red_channel(raw) && map.shaped()
        }
    }

    /// Makes a heightmap from the red channel of an RGB image.
    ///
    /// An image without pixels is refused as `Empty`; a buffer that does
    /// not hold three bytes for each pixel is refused as `SizeMismatch`.
    pub fn from_rgb8(width: u32, height: u32, raw: &Vec<u8>) -> (r: Result<
        Heightmap,
        HeightmapError,
    >)
        ensures
            Heightmap::made_from(r, width, height, raw@),
    {
        if width == 0 || height == 0 {
            return Err(HeightmapError::Empty);
        }
        proof {
            assert(0 < width * height <= 0xffff_ffff * 0xffff_ffff) by (nonlinear_arith)
                requires
                    0 < width <= 0xffff_ffff,
                    0 < height <= 0xffff_ffff,
            ;
        }
        let pixels: u128 = width as u128 * height as u128;
        if raw.len() as u128 != 3 * pixels {
            return Err(HeightmapError::SizeMismatch);
        }
        let mut red: Vec<u8> = Vec::new();
        let mut k: usize = 0;
        while k < raw.len() / 3
            invariant
                raw@.len() == 3 * pixels,
                0 <= k <= raw@.len() / 3,
                red@.len() == k,
                forall|m: int| 0 <= m < k ==> red@[m] == #[trigger] raw@[3 * m],
            decreases raw.len() / 3 - k,
        {
            red.push(raw[3 * k]);
            k = k + 1;
        }
        proof {
            assert(red@ =~= red_channel(raw@));
        }
        Ok(Heightmap { width, height, data_r: red })
    }

    /// Makes a heightmap from the red channel of a PNG image held in
    /// memory.
    ///
    /// Bytes that do not decode are refused as `Decode`; what decodes is
    /// made into a heightmap as [`Heightmap::from_rgb8`] makes it.
    pub fn from_png(bytes: &[u8]) -> (r: Result<Heightmap, HeightmapError>)
        ensures
            match png_rgb8(bytes@) {
                None => r matches Err(e) && e == HeightmapError::Decode,
                Some(img) => Heightmap::made_from(r, img.0, img.1, img.2),
            },
    {
        match decode_png_rgb8(bytes) {
            Ok(img) => Heightmap::from_rgb8(img.width, img.height, &img.raw),
            Err(_) => Err(HeightmapError::Decode),
        }
    }

    /// Number of samples in a row.
    pub fn width(&self) -> (w: u32)
        ensures
            w == self.spec_width(),
            self.shaped(),
    {
        proof {
            use_type_invariant(self);
        }
        self.width
    }

    /// Number of rows.
    pub fn height(&self) -> (h: u32)
        ensures
            h == self.spec_height(),
            self.shaped(),
    {
        proof {
            use_type_invariant(self);
        }
        self.height
    }

    /// Reads the sample in column `x` of row `z`; `None` where the raster
    /// has no such column or row.
    pub fn sample(&self, x: u32, z: u32) -> (s: Option<u8>)
        ensures
            s == (if self.covers(x as int, z as int) {
                Some(self.texel(x as int, z as int))
            } else {
                None
            }),
    {
        proof {
            use_type_invariant(self);
        }
        if x < self.width && z < self.height {
            let len: usize = self.data_r.len();
            proof {
                lemma_cell_index(x as int, z as int, self.width as int, self.height as int);
                assert(self.data_r@.len() == (self.width as int) * (self.height as int));
            }
            let idx: usize = z as usize * self.width as usize + x as usize;
            Some(self.data_r[idx])
        } else {
            None
        }
    }

    /// Reads the four samples around a point whose column and row, rounded
    /// down, are `x0` and `z0`: the samples between which a height at that
    /// point is blended. In the last column, and in the last row, the
    /// sample stands in for the neighbour it lacks. `None` where the
    /// raster has no such column or row: the point lies outside the map.
    pub fn corners(&self, x0: i64, z0: i64) -> (c: Option<CornerSamples>)
        ensures
            c is Some == self.covers(x0 as int, z0 as int),
            c matches Some(s) ==> {
                let x1 = next_clamped(x0 as int, self.spec_width() as int);
                let z1 = next_clamped(z0 as int, self.spec_height() as int);
                &&& s.r00 == self.texel(x0 as int, z0 as int)
                &&& s.r10 == self.texel(x1, z0 as int)
                &&& s.r01 == self.texel(x0 as int, z1)
                &&& s.r11 == self.texel(x1, z1)
            },
    {
        proof {
            use_type_invariant(self);
        }
        if x0 < 0 || z0 < 0 || x0 >= self.width as i64 || z0 >= self.height as i64 {
            return None;
        }
        let len: usize = self.data_r.len();
        let w: usize = self.width as usize;
        let xa: usize = x0 as usize;
        let za: usize = z0 as usize;
        let xb: usize = if x0 + 1 <= self.width as i64 - 1 {
            xa + 1
        } else {
            xa
        };
        let zb: usize = if z0 + 1 <= self.height as i64 - 1 {
            za + 1
        } else {
            za
        };
        proof {
            lemma_cell_index(xa as int, za as int, self.width as int, self.height as int);
            lemma_cell_index(xb as int, za as int, self.width as int, self.height as int);
            lemma_cell_index(xa as int, zb as int, self.width as int, self.height as int);
            lemma_cell_index(xb as int, zb as int, self.width as int, self.height as int);
            assert(self.data_r@.len() == (self.width as int) * (self.height as int));
        }
        Some(
            CornerSamples {
                r00: self.data_r[za * w + xa],
                r10: self.data_r[za * w + xb],
                r01: self.data_r[zb * w + xa],
                r11: self.data_r[zb * w + xb],
            },
        )
    }
}

/// The index of a cell of a row-by-row rectangle lies inside it.
proof fn lemma_cell_index(x: int, z: int, w: int, h: int)
    requires
        0 <= x < w,
        0 <= z < h,
    ensures
        0 <= z * w <= z * w + x < w * h,
{
    assert(0 <= z * w && z * w + x < w * h) by (nonlinear_arith)
        requires
            0 <= x < w,
            0 <= z < h,
    ;
}

} // verus!

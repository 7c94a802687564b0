//! RGBA8 images, and their PNG encoding through the `png` crate.

use png::ColorType;
use vstd::prelude::*;
use vstd::string::*;

verus! {

/// An RGBA8 image: row-major, four bytes per pixel.
pub struct Image {
    pub width: u32,
    pub height: u32,
    pub data: Vec<u8>,
}

/// Pixel layout of a decoded PNG frame.
#[derive(Clone, Copy, Debug, PartialEq, Eq, Structural)]
pub enum PngColor {
    Grayscale,
    Rgb,
    Indexed,
    GrayscaleAlpha,
    Rgba,
}

/// Which step of PNG work failed: the header, or the image data.
#[derive(Clone, Copy, Debug, PartialEq, Eq, Structural)]
pub enum PngStep {
    Header,
    Data,
}

/// What the `png` crate makes of `bytes`: the first frame's width, height,
/// pixel layout and samples, or the failing step and the crate's message.
pub uninterp spec fn png_decode(bytes: Seq<u8>) -> Result<(u32, u32, PngColor, Seq<u8>), (PngStep, Seq<char>)>;

/// What the `png` crate writes for an 8-bit RGBA image of the given size
/// and samples, or the failing step and the crate's message.
pub uninterp spec fn png_encode_rgba(width: u32, height: u32, data: Seq<u8>) -> Result<Seq<u8>, (PngStep, Seq<char>)>;

/// Decodes the first frame of a PNG with `png::Decoder` (`read_info`, then
/// `next_frame` into a buffer of `output_buffer_size` bytes, cut to the
/// frame's `buffer_size`). The result is named, not described: it is
/// whatever the crate produces for these bytes.
#[verifier::external_body]
fn decode_png_frame(bytes: &[u8]) -> (r: Result<(u32, u32, PngColor, Vec<u8>), (PngStep, String)>)
    ensures
        match r {
            Ok((w, h, c, px)) => png_decode(bytes@) == Ok::<(u32, u32, PngColor, Seq<u8>), (PngStep, Seq<char>)>((w, h, c, px@)),
            Err((s, m)) => png_decode(bytes@) == Err::<(u32, u32, PngColor, Seq<u8>), (PngStep, Seq<char>)>((s, m@)),
        },
{
    let decoder = png::Decoder::new(std::io::Cursor::new(bytes));
    let mut reader = decoder.read_info().map_err(|e| (PngStep::Header, e.to_string()))?;
    let mut buf = vec![0u8; reader.output_buffer_size()];
    let info = reader.next_frame(&mut buf).map_err(|e| (PngStep::Data, e.to_string()))?;
    buf.truncate(info.buffer_size());
    let color = match info.color_type {
        ColorType::Grayscale => PngColor::Grayscale,
        ColorType::Rgb => PngColor::Rgb,
        ColorType::Indexed => PngColor::Indexed,
        ColorType::GrayscaleAlpha => PngColor::GrayscaleAlpha,
        ColorType::Rgba => PngColor::Rgba,
    };
    Ok((info.width, info.height, color, buf))
}

/// Encodes 8-bit RGBA samples as a PNG with `png::Encoder` (`set_color`
/// RGBA, `set_depth` eight, `write_header`, `write_image_data`). The result
/// is named, not described. `write_image_data` multiplies the row length,
/// `width * 4`, by `height` without a check, so the product must fit in a
/// `usize`; zero sizes are refused by `write_header` with an error.
#[verifier::external_body]
fn encode_rgba_png(width: u32, height: u32, data: &[u8]) -> (r: Result<Vec<u8>, (PngStep, String)>)
    requires
        width * height * 4 <= usize::MAX,
    ensures
        match r {
            Ok(out) => png_encode_rgba(width, height, data@) == Ok::<Seq<u8>, (PngStep, Seq<char>)>(out@),
            Err((s, m)) => png_encode_rgba(width, height, data@) == Err::<Seq<u8>, (PngStep, Seq<char>)>((s, m@)),
        },
{
    let mut out = Vec::new();
    {
        let mut encoder = png::Encoder::new(&mut out, width, height);
        encoder.set_color(ColorType::Rgba);
        encoder.set_depth(png::BitDepth::Eight);
        let mut writer = encoder.write_header().map_err(|e| (PngStep::Header, e.to_string()))?;
        writer.write_image_data(data).map_err(|e| (PngStep::Data, e.to_string()))?;
    }
    Ok(out)
}

/// `src`'s samples in `color`'s layout, as RGBA8: gray repeats into red,
/// green and blue, a missing alpha is 255, and samples that do not fill a
/// whole pixel at the end are dropped.
pub open spec fn to_rgba(color: PngColor, src: Seq<u8>) -> Seq<u8> {
    match color {
        PngColor::Rgba => src,
        PngColor::Rgb => Seq::new(
            ((src.len() / 3) * 4) as nat,
            |i: int| if i % 4 == 3 { 255u8 } else { src[(i / 4) * 3 + i % 4] },
        ),
        PngColor::Grayscale => Seq::new(
            (src.len() * 4) as nat,
            |i: int| if i % 4 == 3 { 255u8 } else { src[i / 4] },
        ),
        PngColor::GrayscaleAlpha => Seq::new(
            ((src.len() / 2) * 4) as nat,
            |i: int| if i % 4 == 3 { src[(i / 4) * 2 + 1] } else { src[(i / 4) * 2] },
        ),
        PngColor::Indexed => Seq::empty(),
    }
}

pub open spec fn indexed_message() -> Seq<char> {
    "indexed PNG not supported; convert to RGBA first"@
}

proof fn lemma_pixel_index(p: int, j: int)
    requires
        0 <= p,
        0 <= j < 4,
    ensures
        (4 * p + j) / 4 == p,
        (4 * p + j) % 4 == j,
{
    assert((4 * p + j) / 4 == p && (4 * p + j) % 4 == j) by (nonlinear_arith)
        requires
            0 <= p,
            0 <= j < 4,
    ;
}

impl Image {
    /// An image over `data`, which holds exactly `width * height` pixels.
    pub fn new(width: u32, height: u32, data: Vec<u8>) -> (img: Self)
        requires
            data@.len() == width * height * 4,
        ensures
            img.width == width,
            img.height == height,
            img.data@ == data@,
    {
        Image { width, height, data }
    }

    /// An image whose every pixel is `rgba`.
    pub fn solid(width: u32, height: u32, rgba: [u8; 4]) -> (img: Self)
        requires
            width * height * 4 <= usize::MAX,
        ensures
            img.width == width,
            img.height == height,
            img.data@.len() == width * height * 4,
            forall|i: int| 0 <= i < img.data@.len() ==> #[trigger] img.data@[i] == rgba@[i % 4],
    {
        let pixel_count = (width as usize) * (height as usize);
        let mut data: Vec<u8> = Vec::new();
        let mut p: usize = 0;
        while p < pixel_count
            invariant
                p <= pixel_count,
                pixel_count == width * height,
                pixel_count * 4 <= usize::MAX,
                data@.len() == 4 * p,
                forall|i: int| 0 <= i < data@.len() ==> #[trigger] data@[i] == rgba@[i % 4],
            decreases pixel_count - p,
        {
            let ghost before = data@;
            data.push(rgba[0]);
            data.push(rgba[1]);
            data.push(rgba[2]);
            data.push(rgba[3]);
            proof {
                assert forall|i: int| 0 <= i < data@.len() implies #[trigger] data@[i] == rgba@[i % 4] by {
                    if i >= before.len() {
                        lemma_pixel_index(p as int, i - 4 * p);
                    } else {
                        assert(data@[i] == before[i]);
                    }
                }
            }
            p = p + 1;
        }
        Image { width, height, data }
    }

    /// An image from a decoded PNG frame, converted to RGBA8. Palette
    /// frames are refused.
    pub fn from_png_frame(width: u32, height: u32, color: PngColor, pixels: &[u8]) -> (r: Result<Image, String>)
        ensures
            match r {
                Ok(img) => color != PngColor::Indexed && img.width == width && img.height == height
                    && img.data@ == to_rgba(color, pixels@),
                Err(m) => color == PngColor::Indexed && m@ == indexed_message(),
            },
    {
        let n = pixels.len();
        let mut out: Vec<u8> = Vec::new();
        match color {
            PngColor::Indexed => {
                return Err(String::from_str("indexed PNG not supported; convert to RGBA first"));
            },
            PngColor::Rgba => {
                let mut i: usize = 0;
                while i < n
                    invariant
                        i <= n,
                        n == pixels@.len(),
                        out@ == pixels@.subrange(0, i as int),
                    decreases n - i,
                {
                    out.push(pixels[i]);
                    i = i + 1;
                    proof {
                        assert(pixels@.subrange(0, i as int) =~= pixels@.subrange(0, i - 1).push(pixels@[i - 1]));
                    }
                }
                proof {
                    assert(pixels@.subrange(0, n as int) =~= pixels@);
                }
            },
            PngColor::Rgb => {
                let count = n / 3;
                let mut p: usize = 0;
                while p < count
                    invariant
                        p <= count,
                        count == n / 3,
                        n == pixels@.len(),
                        out@.len() == 4 * p,
                        forall|i: int| 0 <= i < out@.len() ==> #[trigger] out@[i] == (if i % 4 == 3 { 255u8 } else { pixels@[(i / 4) * 3 + i % 4] }),
                    decreases count - p,
                {
                    let ghost before = out@;
                    out.push(pixels[3 * p]);
                    out.push(pixels[3 * p + 1]);
                    out.push(pixels[3 * p + 2]);
                    out.push(255u8);
                    proof {
                        assert forall|i: int| 0 <= i < out@.len() implies #[trigger] out@[i] == (if i % 4 == 3 { 255u8 } else { pixels@[(i / 4) * 3 + i % 4] }) by {
                            if i >= before.len() {
                                lemma_pixel_index(p as int, i - 4 * p);
                            } else {
                                assert(out@[i] == before[i]);
                            }
                        }
                    }
                    p = p + 1;
                }
                proof {
                    assert(out@ =~= to_rgba(color, pixels@));
                }
            },
            PngColor::Grayscale => {
                let mut p: usize = 0;
                while p < n
                    invariant
                        p <= n,
                        n == pixels@.len(),
                        out@.len() == 4 * p,
                        forall|i: int| 0 <= i < out@.len() ==> #[trigger] out@[i] == (if i % 4 == 3 { 255u8 } else { pixels@[i / 4] }),
                    decreases n - p,
                {
                    let ghost before = out@;
                    let g = pixels[p];
                    out.push(g);
                    out.push(g);
                    out.push(g);
                    out.push(255u8);
                    proof {
                        assert forall|i: int| 0 <= i < out@.len() implies #[trigger] out@[i] == (if i % 4 == 3 { 255u8 } else { pixels@[i / 4] }) by {
                            if i >= before.len() {
                                lemma_pixel_index(p as int, i - 4 * p);
                            } else {
                                assert(out@[i] == before[i]);
                            }
                        }
                    }
                    p = p + 1;
                }
                proof {
                    assert(out@ =~= to_rgba(color, pixels@));
                }
            },
            PngColor::GrayscaleAlpha => {
                let count = n / 2;
                let mut p: usize = 0;
                while p < count
                    invariant
                        p <= count,
                        count == n / 2,
                        n == pixels@.len(),
                        out@.len() == 4 * p,
                        forall|i: int| 0 <= i < out@.len() ==> #[trigger] out@[i] == (if i % 4 == 3 { pixels@[(i / 4) * 2 + 1] } else { pixels@[(i / 4) * 2] }),
                    decreases count - p,
                {
                    let ghost before = out@;
                    let g = pixels[2 * p];
                    let a = pixels[2 * p + 1];
                    out.push(g);
                    out.push(g);
                    out.push(g);
                    out.push(a);
                    proof {
                        assert forall|i: int| 0 <= i < out@.len() implies #[trigger] out@[i] == (if i % 4 == 3 { pixels@[(i / 4) * 2 + 1] } else { pixels@[(i / 4) * 2] }) by {
                            if i >= before.len() {
                                lemma_pixel_index(p as int, i - 4 * p);
                            } else {
                                assert(out@[i] == before[i]);
                            }
                        }
                    }
                    p = p + 1;
                }
                proof {
                    assert(out@ =~= to_rgba(color, pixels@));
                }
            },
        }
        Ok(Image { width, height, data: out })
    }

    /// Decode a PNG into an RGBA8 image.
    pub fn decode_png(bytes: &[u8]) -> (r: Result<Image, String>)
        ensures
            match png_decode(bytes@) {
                Err((PngStep::Header, m)) => r matches Err(e) && e@ == "PNG header: "@ + m,
                Err((PngStep::Data, m)) => r matches Err(e) && e@ == "PNG decode: "@ + m,
                Ok((w, h, c, px)) => match r {
                    Ok(img) => c != PngColor::Indexed && img.width == w && img.height == h
                        && img.data@ == to_rgba(c, px),
                    Err(e) => c == PngColor::Indexed && e@ == indexed_message(),
                },
            },
    {
        match decode_png_frame(bytes) {
            Err((PngStep::Header, m)) => Err(String::from_str("PNG header: ").concat(m.as_str())),
            Err((PngStep::Data, m)) => Err(String::from_str("PNG decode: ").concat(m.as_str())),
            Ok((w, h, c, px)) => Image::from_png_frame(w, h, c, px.as_slice()),
        }
    }

    /// Encode the image as an 8-bit RGBA PNG. The image's byte size,
    /// `width * height * 4`, must fit in a `usize`.
    pub fn encode_png(&self) -> (r: Result<Vec<u8>, String>)
        requires
            self.width * self.height * 4 <= usize::MAX,
        ensures
            match png_encode_rgba(self.width, self.height, self.data@) {
                Ok(out) => r matches Ok(v) && v@ == out,
                Err((PngStep::Header, m)) => r matches Err(e) && e@ == "PNG encode header: "@ + m,
                Err((PngStep::Data, m)) => r matches Err(e) && e@ == "PNG encode data: "@ + m,
            },
    {
        match encode_rgba_png(self.width, self.height, self.data.as_slice()) {
            Ok(out) => Ok(out),
            Err((PngStep::Header, m)) => Err(String::from_str("PNG encode header: ").concat(m.as_str())),
            Err((PngStep::Data, m)) => Err(String::from_str("PNG encode data: ").concat(m.as_str())),
        }
    }

    /// The RGBA pixel at column `x`, row `y`.
    pub fn pixel(&self, x: u32, y: u32) -> (r: [u8; 4])
        requires
            (y * self.width + x) * 4 + 4 <= self.data@.len(),
        ensures
            r@ == self.data@.subrange((y * self.width + x) * 4, (y * self.width + x) * 4 + 4),
    {
        let n = self.data.len();
        let row = y as usize;
        let w = self.width as usize;
        proof {
            assert(row * w == y * self.width);
            assert(row * w + x <= n);
        }
        let offset = (row * w + (x as usize)) * 4;
        let r = [self.data[offset], self.data[offset + 1], self.data[offset + 2], self.data[offset + 3]];
        proof {
            assert(r@ =~= self.data@.subrange(offset as int, offset + 4));
        }
        r
    }

    /// Bytes of pixel data.
    pub fn size_bytes(&self) -> (r: usize)
        ensures
            r == self.data@.len(),
    {
        self.data.len()
    }
}

} // verus!

//! A width × height grid of RGB triples, stored row by row, and its
//! plain-text PPM encoding.
//!
//! Pixel `(x, y)` sits at `width * y + x`, and the file lists the pixels in
//! that same order: `y` is the outer loop, `x` the inner one, so the first
//! number of the header is the length of a row.
use vstd::prelude::*;
use crate::codec::{
    body_text, header_text, is_ppm_of, lemma_ppm_text_determines_grid, parse_body, parse_header,
    ppm_text, push_decimal,
};

verus! {

/// Three 8-bit channels: red, green, blue.
pub type Rgb = [u8; 3];

/// Why a raster operation was refused.
#[derive(Debug, Clone, Copy, PartialEq, Eq, Structural)]
pub enum RasterError {
    /// A dimension is zero, or the pixel storage would not fit in memory.
    Allocation,
    /// A pixel coordinate lies outside the grid.
    Index,
    /// The PNG encoder refused the grid.
    Encode,
}

#[verifier::external_type_specification]
#[verifier::external_body]
pub struct ExImageError(image::ImageError);

/// The PNG file that the `image` crate writes for an RGB image, 8 bits a
/// channel, of the given dimensions and channel bytes.
pub uninterp spec fn png_of(width: nat, height: nat, rgb: Seq<u8>) -> Seq<u8>;

/// Relies on `image::codecs::png::PngEncoder::write_image` with
/// `ExtendedColorType::Rgb8`, writing into a byte vector: on success the
/// bytes depend on the dimensions and the channel bytes alone. It panics
/// unless the buffer holds exactly three bytes a pixel.
#[verifier::external_body]
fn png_encode(rgb: &Vec<u8>, width: u32, height: u32) -> (r: Result<Vec<u8>, image::ImageError>)
    requires
        rgb@.len() == width * height * 3,
    ensures
        r matches Ok(b) ==> b@ == png_of(width as nat, height as nat, rgb@),
{
    let mut out: Vec<u8> = Vec::new();
    image::ImageEncoder::write_image(
        image::codecs::png::PngEncoder::new(&mut out),
        rgb.as_slice(),
        width,
        height,
        image::ExtendedColorType::Rgb8,
    )?;
    Ok(out)
}

/// Whether a `width` × `height` grid can be allocated: no dimension is zero
/// and its bytes fit in the largest allocation (`isize::MAX` bytes).
pub open spec fn dims_ok(width: int, height: int) -> bool {
    &&& width > 0
    &&& height > 0
    &&& width * height * 3 <= isize::MAX
}

/// Position in the pixel sequence of pixel `(x, y)`: rows of `width` pixels,
/// `y` selecting the row.
pub open spec fn index_of(width: int, x: int, y: int) -> int {
    width * y + x
}

/// The channel bytes of `pixels`: red, green and blue of each pixel, in
/// sequence order.
pub open spec fn rgb_bytes(pixels: Seq<Rgb>) -> Seq<u8>
    decreases pixels.len(),
{
    if pixels.len() == 0 {
        Seq::empty()
    } else {
        rgb_bytes(pixels.drop_last()) + pixels.last()@
    }
}

proof fn lemma_rgb_bytes_len(pixels: Seq<Rgb>)
    ensures
        rgb_bytes(pixels).len() == 3 * pixels.len(),
    decreases pixels.len(),
{
    if pixels.len() > 0 {
        lemma_rgb_bytes_len(pixels.drop_last());
    }
}

/// Decoding the encoding of a grid gives the grid back: the text of a
/// valid grid is the text of a valid grid (so `decode` accepts it), and any
/// grid that `decode` can return for it has the same width, height and
/// pixels.
pub proof fn lemma_round_trip(p: PPM, q: PPM)
    requires
        p.wf(),
    ensures
        is_ppm_of(
            ppm_text(p.spec_width(), p.spec_height(), p.spec_pixels()),
            p.spec_width(),
            p.spec_height(),
            p.spec_pixels(),
        ),
        is_ppm_of(
            ppm_text(p.spec_width(), p.spec_height(), p.spec_pixels()),
            q.spec_width(),
            q.spec_height(),
            q.spec_pixels(),
        ) ==> q.spec_width() == p.spec_width() && q.spec_height() == p.spec_height()
            && q.spec_pixels() == p.spec_pixels(),
{
    if is_ppm_of(
        ppm_text(p.spec_width(), p.spec_height(), p.spec_pixels()),
        q.spec_width(),
        q.spec_height(),
        q.spec_pixels(),
    ) {
        lemma_ppm_text_determines_grid(
            p.spec_width(),
            p.spec_height(),
            p.spec_pixels(),
            q.spec_width(),
            q.spec_height(),
            q.spec_pixels(),
        );
    }
}

/// Each cell of the grid has its own place in the pixel sequence.
pub proof fn lemma_index_in_grid(width: int, height: int, x: int, y: int)
    requires
        0 <= x < width,
        0 <= y < height,
    ensures
        0 <= index_of(width, x, y) < width * height,
{
    assert(width * y + x < width * height) by (nonlinear_arith)
        requires 0 <= x < width, 0 <= y < height;
    assert(0 <= width * y) by (nonlinear_arith)
        requires 0 <= x < width, 0 <= y;
}

/// Two different cells of a grid never share a place in the pixel
/// sequence, so a write to one leaves every other cell as it was.
pub proof fn lemma_cells_distinct(width: int, height: int, x1: int, y1: int, x2: int, y2: int)
    requires
        0 <= x1 < width,
        0 <= y1 < height,
        0 <= x2 < width,
        0 <= y2 < height,
        x1 != x2 || y1 != y2,
    ensures
        index_of(width, x1, y1) != index_of(width, x2, y2),
{
    if y1 == y2 {
    } else if y1 < y2 {
        assert(width * y1 + x1 < width * y2 + x2) by (nonlinear_arith)
            requires 0 <= x1 < width, 0 <= x2, y1 < y2;
    } else {
        assert(width * y2 + x2 < width * y1 + x1) by (nonlinear_arith)
            requires 0 <= x2 < width, 0 <= x1, y2 < y1;
    }
}

/// A width × height grid of pixels, row after row.
pub struct PPM {
    width: usize,
    height: usize,
    pixels: Vec<Rgb>,
}

impl PPM {
    pub closed spec fn spec_width(&self) -> nat {
        self.width as nat
    }

    pub closed spec fn spec_height(&self) -> nat {
        self.height as nat
    }

    /// The pixels, row by row.
    pub closed spec fn spec_pixels(&self) -> Seq<Rgb> {
        self.pixels@
    }

    pub closed spec fn wf(&self) -> bool {
        &&& dims_ok(self.width as int, self.height as int)
        &&& self.pixels@.len() == self.width * self.height
    }

    /// The pixel at `(x, y)`.
    pub open spec fn spec_pixel(&self, x: int, y: int) -> Rgb {
        self.spec_pixels()[index_of(self.spec_width() as int, x, y)]
    }

    /// A black `width` × `height` grid; refused when a dimension is zero or
    /// the grid would not fit in memory.
    pub fn new(width: usize, height: usize) -> (r: Result<PPM, RasterError>)
        ensures
            r is Err <==> !dims_ok(width as int, height as int),
            r is Err ==> r == Err::<PPM, RasterError>(RasterError::Allocation),
            r matches Ok(p) ==> {
                &&& p.wf()
                &&& p.spec_width() == width
                &&& p.spec_height() == height
                &&& p.spec_pixels() == Seq::new((width * height) as nat, |i: int| [0u8, 0u8, 0u8])
            },
    {
        if width == 0 || height == 0 {
            return Err(RasterError::Allocation);
        }
        let n = match width.checked_mul(height) {
            Some(n) => n,
            None => {
                proof {
                    assert(width * height * 3 > isize::MAX) by (nonlinear_arith)
                        requires width * height > usize::MAX, width > 0, height > 0;
                }
                return Err(RasterError::Allocation);
            },
        };
        if n > (isize::MAX as usize) / 3 {
            return Err(RasterError::Allocation);
        }
        let mut pixels: Vec<Rgb> = Vec::with_capacity(n);
        let mut i: usize = 0;
        while i < n
            invariant
                i <= n,
                pixels@ == Seq::new(i as nat, |k: int| [0u8, 0u8, 0u8]),
            decreases n - i,
        {
            pixels.push([0u8, 0u8, 0u8]);
            i += 1;
            assert(pixels@ =~= Seq::new(i as nat, |k: int| [0u8, 0u8, 0u8]));
        }
        Ok(PPM { width, height, pixels })
    }

    pub fn width(&self) -> (r: usize)
        ensures
            r == self.spec_width(),
    {
        self.width
    }

    pub fn height(&self) -> (r: usize)
        ensures
            r == self.spec_height(),
    {
        self.height
    }

    /// Writes `v` at `(x, y)`; a coordinate outside the grid is refused and
    /// leaves every pixel as it was.
    pub fn put_pixel(&mut self, x: usize, y: usize, v: Rgb) -> (r: Result<(), RasterError>)
        requires
            old(self).wf(),
        ensures
            final(self).wf(),
            final(self).spec_width() == old(self).spec_width(),
            final(self).spec_height() == old(self).spec_height(),
            r is Ok <==> x < old(self).spec_width() && y < old(self).spec_height(),
            r is Err ==> r == Err::<(), RasterError>(RasterError::Index) && *final(self) == *old(self),
            r is Ok ==> final(self).spec_pixels() == old(self).spec_pixels().update(
                index_of(old(self).spec_width() as int, x as int, y as int),
                v,
            ),
    {
        if x >= self.width || y >= self.height {
            return Err(RasterError::Index);
        }
        proof {
            lemma_index_in_grid(self.width as int, self.height as int, x as int, y as int);
        }
        let i = self.width * y + x;
        self.pixels.set(i, v);
        Ok(())
    }

    /// The plain PPM encoding of the grid.
    pub fn encode(&self) -> (r: Vec<u8>)
        requires
            self.wf(),
        ensures
            r@ == ppm_text(self.spec_width(), self.spec_height(), self.spec_pixels()),
    {
        let mut out: Vec<u8> = Vec::new();
        out.push(80u8);
        out.push(51u8);
        out.push(10u8);
        push_decimal(&mut out, self.width);
        out.push(32u8);
        push_decimal(&mut out, self.height);
        out.push(10u8);
        out.push(50u8);
        out.push(53u8);
        out.push(53u8);
        out.push(10u8);
        assert(out@ =~= header_text(self.width as nat, self.height as nat));
        let n = self.pixels.len();
        let mut i: usize = 0;
        while i < n
            invariant
                n == self.pixels@.len(),
                i <= n,
                out@ == header_text(self.width as nat, self.height as nat) + body_text(
                    self.pixels@.subrange(0, i as int),
                ),
            decreases n - i,
        {
            let p = self.pixels[i];
            push_decimal(&mut out, p[0] as usize);
            out.push(32u8);
            push_decimal(&mut out, p[1] as usize);
            out.push(32u8);
            push_decimal(&mut out, p[2] as usize);
            out.push(10u8);
            proof {
                let pre = self.pixels@.subrange(0, i as int);
                let next = self.pixels@.subrange(0, i + 1);
                assert(next.drop_last() =~= pre);
                assert(next.last() == p);
            }
            i += 1;
            assert(out@ =~= header_text(self.width as nat, self.height as nat) + body_text(
                self.pixels@.subrange(0, i as int),
            ));
        }
        assert(self.pixels@.subrange(0, n as int) =~= self.pixels@);
        out
    }

    /// The channel bytes of the grid, row by row.
    pub fn channel_bytes(&self) -> (r: Vec<u8>)
        ensures
            r@ == rgb_bytes(self.spec_pixels()),
    {
        let mut out: Vec<u8> = Vec::new();
        let n = self.pixels.len();
        let mut i: usize = 0;
        while i < n
            invariant
                n == self.pixels@.len(),
                i <= n,
                out@ == rgb_bytes(self.pixels@.subrange(0, i as int)),
            decreases n - i,
        {
            let p = self.pixels[i];
            out.push(p[0]);
            out.push(p[1]);
            out.push(p[2]);
            proof {
                let next = self.pixels@.subrange(0, i + 1);
                assert(next.drop_last() =~= self.pixels@.subrange(0, i as int));
                assert(next.last() == p);
            }
            i += 1;
            assert(out@ =~= rgb_bytes(self.pixels@.subrange(0, i as int)));
        }
        assert(self.pixels@.subrange(0, n as int) =~= self.pixels@);
        out
    }

    /// The grid as a PNG file. Refused when a dimension exceeds `u32::MAX`
    /// or the encoder fails.
    pub fn to_png(&self) -> (r: Result<Vec<u8>, RasterError>)
        requires
            self.wf(),
        ensures
            self.spec_width() > u32::MAX || self.spec_height() > u32::MAX ==> r is Err,
            r is Err ==> r == Err::<Vec<u8>, RasterError>(RasterError::Encode),
            r matches Ok(b) ==> b@ == png_of(
                self.spec_width(),
                self.spec_height(),
                rgb_bytes(self.spec_pixels()),
            ),
    {
        if self.width > u32::MAX as usize || self.height > u32::MAX as usize {
            return Err(RasterError::Encode);
        }
        let rgb = self.channel_bytes();
        proof {
            lemma_rgb_bytes_len(self.pixels@);
        }
        match png_encode(&rgb, self.width as u32, self.height as u32) {
            Ok(b) => Ok(b),
            Err(_) => Err(RasterError::Encode),
        }
    }

    /// Reads plain PPM text back into a grid. Anything that is not the text of a
    /// valid grid is refused.
    pub fn decode(b: &Vec<u8>) -> (r: Option<PPM>)
        ensures
            r matches Some(p) ==> p.wf() && is_ppm_of(
                b@,
                p.spec_width(),
                p.spec_height(),
                p.spec_pixels(),
            ),
            r is None <==> !exists|w: nat, h: nat, px: Seq<Rgb>| #[trigger] is_ppm_of(b@, w, h, px),
    {
        let ghost valid = exists|w: nat, h: nat, px: Seq<Rgb>| #[trigger] is_ppm_of(b@, w, h, px);
        let ghost (tw, th, tpx) = if valid {
            choose|w: nat, h: nat, px: Seq<Rgb>| #[trigger] is_ppm_of(b@, w, h, px)
        } else {
            (0nat, 0nat, Seq::<Rgb>::empty())
        };
        proof {
            if valid {
                assert(tw <= usize::MAX && th <= usize::MAX) by (nonlinear_arith)
                    requires tw * th * 3 <= isize::MAX, tw >= 1, th >= 1, isize::MAX <= usize::MAX;
            }
        }
        let ghost eh = if valid { Some((tw, th, body_text(tpx))) } else { None };
        let (w, h, pos) = match parse_header(b, Ghost(eh)) {
            Some(x) => x,
            None => {
                return None;
            },
        };
        if w == 0 || h == 0 {
            return None;
        }
        let n = match w.checked_mul(h) {
            Some(n) => n,
            None => {
                return None;
            },
        };
        if n > (isize::MAX as usize) / 3 {
            return None;
        }
        let ghost ep = if valid { Some(tpx) } else { None };
        let pixels = match parse_body(b, pos, n, Ghost(ep)) {
            Some(px) => px,
            None => {
                return None;
            },
        };
        proof {
            assert(b@ =~= b@.subrange(0, pos as int) + b@.subrange(pos as int, b@.len() as int));
        }
        let r = PPM { width: w, height: h, pixels };
        assert(is_ppm_of(b@, w as nat, h as nat, r.pixels@));
        Some(r)
    }

    /// The pixel at `(x, y)`, or `None` outside the grid.
    pub fn get_pixel(&self, x: usize, y: usize) -> (r: Option<Rgb>)
        requires
            self.wf(),
        ensures
            r is Some <==> x < self.spec_width() && y < self.spec_height(),
            r is Some ==> r == Some(self.spec_pixel(x as int, y as int)),
    {
        if x >= self.width || y >= self.height {
            return None;
        }
        proof {
            lemma_index_in_grid(self.width as int, self.height as int, x as int, y as int);
        }
        Some(self.pixels[self.width * y + x])
    }
}

} // verus!

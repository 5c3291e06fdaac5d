use vstd::prelude::*;

verus! {

/// One RGBA pixel.
#[derive(Clone, Copy, Debug, PartialEq, Eq, Structural)]
pub struct Pixel {
    pub r: u8,
    pub g: u8,
    pub b: u8,
    pub a: u8,
}

/// Width, height, pixels (row by row) of an image, and whether it stores an alpha
/// channel (an image without one shows every pixel opaque).
pub type ImageView = (u32, u32, Seq<Pixel>, bool);

/// The pixels fill the image: there are `width * height` of them, a count that fits
/// in a `usize`; and without an alpha channel every pixel is opaque.
pub open spec fn image_ok(v: ImageView) -> bool {
    &&& v.2.len() == v.0 as int * v.1 as int
    &&& v.2.len() <= usize::MAX
    &&& !v.3 ==> forall|i: int| 0 <= i < v.2.len() ==> (#[trigger] v.2[i]).a == 255
}

/// The pixel that an image stores when `p` is put into it: `p` itself where the image
/// has an alpha channel, `p` made opaque where it has none.
pub open spec fn stored_pixel(has_alpha: bool, p: Pixel) -> Pixel {
    if has_alpha {
        p
    } else {
        Pixel { a: 255, ..p }
    }
}

/// The pixels that an image stores when `pixels` are put into it, one by one.
pub open spec fn stored_pixels(has_alpha: bool, pixels: Seq<Pixel>) -> Seq<Pixel> {
    Seq::new(pixels.len(), |i: int| stored_pixel(has_alpha, pixels[i]))
}

/// Channel `c` (0 red, 1 green, 2 blue, 3 alpha) of `p`.
pub open spec fn channel(p: Pixel, c: int) -> u8 {
    if c == 0 {
        p.r
    } else if c == 1 {
        p.g
    } else if c == 2 {
        p.b
    } else {
        p.a
    }
}

/// The pixels as RGBA bytes, four per pixel.
pub open spec fn rgba_bytes_of(pixels: Seq<Pixel>) -> Seq<u8> {
    Seq::new(4 * pixels.len(), |i: int| channel(pixels[i / 4], i % 4))
}

/// RGBA bytes as pixels, one per four bytes.
pub open spec fn pixels_of_rgba(bytes: Seq<u8>) -> Seq<Pixel> {
    Seq::new(
        bytes.len() / 4,
        |i: int| Pixel { r: bytes[4 * i], g: bytes[4 * i + 1], b: bytes[4 * i + 2], a: bytes[4 * i + 3] },
    )
}

/// Reading back the RGBA bytes of pixels gives the same pixels.
pub proof fn lemma_rgba_round_trip(pixels: Seq<Pixel>)
    ensures
        pixels_of_rgba(rgba_bytes_of(pixels)) == pixels,
{
    let b = rgba_bytes_of(pixels);
    assert(b.len() / 4 == pixels.len());
    assert forall|i: int| 0 <= i < pixels.len() implies #[trigger] pixels_of_rgba(b)[i] == pixels[i] by {
        assert((4 * i) / 4 == i && (4 * i) % 4 == 0);
        assert((4 * i + 1) / 4 == i && (4 * i + 1) % 4 == 1);
        assert((4 * i + 2) / 4 == i && (4 * i + 2) % 4 == 2);
        assert((4 * i + 3) / 4 == i && (4 * i + 3) % 4 == 3);
    }
    assert(pixels_of_rgba(b) =~= pixels);
}

/// An image read from RGBA bytes holds, at pixel `i`, the red, green and blue of bytes
/// `4i`, `4i + 1` and `4i + 2`, and the alpha of byte `4i + 3` where it keeps an alpha
/// channel (255 where it does not).
pub proof fn lemma_rgba_layout(bytes: Seq<u8>, has_alpha: bool)
    ensures
        stored_pixels(has_alpha, pixels_of_rgba(bytes)).len() == bytes.len() / 4,
        forall|i: int|
            0 <= i < bytes.len() / 4 ==> #[trigger] stored_pixels(has_alpha, pixels_of_rgba(bytes))[i]
                == (Pixel {
                r: bytes[4 * i],
                g: bytes[4 * i + 1],
                b: bytes[4 * i + 2],
                a: if has_alpha { bytes[4 * i + 3] } else { 255u8 },
            }),
{
}

/// The black pixel, opaque.
pub open spec fn black() -> Pixel {
    Pixel { r: 0, g: 0, b: 0, a: 255 }
}

/// An image of `width * height` pixels, stored row by row, either with an alpha channel
/// (RGBA) or without one (RGB, every pixel reads as opaque).
pub struct PixelImage {
    width: u32,
    height: u32,
    pixels: Vec<Pixel>,
    has_alpha: bool,
}

impl View for PixelImage {
    type V = ImageView;

    closed spec fn view(&self) -> ImageView {
        (self.width, self.height, self.pixels@, self.has_alpha)
    }
}

proof fn lemma_size_fits_u64(w: u32, h: u32)
    ensures
        0 <= w as int * h as int <= u64::MAX,
{
    assert(0 <= w as int * h as int <= 0xffff_ffff * 0xffff_ffff) by (nonlinear_arith)
        requires 0 <= w <= 0xffff_ffff, 0 <= h <= 0xffff_ffff;
}

proof fn lemma_index_in_image(x: int, y: int, w: int, h: int)
    requires
        0 <= x < w,
        0 <= y < h,
    ensures
        0 <= y * w + x < w * h,
{
    assert(0 <= y * w + x < w * h) by (nonlinear_arith)
        requires 0 <= x < w, 0 <= y < h;
}

impl PixelImage {
    #[verifier::type_invariant]
    spec fn pixels_fill(self) -> bool {
        &&& self.pixels.len() == self.width as int * self.height as int
        &&& !self.has_alpha ==> forall|i: int| 0 <= i < self.pixels.len() ==> (#[trigger] self.pixels@[i]).a == 255
    }

    /// The RGBA image of the given size with the given pixels, if their number fits.
    pub fn new(width: u32, height: u32, pixels: Vec<Pixel>) -> (r: Option<Self>)
        ensures
            r is Some <==> pixels.len() == width as int * height as int,
            r matches Some(img) ==> img@ == (width, height, pixels@, true),
    {
        proof {
            lemma_size_fits_u64(width, height);
        }
        let size: u64 = (width as u64) * (height as u64);
        if pixels.len() as u64 == size {
            Some(PixelImage { width, height, pixels, has_alpha: true })
        } else {
            None
        }
    }

    /// An RGB image (no alpha channel) of the given size, all black.
    pub fn new_black(width: u32, height: u32) -> (r: Self)
        requires
            width as int * height as int <= usize::MAX,
        ensures
            r@ == (width, height, Seq::new((width as int * height as int) as nat, |i: int| black()), false),
    {
        let size: usize = (width as usize) * (height as usize);
        let pixels: Vec<Pixel> = vec![Pixel { r: 0, g: 0, b: 0, a: 255 }; size];
        assert(pixels@ =~= Seq::new((width as int * height as int) as nat, |i: int| black()));
        PixelImage { width, height, pixels, has_alpha: false }
    }

    /// Whether the image stores an alpha channel.
    pub fn has_alpha(&self) -> (r: bool)
        ensures
            r == self@.3,
            image_ok(self@),
    {
        proof {
            use_type_invariant(self);
        }
        self.has_alpha
    }

    pub fn width(&self) -> (r: u32)
        ensures
            r == self@.0,
            image_ok(self@),
    {
        proof {
            use_type_invariant(self);
        }
        self.width
    }

    pub fn height(&self) -> (r: u32)
        ensures
            r == self@.1,
            image_ok(self@),
    {
        proof {
            use_type_invariant(self);
        }
        self.height
    }

    /// The pixels fill the image.
    pub fn pixels(&self) -> (r: &Vec<Pixel>)
        ensures
            r@ == self@.2,
            image_ok(self@),
    {
        proof {
            use_type_invariant(self);
        }
        &self.pixels
    }

    /// The pixel in column `x` of row `y`.
    pub fn get_pixel(&self, x: u32, y: u32) -> (r: Pixel)
        requires
            x < self@.0,
            y < self@.1,
        ensures
            r == self@.2[y * self@.0 + x],
    {
        proof {
            use_type_invariant(self);
            lemma_index_in_image(x as int, y as int, self.width as int, self.height as int);
        }
        self.pixels[(y as usize) * (self.width as usize) + (x as usize)]
    }

    /// Sets the pixel in column `x` of row `y`; an image without an alpha channel keeps
    /// only its colour.
    pub fn put_pixel(&mut self, x: u32, y: u32, pixel: Pixel)
        requires
            x < old(self)@.0,
            y < old(self)@.1,
        ensures
            final(self)@ == (
                old(self)@.0,
                old(self)@.1,
                old(self)@.2.update(y * old(self)@.0 + x, stored_pixel(old(self)@.3, pixel)),
                old(self)@.3,
            ),
    {
        let mut taken = PixelImage { width: 0, height: 0, pixels: Vec::new(), has_alpha: true };
        std::mem::swap(&mut taken, self);
        proof {
            use_type_invariant(&taken);
            lemma_index_in_image(x as int, y as int, taken.width as int, taken.height as int);
        }
        let PixelImage { width, height, mut pixels, has_alpha } = taken;
        let i = (y as usize) * (width as usize) + (x as usize);
        let stored = if has_alpha { pixel } else { Pixel { r: pixel.r, g: pixel.g, b: pixel.b, a: 255 } };
        pixels.set(i, stored);
        *self = PixelImage { width, height, pixels, has_alpha };
    }

    /// A copy of the image.
    pub fn duplicate(&self) -> (r: Self)
        ensures
            r@ == self@,
    {
        proof {
            use_type_invariant(self);
        }
        let mut pixels: Vec<Pixel> = Vec::new();
        let mut i: usize = 0;
        while i < self.pixels.len()
            invariant
                i <= self.pixels.len(),
                pixels@ == self.pixels@.take(i as int),
            decreases self.pixels.len() - i,
        {
            pixels.push(self.pixels[i]);
            i = i + 1;
            assert(pixels@ =~= self.pixels@.take(i as int));
        }
        assert(pixels@ =~= self.pixels@);
        PixelImage { width: self.width, height: self.height, pixels, has_alpha: self.has_alpha }
    }

    /// The image whose RGBA bytes (four per pixel, row by row) are `bytes`, with an alpha
    /// channel or without one (then the alpha bytes are dropped and every pixel is
    /// opaque), if their number fits the size.
    pub fn from_rgba_bytes(width: u32, height: u32, bytes: &[u8], has_alpha: bool) -> (r: Option<Self>)
        ensures
            r is Some <==> bytes.len() == 4 * (width as int * height as int),
            r matches Some(img) ==> img@ == (
                width,
                height,
                stored_pixels(has_alpha, pixels_of_rgba(bytes@)),
                has_alpha,
            ),
    {
        proof {
            lemma_size_fits_u64(width, height);
        }
        let size: u64 = (width as u64) * (height as u64);
        if bytes.len() % 4 != 0 || (bytes.len() / 4) as u64 != size {
            return None;
        }
        let n = bytes.len() / 4;
        let ghost want = stored_pixels(has_alpha, pixels_of_rgba(bytes@));
        let mut pixels: Vec<Pixel> = Vec::new();
        let mut i: usize = 0;
        while i < n
            invariant
                i <= n,
                n == bytes.len() / 4,
                4 * n == bytes.len(),
                want == stored_pixels(has_alpha, pixels_of_rgba(bytes@)),
                pixels@ == want.take(i as int),
            decreases n - i,
        {
            let a: u8 = if has_alpha { bytes[4 * i + 3] } else { 255 };
            let p = Pixel { r: bytes[4 * i], g: bytes[4 * i + 1], b: bytes[4 * i + 2], a };
            pixels.push(p);
            i = i + 1;
            assert(pixels@ =~= want.take(i as int));
        }
        assert(pixels@ =~= want);
        Some(PixelImage { width, height, pixels, has_alpha })
    }

    /// The RGBA bytes of the image, four per pixel, row by row.
    pub fn to_rgba_bytes(&self) -> (r: Vec<u8>)
        ensures
            r@ == rgba_bytes_of(self@.2),
            r.len() == 4 * (self@.0 as int * self@.1 as int),
    {
        proof {
            use_type_invariant(self);
        }
        let ghost want = rgba_bytes_of(self.pixels@);
        let mut out: Vec<u8> = Vec::new();
        let mut i: usize = 0;
        while i < self.pixels.len()
            invariant
                i <= self.pixels.len(),
                want == rgba_bytes_of(self.pixels@),
                out@ == want.take(4 * i),
            decreases self.pixels.len() - i,
        {
            let p = self.pixels[i];
            out.push(p.r);
            out.push(p.g);
            out.push(p.b);
            out.push(p.a);
            i = i + 1;
            assert forall|k: int| 0 <= k < 4 * i implies #[trigger] out@[k] == want[k] by {
                if k >= 4 * (i - 1) {
                    assert(k / 4 == i - 1);
                }
            }
            assert(out@ =~= want.take(4 * i));
        }
        assert(out@ =~= want);
        out
    }
}

} // verus!

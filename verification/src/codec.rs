use vstd::prelude::*;
use ::image::{DynamicImage, ImageError, ImageFormat, ImageReader, RgbaImage};
use std::io::Cursor;
use crate::error::StreamError;
use crate::raster::{PixelImage, ImageView, image_ok, lemma_rgba_round_trip, rgba_bytes_of};

verus! {

#[verifier::external_type_specification]
#[verifier::external_body]
pub struct ExImageError(ImageError);

/// The bytes that the `image` crate's JPEG encoder makes of an RGBA image of the given
/// size, or `None` where it refuses it.
pub uninterp spec fn jpeg_encoding(width: u32, height: u32, rgba: Seq<u8>) -> Option<Seq<u8>>;

/// Builds an `image::RgbaImage` with `RgbaImage::from_raw(width, height, rgba)`, wraps
/// it as `DynamicImage::ImageRgba8` and encodes it with
/// `DynamicImage::write_to(.., ImageFormat::Jpeg)` (which drops the alpha channel) into
/// a buffer. Claimed: the result depends only on the arguments; `Ok` carries the bytes
/// and `Err` comes exactly where the name gives `None`. `from_raw` cannot fail here,
/// since the buffer has the size that `requires` gives.
#[verifier::external_body]
fn encode_jpeg(width: u32, height: u32, rgba: Vec<u8>) -> (r: Result<Vec<u8>, ImageError>)
    requires
        rgba.len() == 4 * (width as int * height as int),
    ensures
        match r {
            Ok(bytes) => jpeg_encoding(width, height, rgba@) == Some(bytes@),
            Err(_) => jpeg_encoding(width, height, rgba@) is None,
        },
{
    let image = DynamicImage::ImageRgba8(RgbaImage::from_raw(width, height, rgba).unwrap());
    let mut buf = Cursor::new(Vec::new());
    match image.write_to(&mut buf, ImageFormat::Jpeg) {
        Ok(()) => Ok(buf.into_inner()),
        Err(e) => Err(e),
    }
}

/// Decodes `bytes` with `ImageReader::new(Cursor::new(bytes)).with_guessed_format()` and
/// `ImageReader::decode`, reads whether the decoded image has an alpha channel
/// (`DynamicImage::color().has_alpha()`), converts it with `DynamicImage::to_rgba8` and
/// hands back its `dimensions` and `into_raw` bytes. Claimed: the converted buffer holds
/// four bytes per pixel (`to_rgba8` allocates a buffer of exactly that size). Left
/// unsaid: which pixels come out and on which bytes decoding fails. The JPEG decoder
/// picks vector or scalar paths by the machine it runs on, and its source does not
/// show that they give the same bytes, so the result is not named.
#[verifier::external_body]
fn decode_image(bytes: &[u8]) -> (r: Result<(u32, u32, Vec<u8>, bool), ImageError>)
    ensures
        r matches Ok((w, h, v, a)) ==> v.len() == 4 * (w as int * h as int),
{
    let reader = match ImageReader::new(Cursor::new(bytes)).with_guessed_format() {
        Ok(reader) => reader,
        Err(e) => return Err(ImageError::IoError(e)),
    };
    let image = reader.decode()?;
    let has_alpha = image.color().has_alpha();
    let rgba = image.to_rgba8();
    let (w, h) = rgba.dimensions();
    Ok((w, h, rgba.into_raw(), has_alpha))
}

/// The JPEG bytes of an image, where the encoder accepts it.
pub open spec fn jpeg_of_image(image: ImageView) -> Option<Seq<u8>> {
    jpeg_encoding(image.0, image.1, rgba_bytes_of(image.2))
}

/// What is encoded is the image's own pixels: for any byte string that lays out the
/// pixels as RGBA (red, green, blue, alpha of pixel `i` at `4i .. 4i + 4`), the JPEG
/// data of the image is the encoder's output on its size and those bytes. Images with
/// different pixels are handed to the encoder as different bytes.
pub proof fn lemma_jpeg_encodes_the_pixels(image: ImageView, rgba: Seq<u8>, other: ImageView)
    requires
        rgba.len() == 4 * image.2.len(),
        forall|i: int|
            0 <= i < image.2.len() ==> rgba[4 * i] == (#[trigger] image.2[i]).r && rgba[4 * i + 1]
                == image.2[i].g && rgba[4 * i + 2] == image.2[i].b && rgba[4 * i + 3] == image.2[i].a,
    ensures
        jpeg_of_image(image) == jpeg_encoding(image.0, image.1, rgba),
        other.2 != image.2 ==> rgba_bytes_of(other.2) != rgba,
{
    let b = rgba_bytes_of(image.2);
    assert forall|k: int| 0 <= k < rgba.len() implies #[trigger] b[k] == rgba[k] by {
        let i = k / 4;
        assert(k == 4 * i + k % 4);
        assert(image.2[i].r == rgba[4 * i]);
    }
    assert(b =~= rgba);
    if other.2 != image.2 {
        lemma_rgba_round_trip(other.2);
        lemma_rgba_round_trip(image.2);
    }
}

/// Encodes an image as JPEG: its size and its own pixels, as RGBA bytes.
pub fn image_to_jpeg(image: &PixelImage) -> (r: Result<Vec<u8>, StreamError>)
    ensures
        match r {
            Ok(bytes) => jpeg_of_image(image@) == Some(bytes@),
            Err(e) => jpeg_of_image(image@) is None && e == StreamError::Encode,
        },
        match r {
            Ok(bytes) => jpeg_encoding(image@.0, image@.1, rgba_bytes_of(image@.2)) == Some(bytes@),
            Err(_) => jpeg_encoding(image@.0, image@.1, rgba_bytes_of(image@.2)) is None,
        },
{
    let rgba = image.to_rgba_bytes();
    match encode_jpeg(image.width(), image.height(), rgba) {
        Ok(bytes) => Ok(bytes),
        Err(_) => Err(StreamError::Encode),
    }
}

/// Decodes an image from its encoded bytes: the decoder's size and RGBA bytes, read by
/// `PixelImage::from_rgba_bytes` with the decoder's alpha flag. Which image comes out
/// is the decoder's (see `decode_image`); a failure is `Decode`.
pub fn jpeg_to_image(bytes: &[u8]) -> (r: Result<PixelImage, StreamError>)
    ensures
        match r {
            Ok(image) => image_ok(image@),
            Err(e) => e == StreamError::Decode,
        },
{
    match decode_image(bytes) {
        Ok((w, h, rgba, has_alpha)) => {
            let image = PixelImage::from_rgba_bytes(w, h, rgba.as_slice(), has_alpha);
            Ok(image.unwrap())
        },
        Err(_) => Err(StreamError::Decode),
    }
}

} // verus!

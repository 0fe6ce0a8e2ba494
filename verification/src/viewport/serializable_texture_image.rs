use vstd::prelude::*;

verus! {

/// An image as plain values, to send over the network: its size and its pixel bytes.
#[derive(Debug)]
pub struct SerializableTextureImage {
    width: u32,
    height: u32,
    data: Vec<u8>,
}

impl View for SerializableTextureImage {
    /// Width, height and pixel bytes.
    type V = (u32, u32, Seq<u8>);

    closed spec fn view(&self) -> (u32, u32, Seq<u8>) {
        (self.width, self.height, self.data@)
    }
}

impl Clone for SerializableTextureImage {
    fn clone(&self) -> (r: SerializableTextureImage)
        ensures
            r@ == self@,
    {
        let data = self.data.clone();
        assert(data@ =~= self.data@);
        SerializableTextureImage { width: self.width, height: self.height, data }
    }
}

impl SerializableTextureImage {
    pub open spec fn spec_width(&self) -> u32 {
        self@.0
    }

    pub open spec fn spec_height(&self) -> u32 {
        self@.1
    }

    pub open spec fn spec_data(&self) -> Seq<u8> {
        self@.2
    }

    /// An image from its size and its pixel bytes.
    pub fn from_raw_parts(p_width: u32, p_height: u32, p_data: Vec<u8>) -> (r:
        SerializableTextureImage)
        ensures
            r.spec_width() == p_width,
            r.spec_height() == p_height,
            r.spec_data() == p_data@,
    {
        SerializableTextureImage { width: p_width, height: p_height, data: p_data }
    }

    pub fn width(&self) -> (r: &u32)
        ensures
            *r == self.spec_width(),
    {
        &self.width
    }

    pub fn height(&self) -> (r: &u32)
        ensures
            *r == self.spec_height(),
    {
        &self.height
    }

    pub fn data(&self) -> (r: &Vec<u8>)
        ensures
            r@ == self.spec_data(),
    {
        &self.data
    }

    /// Whether the bytes fill an RGBA image of this size, 4 bytes per pixel, with that byte
    /// count fitting in `usize`: the test that decides whether an image buffer can be made.
    pub fn fills_rgba_image(&self) -> (r: bool)
        ensures
            r == rgba_fits(self.spec_width(), self.spec_height(), self.spec_data().len()),
    {
        let w: u128 = self.width as u128;
        let h: u128 = self.height as u128;
        let row: u128 = 4 * w;
        if row > usize::MAX as u128 {
            return false;
        }
        proof {
            assert(row * h <= 0x4_0000_0000 * 0x1_0000_0000) by (nonlinear_arith)
                requires
                    row <= 4 * 0xffff_ffff,
                    h <= 0xffff_ffff,
            ;
        }
        row * h <= self.data.len() as u128
    }
}

/// Whether `len` bytes fill an RGBA image of `width` x `height` pixels: `4 * width` and
/// `4 * width * height` fit in `usize`, and the latter is at most `len`.
pub open spec fn rgba_fits(width: u32, height: u32, len: nat) -> bool {
    &&& 4 * width <= usize::MAX
    &&& 4 * width * height <= len
}

/// What decoding an encoded image with `image::load_from_memory` and turning it into 8-bit RGBA
/// pixels with `to_rgba8` gives: its width, height and pixel bytes, or nothing when the bytes
/// are not an image that the decoder reads.
pub uninterp spec fn decoded_rgba8(bytes: Seq<u8>) -> Option<(u32, u32, Seq<u8>)>;

/// Calls `image::load_from_memory` on `p_bytes`, then `to_rgba8`, `dimensions` and `into_raw`
/// on the decoded image. The contract claims only that the result is the one named by
/// `decoded_rgba8` for these bytes, and that an error comes exactly when that is nothing.
#[verifier::external_body]
pub(crate) fn decode_rgba8(p_bytes: &[u8]) -> (r: Result<SerializableTextureImage, anyhow::Error>)
    ensures
        match r {
            Ok(image) => decoded_rgba8(p_bytes@) == Some(image@),
            Err(_) => decoded_rgba8(p_bytes@) is None,
        },
{
    match image::load_from_memory(p_bytes) {
        Ok(decoded) => {
            let rgba = decoded.to_rgba8();
            let (width, height) = rgba.dimensions();
            Ok(SerializableTextureImage { width, height, data: rgba.into_raw() })
        },
        Err(e) => Err(anyhow::Error::from(e)),
    }
}

/// What `image::imageops::resize` with the nearest-pixel filter makes of the RGBA image of
/// `width` x `height` pixels with bytes `data`, at `new_width` x `new_height` pixels: its bytes.
pub uninterp spec fn nearest_resized_rgba8(width: u32, height: u32, data: Seq<u8>, new_width: u32, new_height: u32) -> Seq<u8>;

/// Calls `image::imageops::resize` with `FilterType::Nearest` on the RGBA image made of
/// `p_width`, `p_height` and `p_data` by `image::RgbaImage::from_raw`, which succeeds on these
/// bytes, and takes the bytes of the result with `into_raw`. The contract claims that they are
/// those named by `nearest_resized_rgba8`, 4 per pixel of the new size.
#[verifier::external_body]
pub(crate) fn resize_nearest_rgba8(p_width: u32, p_height: u32, p_data: Vec<u8>, p_new_width: u32, p_new_height: u32) -> (r: Vec<u8>)
    requires
        rgba_fits(p_width, p_height, p_data@.len()),
        4 * p_new_width * p_new_height <= usize::MAX,
    ensures
        r@ == nearest_resized_rgba8(p_width, p_height, p_data@, p_new_width, p_new_height),
        r@.len() == 4 * p_new_width * p_new_height,
{
    let input = image::RgbaImage::from_raw(p_width, p_height, p_data).unwrap();
    image::imageops::resize(&input, p_new_width, p_new_height, image::imageops::FilterType::Nearest).into_raw()
}

/// What `image::imageops::overlay` makes of the RGB image of `side` x `side` pixels with bytes
/// `bottom` when the RGBA image of `width` x `height` pixels with bytes `top` is laid on it, its
/// top-left pixel at `(x, y)`, both taken as `DynamicImage`s: the bytes of the RGB image after.
pub uninterp spec fn rgb8_overlaid(bottom: Seq<u8>, side: u32, top: Seq<u8>, width: u32, height: u32, x: u32, y: u32) -> Seq<u8>;

/// Calls `image::imageops::overlay` on `DynamicImage::ImageRgb8` of the atlas bytes and
/// `DynamicImage::ImageRgba8` of the top image's bytes, both made by `from_raw`, which succeeds
/// on these lengths, and takes the atlas's RGB bytes back with `into_rgb8` and `into_raw`. The
/// contract claims that they are those named by `rgb8_overlaid`, of the atlas's length.
#[verifier::external_body]
pub(crate) fn overlay_rgba_on_rgb8(
    p_bottom: Vec<u8>,
    p_side: u32,
    p_top: Vec<u8>,
    p_width: u32,
    p_height: u32,
    p_x: u32,
    p_y: u32,
) -> (r: Vec<u8>)
    requires
        p_bottom@.len() == 3 * p_side * p_side,
        p_top@.len() == 4 * p_width * p_height,
    ensures
        r@ == rgb8_overlaid(p_bottom@, p_side, p_top@, p_width, p_height, p_x, p_y),
        r@.len() == p_bottom@.len(),
{
    let mut bottom = image::DynamicImage::ImageRgb8(image::RgbImage::from_raw(p_side, p_side, p_bottom).unwrap());
    let top = image::DynamicImage::ImageRgba8(image::RgbaImage::from_raw(p_width, p_height, p_top).unwrap());
    image::imageops::overlay(&mut bottom, &top, p_x as i64, p_y as i64);
    bottom.into_rgb8().into_raw()
}

} // verus!

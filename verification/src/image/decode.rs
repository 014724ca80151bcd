use vstd::prelude::*;

verus! {

/// What the `image` crate makes of a file's bytes when it guesses the format
/// from them and the picture is asked for in eight bits of luma: the width,
/// the height and the luma row by row, or nothing where the bytes are no
/// file that it can decode.
pub uninterp spec fn decoded_luma8(bytes: Seq<u8>) -> Option<(u32, u32, Seq<u8>)>;

/// What the `image` crate makes of the bytes of a PNG file when the picture
/// is asked for in eight bits each of red, green, blue and alpha: the width,
/// the height and the bytes row by row, or nothing where the bytes are no
/// PNG file that it can decode.
pub uninterp spec fn decoded_png_rgba8(bytes: Seq<u8>) -> Option<(u32, u32, Seq<u8>)>;

/// `image::load_from_memory`, and `DynamicImage::into_luma8` on what it
/// gives. Nothing is claimed of the picture but that it is the one named
/// `decoded_luma8`: the same bytes decode to the same picture.
#[verifier::external_body]
pub(crate) fn decode_luma8(buf: &[u8]) -> (picture: Option<(u32, u32, Vec<u8>)>)
    ensures
        match picture {
            Some(p) => decoded_luma8(buf@) == Some((p.0, p.1, p.2@)),
            None => decoded_luma8(buf@) is None,
        },
{
    match ::image::load_from_memory(buf) {
        Ok(picture) => {
            let gray = picture.into_luma8();
            Some((gray.width(), gray.height(), gray.into_raw()))
        },
        Err(_) => None,
    }
}

/// `image::load_from_memory_with_format` with `ImageFormat::Png`, and
/// `DynamicImage::into_rgba8` on what it gives. Nothing is claimed of the
/// picture but that it is the one named `decoded_png_rgba8`: the same bytes
/// decode to the same picture.
#[verifier::external_body]
pub(crate) fn decode_png_rgba8(buf: &[u8]) -> (picture: Option<(u32, u32, Vec<u8>)>)
    ensures
        match picture {
            Some(p) => decoded_png_rgba8(buf@) == Some((p.0, p.1, p.2@)),
            None => decoded_png_rgba8(buf@) is None,
        },
{
    match ::image::load_from_memory_with_format(buf, ::image::ImageFormat::Png) {
        Ok(picture) => {
            let rgba = picture.into_rgba8();
            Some((rgba.width(), rgba.height(), rgba.into_raw()))
        },
        Err(_) => None,
    }
}

} // verus!

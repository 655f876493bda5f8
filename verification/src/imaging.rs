//! Images as the workspace shows them: the EXIF orientation of a file, the upright image, its
//! display encoding and its thumbnail.
use vstd::prelude::*;
use crate::project::{display_encoding, is_jpeg, is_jpeg_spec, orientation_transforms, DisplayEncoding, Transform};
use crate::text::{owned, push_all};

verus! {

#[verifier::external_type_specification]
#[verifier::external_body]
pub struct ExDynamicImage(image::DynamicImage);

#[verifier::external_type_specification]
#[verifier::external_body]
pub struct ExImageFormat(image::ImageFormat);

/// The first value of the `Orientation` field of the primary image in the EXIF data of a file's
/// bytes, as `kamadak-exif` reads it; `None` where there is none.
pub uninterp spec fn exif_orientation_field(bytes: Seq<u8>) -> Option<u32>;

/// Reads the EXIF data of `bytes` with `exif::Reader::read_from_container` and takes the first
/// value of the primary `Orientation` field (`Exif::get_field`, `Value::get_uint`). The value is a
/// function of the bytes alone, named `exif_orientation_field`.
#[verifier::external_body]
fn read_exif_orientation(bytes: &Vec<u8>) -> (r: Option<u32>)
    ensures
        r == exif_orientation_field(bytes@),
{
    exif::Reader::new()
        .read_from_container(&mut std::io::Cursor::new(bytes.as_slice()))
        .ok()
        .and_then(|data| data.get_field(exif::Tag::Orientation, exif::In::PRIMARY).and_then(|field| field.value.get_uint(0)))
}

/// The orientation a file at `path` is indexed with: for a JPEG file, the EXIF orientation of its
/// `bytes` where it is one of the eight; else 1.
pub fn file_orientation(path: &str, bytes: &Vec<u8>) -> (r: u16)
    ensures
        r == match exif_orientation_field(bytes@) {
            Some(v) if is_jpeg_spec(path@) && 1 <= v <= 8 => v as u16,
            _ => 1u16,
        },
{
    let jpeg = is_jpeg(path);
    let value = read_exif_orientation(bytes);
    crate::project::exif_orientation(jpeg, value)
}

/// What `image::ImageFormat::from_path` gives for `path`: the format, or the text of its error.
pub uninterp spec fn path_format(path: Seq<char>) -> Result<image::ImageFormat, Seq<char>>;

/// The extensions, in lower case, that `image::ImageFormat::from_extension` knows.
pub open spec fn format_extension(e: Seq<char>) -> bool {
    ||| e == "avif"@ || e == "jpg"@ || e == "jpeg"@ || e == "jfif"@ || e == "png"@ || e == "apng"@
    ||| e == "gif"@ || e == "webp"@ || e == "tif"@ || e == "tiff"@ || e == "tga"@ || e == "dds"@
    ||| e == "bmp"@ || e == "ico"@ || e == "hdr"@ || e == "exr"@ || e == "pbm"@ || e == "pam"@
    ||| e == "ppm"@ || e == "pgm"@ || e == "pnm"@ || e == "ff"@ || e == "qoi"@
}

/// A relative path that every platform splits only at `/`: no backslash, no `:`, and no leading `/`.
pub open spec fn plain_relative_path(path: Seq<char>) -> bool {
    &&& forall|i: int| 0 <= i < path.len() ==> #[trigger] path[i] != '\\' && path[i] != ':'
    &&& (path.len() == 0 || path[0] != '/')
}

/// A format result with its error text taken by its view.
pub open spec fn format_result(r: Result<image::ImageFormat, String>) -> Result<image::ImageFormat, Seq<char>> {
    match r {
        Ok(f) => Ok(f),
        Err(e) => Err(e@),
    }
}

/// Calls `image::ImageFormat::from_path`: the format that the extension of `path` names, or the
/// text of the crate's error. Both are functions of the path alone, named `path_format`. Of a plain
/// relative path it is stated when there is a format: when the path's extension
/// (`Path::extension`), in ASCII lower case, is one that `from_extension` lists.
#[verifier::external_body]
fn format_of_path(path: &str) -> (r: Result<image::ImageFormat, String>)
    ensures
        format_result(r) == path_format(path@),
        plain_relative_path(path@) ==> (r is Ok <==> (crate::paths::extension_spec(path@) matches Some(e)
            && format_extension(crate::text::ascii_lowercase_spec(e)))),
{
    image::ImageFormat::from_path(path).map_err(|error| error.to_string())
}

/// An image result with its message taken by its view.
pub open spec fn image_result(r: Result<image::DynamicImage, String>) -> Result<image::DynamicImage, Seq<char>> {
    match r {
        Ok(i) => Ok(i),
        Err(e) => Err(e@),
    }
}

/// A byte result with its bytes and its message taken by their views.
pub open spec fn bytes_result(r: Result<Vec<u8>, String>) -> Result<Seq<u8>, Seq<char>> {
    match r {
        Ok(b) => Ok(b@),
        Err(e) => Err(e@),
    }
}

/// What `image::load_from_memory_with_format` gives for `bytes` in `format`: the image, or the
/// text of the decoder's error.
pub uninterp spec fn decoded(bytes: Seq<u8>, format: image::ImageFormat) -> Result<image::DynamicImage, Seq<char>>;

/// Calls `image::load_from_memory_with_format`: the image that `bytes` hold in `format`, or the
/// text of the decoder's error. Both are functions of the bytes and the format, named `decoded`.
#[verifier::external_body]
fn decode_bytes(bytes: &Vec<u8>, format: image::ImageFormat) -> (r: Result<image::DynamicImage, String>)
    ensures
        image_result(r) == decoded(bytes@, format),
{
    image::load_from_memory_with_format(bytes, format).map_err(|error| error.to_string())
}

/// What `DynamicImage::fliph` gives for `image`.
pub uninterp spec fn flipped_horizontally(image: image::DynamicImage) -> image::DynamicImage;

/// What `DynamicImage::flipv` gives for `image`.
pub uninterp spec fn flipped_vertically(image: image::DynamicImage) -> image::DynamicImage;

/// What `DynamicImage::rotate90` gives for `image`.
pub uninterp spec fn rotated_90(image: image::DynamicImage) -> image::DynamicImage;

/// What `DynamicImage::rotate180` gives for `image`.
pub uninterp spec fn rotated_180(image: image::DynamicImage) -> image::DynamicImage;

/// What `DynamicImage::rotate270` gives for `image`.
pub uninterp spec fn rotated_270(image: image::DynamicImage) -> image::DynamicImage;

/// Calls `DynamicImage::fliph`: the image mirrored left to right, named `flipped_horizontally`.
#[verifier::external_body]
fn flip_horizontal(image: &image::DynamicImage) -> (r: image::DynamicImage)
    ensures
        r == flipped_horizontally(*image),
{
    image.fliph()
}

/// Calls `DynamicImage::flipv`: the image mirrored top to bottom, named `flipped_vertically`.
#[verifier::external_body]
fn flip_vertical(image: &image::DynamicImage) -> (r: image::DynamicImage)
    ensures
        r == flipped_vertically(*image),
{
    image.flipv()
}

/// Calls `DynamicImage::rotate90`: the image turned a quarter clockwise, named `rotated_90`.
#[verifier::external_body]
fn rotate_90(image: &image::DynamicImage) -> (r: image::DynamicImage)
    ensures
        r == rotated_90(*image),
{
    image.rotate90()
}

/// Calls `DynamicImage::rotate180`: the image turned half round, named `rotated_180`.
#[verifier::external_body]
fn rotate_180(image: &image::DynamicImage) -> (r: image::DynamicImage)
    ensures
        r == rotated_180(*image),
{
    image.rotate180()
}

/// Calls `DynamicImage::rotate270`: the image turned a quarter counter-clockwise, named
/// `rotated_270`.
#[verifier::external_body]
fn rotate_270(image: &image::DynamicImage) -> (r: image::DynamicImage)
    ensures
        r == rotated_270(*image),
{
    image.rotate270()
}

/// What `DynamicImage::thumbnail` gives for `image` and the box `width` × `height`.
pub uninterp spec fn scaled(image: image::DynamicImage, width: u32, height: u32) -> image::DynamicImage;

/// Calls `DynamicImage::thumbnail`: the image scaled down to fit `width` × `height`, keeping its
/// aspect ratio, named `scaled`.
#[verifier::external_body]
fn scaled_to_fit(image: &image::DynamicImage, width: u32, height: u32) -> (r: image::DynamicImage)
    ensures
        r == scaled(*image, width, height),
{
    image.thumbnail(width, height)
}

/// What `DynamicImage::write_to` writes for `image`, as PNG where `png` is set and as JPEG
/// otherwise: the bytes, or the text of the encoder's error.
pub uninterp spec fn encoded(image: image::DynamicImage, png: bool) -> Result<Seq<u8>, Seq<char>>;

/// Calls `DynamicImage::write_to` into a buffer, as PNG where `png` is set and as JPEG otherwise;
/// the bytes written, or the text of the encoder's error, named `encoded`.
#[verifier::external_body]
fn encode_image(image: &image::DynamicImage, png: bool) -> (r: Result<Vec<u8>, String>)
    ensures
        bytes_result(r) == encoded(*image, png),
{
    let format = if png { image::ImageFormat::Png } else { image::ImageFormat::Jpeg };
    let mut bytes: Vec<u8> = Vec::new();
    image.write_to(&mut std::io::Cursor::new(&mut bytes), format).map(|_| bytes).map_err(|error| error.to_string())
}

/// One step applied to an image.
pub open spec fn applied_step(image: image::DynamicImage, step: Transform) -> image::DynamicImage {
    match step {
        Transform::FlipHorizontal => flipped_horizontally(image),
        Transform::FlipVertical => flipped_vertically(image),
        Transform::Rotate90 => rotated_90(image),
        Transform::Rotate180 => rotated_180(image),
        Transform::Rotate270 => rotated_270(image),
    }
}

/// The steps applied to an image in order.
pub open spec fn applied_steps(image: image::DynamicImage, steps: Seq<Transform>) -> image::DynamicImage
    decreases steps.len(),
{
    if steps.len() == 0 {
        image
    } else {
        applied_step(applied_steps(image, steps.drop_last()), steps.last())
    }
}

/// The image turned upright: the steps of its EXIF orientation applied in order.
pub fn upright(image: image::DynamicImage, orientation: u16) -> (r: image::DynamicImage)
    ensures
        r == applied_steps(image, crate::project::orientation_steps(orientation)),
{
    let steps = orientation_transforms(orientation);
    let ghost original = image;
    let mut current = image;
    for i in 0..steps.len()
        invariant
            steps@ == crate::project::orientation_steps(orientation),
            current == applied_steps(original, steps@.take(i as int)),
    {
        proof {
            assert(steps@.take(i + 1).drop_last() =~= steps@.take(i as int));
        }
        current = match steps[i] {
            Transform::FlipHorizontal => flip_horizontal(&current),
            Transform::FlipVertical => flip_vertical(&current),
            Transform::Rotate90 => rotate_90(&current),
            Transform::Rotate180 => rotate_180(&current),
            Transform::Rotate270 => rotate_270(&current),
        };
    }
    assert(steps@.take(steps.len() as int) =~= steps@);
    current
}

/// The beginning of the message of a file at `path` that could not be decoded.
pub open spec fn decode_prefix(path: Seq<char>) -> Seq<char> {
    "Could not decode "@ + path + ": "@
}

/// The format `image::open` reads a file at `path` in: the one its extension names, where an empty
/// extension counts as none (as for a path without an extension, such as the empty path).
pub open spec fn open_format(path: Seq<char>) -> Result<image::ImageFormat, Seq<char>> {
    if crate::paths::extension_spec(path) == Some(Seq::<char>::empty()) {
        path_format(Seq::<char>::empty())
    } else {
        path_format(path)
    }
}

/// The image in the file at `path` holding `bytes`, or the message of its failure.
pub open spec fn decode_spec(path: Seq<char>, bytes: Seq<u8>) -> Result<image::DynamicImage, Seq<char>> {
    match open_format(path) {
        Err(e) => Err(decode_prefix(path) + e),
        Ok(format) => match decoded(bytes, format) {
            Ok(image) => Ok(image),
            Err(e) => Err(decode_prefix(path) + e),
        },
    }
}

/// The bytes the workspace shows for the image at `path` holding `bytes`, or the message of its
/// failure.
pub open spec fn display_spec(path: Seq<char>, bytes: Seq<u8>, orientation: u16) -> Result<Seq<u8>, Seq<char>> {
    let encoding = crate::project::display_encoding_spec(path, orientation);
    if encoding == DisplayEncoding::Original {
        Ok(bytes)
    } else {
        match decode_spec(path, bytes) {
            Err(m) => Err(m),
            Ok(image) => match encoded(
                applied_steps(image, crate::project::orientation_steps(orientation)),
                encoding == DisplayEncoding::Png,
            ) {
                Ok(out) => Ok(out),
                Err(e) => Err("Could not prepare the image for display: "@ + e),
            },
        }
    }
}

/// The JPEG thumbnail of the image at `path` holding `bytes`, or the message of its failure.
pub open spec fn thumbnail_spec(path: Seq<char>, bytes: Seq<u8>, orientation: u16) -> Result<Seq<u8>, Seq<char>> {
    match decode_spec(path, bytes) {
        Err(m) => Err(m),
        Ok(image) => match encoded(
            scaled(applied_steps(image, crate::project::orientation_steps(orientation)), 480, 320),
            false,
        ) {
            Ok(out) => Ok(out),
            Err(e) => Err("Could not encode the thumbnail: "@ + e),
        },
    }
}

/// The message of a file that could not be decoded.
fn decode_failure(path: &str, error: String) -> (r: String)
    ensures
        r@ == decode_prefix(path@) + error@,
{
    let mut message = owned("Could not decode ");
    push_all(&mut message, path);
    push_all(&mut message, ": ");
    push_all(&mut message, error.as_str());
    assert(message@ =~= decode_prefix(path@) + error@);
    message
}

/// The image in the file at `path` holding `bytes`, decoded in the format its extension names; a
/// failure names the file.
pub fn decode(path: &str, bytes: &Vec<u8>) -> (r: Result<image::DynamicImage, String>)
    ensures
        image_result(r) == decode_spec(path@, bytes@),
        plain_relative_path(path@) && !(crate::paths::extension_spec(path@) matches Some(e)
            && format_extension(crate::text::ascii_lowercase_spec(e))) ==> r is Err,
{
    // `image::open` takes an empty extension for none.
    let empty_extension = match crate::paths::extension_of(&crate::text::chars_of(path)) {
        Some(e) => e.len() == 0,
        None => false,
    };
    let found = if empty_extension {
        format_of_path("")
    } else {
        format_of_path(path)
    };
    proof {
        if empty_extension {
            assert(crate::paths::extension_spec(path@) =~= Some(Seq::<char>::empty()));
            assert(""@ =~= Seq::<char>::empty()) by {
                reveal_strlit("");
            }
            assert(plain_relative_path(""@));
        }
    }
    match found {
        Err(error) => Err(decode_failure(path, error)),
        Ok(format) => match decode_bytes(bytes, format) {
            Ok(image) => Ok(image),
            Err(error) => Err(decode_failure(path, error)),
        },
    }
}

/// The bytes the workspace shows for the image at `path` holding `bytes`: the file itself where it
/// can be shown as it is, else the upright image written as PNG (TIFF) or JPEG.
pub fn display_image(path: &str, bytes: Vec<u8>, orientation: u16) -> (r: Result<Vec<u8>, String>)
    ensures
        bytes_result(r) == display_spec(path@, bytes@, orientation),
{
    let encoding = display_encoding(path, orientation);
    if encoding == DisplayEncoding::Original {
        return Ok(bytes);
    }
    let image = match decode(path, &bytes) {
        Ok(image) => image,
        Err(e) => return Err(e),
    };
    let turned = upright(image, orientation);
    match encode_image(&turned, encoding == DisplayEncoding::Png) {
        Ok(out) => Ok(out),
        Err(error) => {
            let mut message = owned("Could not prepare the image for display: ");
            push_all(&mut message, error.as_str());
            Err(message)
        },
    }
}

/// The JPEG thumbnail of the image at `path` holding `bytes`: upright, and scaled down to fit
/// 480 × 320.
pub fn thumbnail_jpeg(path: &str, bytes: &Vec<u8>, orientation: u16) -> (r: Result<Vec<u8>, String>)
    ensures
        bytes_result(r) == thumbnail_spec(path@, bytes@, orientation),
{
    let image = match decode(path, bytes) {
        Ok(image) => image,
        Err(e) => return Err(e),
    };
    let small = scaled_to_fit(&upright(image, orientation), 480, 320);
    match encode_image(&small, false) {
        Ok(out) => Ok(out),
        Err(error) => {
            let mut message = owned("Could not encode the thumbnail: ");
            push_all(&mut message, error.as_str());
            Err(message)
        },
    }
}

} // verus!

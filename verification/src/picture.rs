//! Images on the clipboard: their formats, their previews and their labels.

use std::sync::Arc;
use vstd::prelude::*;
use vstd::string::*;
use vstd::utf8::{encode_utf8, valid_utf8};
use crate::layout::{
    is_layout, lemma_layout_is_bounded, svg_layout, SvgLayout, PREVIEW_MAX_HEIGHT,
    PREVIEW_MAX_WIDTH, THUMBNAIL_SIZE,
};
use crate::decimal::{decimal_reads_back, numeral_value};
use crate::single::is_positive_finite;
use crate::size::{byte_size, format_bytes};
use crate::text::{
    begins_with, contains, decimal, has_substring, lemma_trimmed, push_decimal, same_text,
    stands_at, starts_with, trim, trimmed,
};

verus! {

broadcast use vstd::string::group_string_axioms;

// ---------------------------------------------------------------------------
// Types
// ---------------------------------------------------------------------------

/// An image on the clipboard: its data as it was offered, and two renderings of
/// it in rows of red, green, blue and alpha.
#[derive(Clone, Debug)]
pub struct ClipboardImage {
    pub mime_type: String,
    pub bytes: Arc<Vec<u8>>,
    pub width: u32,
    pub height: u32,
    pub preview_rgba: Arc<Vec<u8>>,
    pub preview_width: u32,
    pub preview_height: u32,
    pub thumbnail_rgba: Arc<Vec<u8>>,
    pub thumbnail_width: u32,
    pub thumbnail_height: u32,
    pub is_svg: bool,
}

/// A format of raster images that the clipboard history shows.
#[derive(Clone, Copy, Debug, PartialEq, Eq, Structural)]
pub enum RasterFormat {
    Png,
    Jpeg,
    WebP,
    Gif,
    Bmp,
    Tiff,
}

/// A format that data seems to have: one of those that are shown, or another.
#[derive(Clone, Copy, Debug, PartialEq, Eq, Structural)]
pub enum GuessedFormat {
    Raster(RasterFormat),
    Other,
}

/// An image in rows of red, green, blue and alpha.
pub struct Pixels {
    pub width: u32,
    pub height: u32,
    pub rgba: Vec<u8>,
}

/// Width and height of a loaded raster image, and how it stores a pixel: in how many
/// bytes and in how many channels.
#[derive(Clone, Copy, Debug, PartialEq, Eq, Structural)]
pub struct RasterShape {
    pub width: u32,
    pub height: u32,
    pub pixel_bytes: u8,
    pub channels: u8,
}

/// A drawn SVG document: the sizes it was drawn at, and the pixels as they come
/// from the renderer, with the colors multiplied by alpha.
pub struct SvgDrawing {
    layout: SvgLayout,
    preview: Vec<u8>,
    thumbnail: Vec<u8>,
}

// ---------------------------------------------------------------------------
// Model
// ---------------------------------------------------------------------------

/// The model of a `ClipboardImage`.
pub ghost struct ImageModel {
    pub mime_type: Seq<char>,
    pub bytes: Seq<u8>,
    pub width: u32,
    pub height: u32,
    pub preview: PixelsModel,
    pub thumbnail: PixelsModel,
    pub is_svg: bool,
}

/// The model of `Pixels`.
pub ghost struct PixelsModel {
    pub width: u32,
    pub height: u32,
    pub rgba: Seq<u8>,
}

impl View for ClipboardImage {
    type V = ImageModel;

    open spec fn view(&self) -> ImageModel {
        ImageModel {
            mime_type: self.mime_type@,
            bytes: self.bytes@,
            width: self.width,
            height: self.height,
            preview: PixelsModel {
                width: self.preview_width,
                height: self.preview_height,
                rgba: self.preview_rgba@,
            },
            thumbnail: PixelsModel {
                width: self.thumbnail_width,
                height: self.thumbnail_height,
                rgba: self.thumbnail_rgba@,
            },
            is_svg: self.is_svg,
        }
    }
}

/// The model of an `SvgDrawing`.
pub ghost struct DrawingModel {
    pub layout: SvgLayout,
    pub preview: Seq<u8>,
    pub thumbnail: Seq<u8>,
}

impl View for SvgDrawing {
    type V = DrawingModel;

    closed spec fn view(&self) -> DrawingModel {
        DrawingModel {
            layout: self.layout,
            preview: self.preview@,
            thumbnail: self.thumbnail@,
        }
    }
}

impl View for Pixels {
    type V = PixelsModel;

    open spec fn view(&self) -> PixelsModel {
        PixelsModel { width: self.width, height: self.height, rgba: self.rgba@ }
    }
}

pub open spec fn image_view(image: Option<ClipboardImage>) -> Option<ImageModel> {
    match image {
        Some(i) => Some(i@),
        None => None,
    }
}

pub open spec fn pixels_view(pixels: Option<Pixels>) -> Option<PixelsModel> {
    match pixels {
        Some(p) => Some(p@),
        None => None,
    }
}

pub open spec fn is_svg_mime(mime: Seq<char>) -> bool {
    mime == "image/svg+xml"@
}

/// The raster format that a media type names.
pub open spec fn format_of_mime(mime: Seq<char>) -> Option<RasterFormat> {
    if mime == "image/png"@ {
        Some(RasterFormat::Png)
    } else if mime == "image/jpeg"@ || mime == "image/jpg"@ {
        Some(RasterFormat::Jpeg)
    } else if mime == "image/webp"@ {
        Some(RasterFormat::WebP)
    } else if mime == "image/gif"@ {
        Some(RasterFormat::Gif)
    } else if mime == "image/bmp"@ || mime == "image/x-bmp"@ {
        Some(RasterFormat::Bmp)
    } else if mime == "image/tiff"@ {
        Some(RasterFormat::Tiff)
    } else {
        None
    }
}

/// The media type of a raster format.
pub open spec fn mime_of_format(format: RasterFormat) -> Seq<char> {
    match format {
        RasterFormat::Png => "image/png"@,
        RasterFormat::Jpeg => "image/jpeg"@,
        RasterFormat::WebP => "image/webp"@,
        RasterFormat::Gif => "image/gif"@,
        RasterFormat::Bmp => "image/bmp"@,
        RasterFormat::Tiff => "image/tiff"@,
    }
}

pub open spec fn mime_of_guess(format: GuessedFormat) -> Option<Seq<char>> {
    match format {
        GuessedFormat::Raster(raster) => Some(mime_of_format(raster)),
        GuessedFormat::Other => None,
    }
}

pub open spec fn is_image_type(mime: Seq<char>) -> bool {
    is_svg_mime(mime) || format_of_mime(mime) is Some
}

pub open spec fn has_prefix(bytes: Seq<u8>, prefix: Seq<u8>) -> bool {
    prefix.len() <= bytes.len() && bytes.take(prefix.len() as int) == prefix
}

/// The raster format whose signature stands at the start of the data.
pub open spec fn signed_format(bytes: Seq<u8>) -> Option<RasterFormat> {
    if has_prefix(bytes, seq![0x89u8, 0x50, 0x4e, 0x47, 0x0d, 0x0a, 0x1a, 0x0a]) {
        Some(RasterFormat::Png)
    } else if has_prefix(bytes, seq![0xffu8, 0xd8, 0xff]) {
        Some(RasterFormat::Jpeg)
    } else if has_prefix(bytes, seq![0x47u8, 0x49, 0x46, 0x38, 0x39, 0x61]) || has_prefix(
        bytes,
        seq![0x47u8, 0x49, 0x46, 0x38, 0x37, 0x61],
    ) {
        Some(RasterFormat::Gif)
    } else if bytes.len() >= 12 && has_prefix(bytes, seq![0x52u8, 0x49, 0x46, 0x46])
        && has_prefix(bytes.skip(8), seq![0x57u8, 0x45, 0x42, 0x50]) {
        Some(RasterFormat::WebP)
    } else if has_prefix(bytes, seq![0x4du8, 0x4d, 0x00, 0x2a]) || has_prefix(
        bytes,
        seq![0x49u8, 0x49, 0x2a, 0x00],
    ) {
        Some(RasterFormat::Tiff)
    } else if has_prefix(bytes, seq![0x42u8, 0x4d]) {
        Some(RasterFormat::Bmp)
    } else {
        None
    }
}

/// Width, height, bytes per pixel and channels of an image, from
/// `image::load_from_memory_with_format`, `DynamicImage::width`,
/// `DynamicImage::height` and `DynamicImage::color`: nothing where the image does not
/// load.
pub uninterp spec fn loaded_shape(bytes: Seq<u8>, format: RasterFormat) -> Option<RasterShape>;

/// An image that is scaled to fit a box, from
/// `image::load_from_memory_with_format`, `DynamicImage::thumbnail` and
/// `DynamicImage::to_rgba8`.
pub uninterp spec fn fitted_pixels(
    bytes: Seq<u8>,
    format: RasterFormat,
    max_width: u32,
    max_height: u32,
) -> Option<PixelsModel>;

pub open spec fn lesser(a: u32, b: u32) -> u32 {
    if a <= b {
        a
    } else {
        b
    }
}

/// The least number of pixels that a side of an image has once the image is scaled to
/// fit a box. The other side may be what limits it, and halves may be rounded down.
pub open spec fn scaled_side(side: nat, other: nat, max: nat, other_max: nat) -> nat {
    let limited = (2 * side * other_max + other - 1) as nat / (2 * other);
    let least = if limited < max {
        limited
    } else {
        max
    };
    if least == 0 {
        1
    } else {
        least
    }
}

/// The most pixels along a side that scaling puts together to one of `scaled` pixels.
/// The quotient of the two numbers is computed in single precision, and what is lost by
/// that stays below `side / 2^22`.
pub open spec fn cell_side(side: nat, scaled: nat) -> nat {
    let most = (side * (0x40_0000 + scaled) + scaled * 0x40_0000 - 1) as nat / (scaled
        * 0x40_0000);
    if most < side {
        most
    } else {
        side
    }
}

/// Whether the samples of so many pixels can be added up and rounded: in 32 bits where
/// a sample has one byte or two, otherwise in floating point. The pixels are counted in
/// 32 bits in any case.
pub open spec fn has_a_sum(cell: nat, shape: RasterShape) -> bool {
    if shape.pixel_bytes == shape.channels {
        cell * 255 + cell / 2 <= u32::MAX
    } else if shape.pixel_bytes == 2 * shape.channels {
        cell * 65535 + cell / 2 <= u32::MAX
    } else {
        cell <= u32::MAX
    }
}

/// Whether an image can be scaled to fit a box: the pixels that are put together to one
/// have a sum.
pub open spec fn is_scalable(shape: RasterShape, max_width: u32, max_height: u32) -> bool {
    let width = shape.width as nat;
    let height = shape.height as nat;
    width > 0 && height > 0 ==> {
        let across = cell_side(
            width,
            scaled_side(width, height, max_width as nat, max_height as nat),
        );
        let down = cell_side(
            height,
            scaled_side(height, width, max_height as nat, max_width as nat),
        );
        has_a_sum(across * down, shape)
    }
}

/// Whether an image can be scaled to a preview and to a thumbnail.
pub open spec fn has_renderings(shape: RasterShape) -> bool {
    &&& is_scalable(
        shape,
        lesser(PREVIEW_MAX_WIDTH, shape.width),
        lesser(PREVIEW_MAX_HEIGHT, shape.height),
    )
    &&& is_scalable(
        shape,
        lesser(THUMBNAIL_SIZE, shape.width),
        lesser(THUMBNAIL_SIZE, shape.height),
    )
}

/// Whether data of a raster format can be decoded: if it loads, it can be scaled.
pub open spec fn is_decodable_raster(bytes: Seq<u8>, format: RasterFormat) -> bool {
    loaded_shape(bytes, format) matches Some(shape) ==> has_renderings(shape)
}

/// Whether data can be decoded as an image of the given media type.
pub open spec fn is_decodable(mime: Seq<char>, bytes: Seq<u8>) -> bool {
    !is_svg_mime(mime) ==> (format_of_mime(mime) matches Some(format) ==> is_decodable_raster(
        bytes,
        format,
    ))
}

/// A raster image of the given size with its two renderings.
pub open spec fn raster_model(
    mime: Seq<char>,
    bytes: Seq<u8>,
    size: (u32, u32),
    preview: PixelsModel,
    thumbnail: PixelsModel,
) -> Option<ImageModel> {
    if size.0 > 0 && size.1 > 0 {
        Some(
            ImageModel {
                mime_type: mime,
                bytes,
                width: size.0,
                height: size.1,
                preview,
                thumbnail,
                is_svg: false,
            },
        )
    } else {
        None
    }
}

/// A raster image as it is loaded.
pub open spec fn decoded_raster(mime: Seq<char>, bytes: Seq<u8>, format: RasterFormat) -> Option<
    ImageModel,
> {
    match loaded_shape(bytes, format) {
        None => None,
        Some(shape) => {
            let preview = fitted_pixels(
                bytes,
                format,
                lesser(PREVIEW_MAX_WIDTH, shape.width),
                lesser(PREVIEW_MAX_HEIGHT, shape.height),
            );
            let thumbnail = fitted_pixels(
                bytes,
                format,
                lesser(THUMBNAIL_SIZE, shape.width),
                lesser(THUMBNAIL_SIZE, shape.height),
            );
            raster_model(mime, bytes, (shape.width, shape.height), preview->0, thumbnail->0)
        },
    }
}

/// Whether a rendering is a whole image within a box.
pub open spec fn lies_within(pixels: PixelsModel, max_width: u32, max_height: u32) -> bool {
    &&& 1 <= pixels.width <= max_width
    &&& 1 <= pixels.height <= max_height
    &&& pixels.rgba.len() == pixels.width * pixels.height * 4
}

/// Whether an image is not empty and its renderings are neither larger than it
/// nor larger than they may be.
pub open spec fn is_well_sized(image: ImageModel) -> bool {
    &&& lies_within(
        image.preview,
        lesser(PREVIEW_MAX_WIDTH, image.width),
        lesser(PREVIEW_MAX_HEIGHT, image.height),
    )
    &&& lies_within(
        image.thumbnail,
        lesser(THUMBNAIL_SIZE, image.width),
        lesser(THUMBNAIL_SIZE, image.height),
    )
}

/// A color channel without the factor alpha.
pub open spec fn straight_channel(channel: u8, alpha: u8) -> u8 {
    if alpha == 0 {
        0
    } else if channel as int * 255 / alpha as int > 255 {
        255
    } else {
        (channel as int * 255 / alpha as int) as u8
    }
}

/// Pixels without the factor alpha. Bytes after the last whole pixel stay.
pub open spec fn straight_pixels(pixels: Seq<u8>) -> Seq<u8> {
    Seq::new(
        pixels.len(),
        |i: int|
            if i % 4 == 3 || i >= pixels.len() - pixels.len() % 4 {
                pixels[i]
            } else {
                straight_channel(pixels[i], pixels[i - i % 4 + 3])
            },
    )
}

/// An SVG document with what was drawn of it.
pub open spec fn svg_model(bytes: Seq<u8>, drawing: SvgDrawing) -> ImageModel {
    ImageModel {
        mime_type: "image/svg+xml"@,
        bytes,
        width: drawing@.layout.width,
        height: drawing@.layout.height,
        preview: PixelsModel {
            width: drawing@.layout.preview.width,
            height: drawing@.layout.preview.height,
            rgba: straight_pixels(drawing@.preview),
        },
        thumbnail: PixelsModel {
            width: drawing@.layout.thumbnail.width,
            height: drawing@.layout.thumbnail.height,
            rgba: straight_pixels(drawing@.thumbnail),
        },
        is_svg: true,
    }
}

pub open spec fn decoded_svg(bytes: Seq<u8>, drawing: Option<SvgDrawing>) -> Option<ImageModel> {
    match drawing {
        Some(d) => Some(svg_model(bytes, d)),
        None => None,
    }
}

/// An image of the given media type. Of an SVG document, `drawing` is what the
/// renderer made of it, if it could.
pub open spec fn decoded_image(
    mime: Seq<char>,
    bytes: Seq<u8>,
    drawing: Option<SvgDrawing>,
) -> Option<ImageModel> {
    if is_svg_mime(mime) {
        decoded_svg(bytes, drawing)
    } else {
        match format_of_mime(mime) {
            Some(format) => decoded_raster(mime, bytes, format),
            None => None,
        }
    }
}

/// Whether text looks like a complete SVG document.
pub open spec fn is_plausible_svg(text: Seq<char>) -> bool {
    let t = trimmed(text);
    begins_with(t, "<svg"@) || (begins_with(t, "<?xml"@) && has_substring(t, "<svg"@))
}

pub open spec fn label_of_image(image: ImageModel) -> Seq<char> {
    decimal(image.width as nat) + " × "@ + decimal(image.height as nat) + " · "@ + byte_size(
        image.bytes.len(),
    )
}

// ---------------------------------------------------------------------------
// Formats
// ---------------------------------------------------------------------------

/// The raster format that a media type names.
pub fn image_format(mime: &str) -> (r: Option<RasterFormat>)
    ensures
        r == format_of_mime(mime@),
{
    if same_text(mime, "image/png") {
        Some(RasterFormat::Png)
    } else if same_text(mime, "image/jpeg") || same_text(mime, "image/jpg") {
        Some(RasterFormat::Jpeg)
    } else if same_text(mime, "image/webp") {
        Some(RasterFormat::WebP)
    } else if same_text(mime, "image/gif") {
        Some(RasterFormat::Gif)
    } else if same_text(mime, "image/bmp") || same_text(mime, "image/x-bmp") {
        Some(RasterFormat::Bmp)
    } else if same_text(mime, "image/tiff") {
        Some(RasterFormat::Tiff)
    } else {
        None
    }
}

/// The media type for a format, if images of that format are shown.
pub fn mime_for_image_format(format: GuessedFormat) -> (r: Option<&'static str>)
    ensures
        (match r {
            Some(mime) => Some(mime@),
            None => None,
        }) == mime_of_guess(format),
{
    match format {
        GuessedFormat::Raster(RasterFormat::Png) => Some("image/png"),
        GuessedFormat::Raster(RasterFormat::Jpeg) => Some("image/jpeg"),
        GuessedFormat::Raster(RasterFormat::WebP) => Some("image/webp"),
        GuessedFormat::Raster(RasterFormat::Gif) => Some("image/gif"),
        GuessedFormat::Raster(RasterFormat::Bmp) => Some("image/bmp"),
        GuessedFormat::Raster(RasterFormat::Tiff) => Some("image/tiff"),
        GuessedFormat::Other => None,
    }
}

/// Whether a media type is one of an image that is shown.
pub fn is_image_mime(mime: &str) -> (r: bool)
    ensures
        r == is_image_type(mime@),
{
    same_text(mime, "image/svg+xml") || image_format(mime).is_some()
}

/// `image::guess_format` compares the start of the data with a table of
/// signatures. The contract gives the signatures of the six formats that are
/// shown; of other data it says that none of the six comes out.
#[verifier::external_body]
pub(crate) fn guess_format(bytes: &[u8]) -> (r: Option<GuessedFormat>)
    ensures
        match signed_format(bytes@) {
            Some(format) => r == Some(GuessedFormat::Raster(format)),
            None => r is None || r == Some(GuessedFormat::Other),
        },
{
    Some(match image::guess_format(bytes).ok()? {
        image::ImageFormat::Png => GuessedFormat::Raster(RasterFormat::Png),
        image::ImageFormat::Jpeg => GuessedFormat::Raster(RasterFormat::Jpeg),
        image::ImageFormat::WebP => GuessedFormat::Raster(RasterFormat::WebP),
        image::ImageFormat::Gif => GuessedFormat::Raster(RasterFormat::Gif),
        image::ImageFormat::Bmp => GuessedFormat::Raster(RasterFormat::Bmp),
        image::ImageFormat::Tiff => GuessedFormat::Raster(RasterFormat::Tiff),
        _ => GuessedFormat::Other,
    })
}

// ---------------------------------------------------------------------------
// Raster images
// ---------------------------------------------------------------------------

/// `image::load_from_memory_with_format` loads the image, and its width, height and
/// `image::ColorType` are taken, which says how a pixel is stored. What they are, is only
/// named.
#[verifier::external_body]
fn load_shape(bytes: &[u8], format: RasterFormat) -> (r: Option<RasterShape>)
    ensures
        r == loaded_shape(bytes@, format),
{
    let format = match format {
        RasterFormat::Png => image::ImageFormat::Png,
        RasterFormat::Jpeg => image::ImageFormat::Jpeg,
        RasterFormat::WebP => image::ImageFormat::WebP,
        RasterFormat::Gif => image::ImageFormat::Gif,
        RasterFormat::Bmp => image::ImageFormat::Bmp,
        RasterFormat::Tiff => image::ImageFormat::Tiff,
    };
    let loaded = image::load_from_memory_with_format(bytes, format).ok()?;
    let (width, height, color) = (loaded.width(), loaded.height(), loaded.color());
    let (pixel_bytes, channels) = (color.bytes_per_pixel(), color.channel_count());
    Some(RasterShape { width, height, pixel_bytes, channels })
}

/// `image::load_from_memory_with_format` loads the image, `DynamicImage::thumbnail`
/// scales it to fit the box and `DynamicImage::to_rgba8` gives its pixels. What
/// they are, is only named. Scaling adds up the samples of all pixels that go into one,
/// and does not fail as long as there is a sum; the result lies within the box, but is at
/// least one pixel wide and high, and each of its pixels has four bytes.
#[verifier::external_body]
fn load_fitted(bytes: &[u8], format: RasterFormat, max_width: u32, max_height: u32) -> (r: Option<
    Pixels,
>)
    requires
        max_width <= PREVIEW_MAX_WIDTH,
        max_height <= PREVIEW_MAX_HEIGHT,
        loaded_shape(bytes@, format) matches Some(shape) ==> is_scalable(
            shape,
            max_width,
            max_height,
        ),
    ensures
        pixels_view(r) == fitted_pixels(bytes@, format, max_width, max_height),
        r is Some <==> loaded_shape(bytes@, format) is Some,
        r matches Some(p) ==> {
            &&& 1 <= p.width
            &&& p.width == 1 || p.width <= max_width
            &&& 1 <= p.height
            &&& p.height == 1 || p.height <= max_height
            &&& p.rgba@.len() == p.width * p.height * 4
        },
{
    let format = match format {
        RasterFormat::Png => image::ImageFormat::Png,
        RasterFormat::Jpeg => image::ImageFormat::Jpeg,
        RasterFormat::WebP => image::ImageFormat::WebP,
        RasterFormat::Gif => image::ImageFormat::Gif,
        RasterFormat::Bmp => image::ImageFormat::Bmp,
        RasterFormat::Tiff => image::ImageFormat::Tiff,
    };
    let loaded = image::load_from_memory_with_format(bytes, format).ok()?;
    let scaled = loaded.thumbnail(max_width, max_height).to_rgba8();
    Some(Pixels { width: scaled.width(), height: scaled.height(), rgba: scaled.into_raw() })
}

/// A raster image of the given size with its two renderings; none where the image
/// is empty.
pub fn raster_image(
    mime_type: &str,
    bytes: Vec<u8>,
    size: (u32, u32),
    preview: Pixels,
    thumbnail: Pixels,
) -> (r: Option<ClipboardImage>)
    ensures
        image_view(r) == raster_model(mime_type@, bytes@, size, preview@, thumbnail@),
{
    if size.0 > 0 && size.1 > 0 {
        Some(
            ClipboardImage {
                mime_type: mime_type.to_owned(),
                bytes: Arc::new(bytes),
                width: size.0,
                height: size.1,
                preview_rgba: Arc::new(preview.rgba),
                preview_width: preview.width,
                preview_height: preview.height,
                thumbnail_rgba: Arc::new(thumbnail.rgba),
                thumbnail_width: thumbnail.width,
                thumbnail_height: thumbnail.height,
                is_svg: false,
            },
        )
    } else {
        None
    }
}

fn min_of(a: u32, b: u32) -> (r: u32)
    ensures
        r == lesser(a, b),
{
    if a <= b {
        a
    } else {
        b
    }
}

fn scaled_length(side: u32, other: u32, max: u32, other_max: u32) -> (r: u32)
    requires
        other > 0,
        max <= PREVIEW_MAX_WIDTH,
        other_max <= PREVIEW_MAX_WIDTH,
    ensures
        r == scaled_side(side as nat, other as nat, max as nat, other_max as nat),
        1 <= r <= PREVIEW_MAX_WIDTH,
{
    proof {
        assert(2 * side * other_max <= 2 * 0xffff_ffff * 960) by (nonlinear_arith)
            requires
                side <= 0xffff_ffff,
                other_max <= 960,
        ;
    }
    let limited: u64 = (2 * side as u64 * other_max as u64 + other as u64 - 1) / (2
        * other as u64);
    let least: u32 = if limited < max as u64 {
        limited as u32
    } else {
        max
    };
    if least == 0 {
        1
    } else {
        least
    }
}

fn cell_length(side: u32, scaled: u32) -> (r: u32)
    requires
        1 <= scaled <= PREVIEW_MAX_WIDTH,
    ensures
        r == cell_side(side as nat, scaled as nat),
        r <= side,
{
    proof {
        assert(side * (0x40_0000 + scaled) <= 0xffff_ffff * 0x40_03c0) by (nonlinear_arith)
            requires
                side <= 0xffff_ffff,
                scaled <= 960,
        ;
    }
    let most: u64 = (side as u64 * (0x40_0000 + scaled as u64) + scaled as u64 * 0x40_0000 - 1)
        / (scaled as u64 * 0x40_0000);
    if most < side as u64 {
        most as u32
    } else {
        side
    }
}

/// Whether an image can be scaled to fit a box.
pub fn can_scale(shape: RasterShape, max_width: u32, max_height: u32) -> (r: bool)
    requires
        max_width <= PREVIEW_MAX_WIDTH,
        max_height <= PREVIEW_MAX_HEIGHT,
    ensures
        r == is_scalable(shape, max_width, max_height),
{
    if shape.width == 0 || shape.height == 0 {
        return true;
    }
    let columns = scaled_length(shape.width, shape.height, max_width, max_height);
    let rows = scaled_length(shape.height, shape.width, max_height, max_width);
    let across = cell_length(shape.width, columns);
    let down = cell_length(shape.height, rows);
    assert(across * down <= 0xffff_ffff * 0xffff_ffff) by (nonlinear_arith)
        requires
            across <= 0xffff_ffff,
            down <= 0xffff_ffff,
    ;
    let cell: u128 = across as u128 * down as u128;
    assert(cell == across as nat * down as nat);
    if shape.pixel_bytes == shape.channels {
        cell * 255 + cell / 2 <= u32::MAX as u128
    } else if shape.pixel_bytes as u16 == 2 * shape.channels as u16 {
        cell * 65535 + cell / 2 <= u32::MAX as u128
    } else {
        cell <= u32::MAX as u128
    }
}

/// Whether data of a raster format can be decoded.
pub(crate) fn can_decode_raster(bytes: &[u8], format: RasterFormat) -> (r: bool)
    ensures
        r == is_decodable_raster(bytes@, format),
{
    match load_shape(bytes, format) {
        Some(shape) => can_scale(
            shape,
            min_of(PREVIEW_MAX_WIDTH, shape.width),
            min_of(PREVIEW_MAX_HEIGHT, shape.height),
        ) && can_scale(
            shape,
            min_of(THUMBNAIL_SIZE, shape.width),
            min_of(THUMBNAIL_SIZE, shape.height),
        ),
        None => true,
    }
}

/// Whether data can be decoded as an image of the given media type.
pub fn can_decode_image(mime_type: &str, bytes: &[u8]) -> (r: bool)
    ensures
        r == is_decodable(mime_type@, bytes@),
{
    if same_text(mime_type, "image/svg+xml") {
        return true;
    }
    match image_format(mime_type) {
        Some(format) => can_decode_raster(bytes, format),
        None => true,
    }
}

fn decode_raster(mime_type: &str, bytes: Vec<u8>, format: RasterFormat) -> (r: Option<
    ClipboardImage,
>)
    requires
        is_decodable_raster(bytes@, format),
    ensures
        image_view(r) == decoded_raster(mime_type@, bytes@, format),
        r matches Some(image) ==> is_well_sized(image@),
{
    let shape = load_shape(bytes.as_slice(), format)?;
    let preview = load_fitted(
        bytes.as_slice(),
        format,
        min_of(PREVIEW_MAX_WIDTH, shape.width),
        min_of(PREVIEW_MAX_HEIGHT, shape.height),
    )?;
    let thumbnail = load_fitted(
        bytes.as_slice(),
        format,
        min_of(THUMBNAIL_SIZE, shape.width),
        min_of(THUMBNAIL_SIZE, shape.height),
    )?;
    raster_image(mime_type, bytes, (shape.width, shape.height), preview, thumbnail)
}

// ---------------------------------------------------------------------------
// SVG documents
// ---------------------------------------------------------------------------

/// Whether data is text, or compressed.
pub open spec fn is_document(bytes: Seq<u8>) -> bool {
    valid_utf8(bytes) || has_prefix(bytes, seq![0x1fu8, 0x8b])
}

/// Whether `resvg::usvg::Tree::from_data` reads data as a document, with the default
/// options.
pub uninterp spec fn reads_as_svg(bytes: Seq<u8>) -> bool;

/// `resvg::usvg::Tree::from_data` reads a document with the default options and
/// `Tree::size` gives its width and height, here as the bits of the numbers. Which data
/// it reads is only named: that is decided before the files are looked at to which a
/// document may refer. What it reads is text, unless it is compressed. Width and height
/// are positive and finite; nothing else is said of them, since they may depend on
/// those files.
#[verifier::external_body]
fn svg_size(bytes: &[u8]) -> (r: Option<(u32, u32)>)
    ensures
        r is Some <==> reads_as_svg(bytes@),
        r is Some ==> is_document(bytes@),
        r matches Some(size) ==> is_positive_finite(size.0) && is_positive_finite(size.1),
{
    let tree = resvg::usvg::Tree::from_data(bytes, &resvg::usvg::Options::default()).ok()?;
    Some((tree.size().width().to_bits(), tree.size().height().to_bits()))
}

/// The sizes at which a document is to be drawn; none where it cannot be read.
pub fn plan_svg(bytes: &[u8]) -> (r: Option<SvgLayout>)
    ensures
        r is Some <==> reads_as_svg(bytes@),
        r is Some ==> is_document(bytes@),
        r matches Some(layout) ==> is_layout(layout),
{
    match svg_size(bytes) {
        Some((width, height)) => Some(svg_layout(width, height)),
        None => None,
    }
}

/// Whether the buffers of a drawing have four bytes for each pixel of its layout.
pub open spec fn fills_layout(layout: SvgLayout, preview: Seq<u8>, thumbnail: Seq<u8>) -> bool {
    &&& preview.len() == layout.preview.width * layout.preview.height * 4
    &&& thumbnail.len() == layout.thumbnail.width * layout.thumbnail.height * 4
}

impl SvgDrawing {
    #[verifier::type_invariant]
    spec fn is_whole(self) -> bool {
        is_layout(self.layout) && fills_layout(self.layout, self.preview@, self.thumbnail@)
    }

    /// What was drawn at the sizes of a layout; none where the buffers do not have those
    /// sizes.
    pub fn new(layout: SvgLayout, preview: Vec<u8>, thumbnail: Vec<u8>) -> (r: Option<SvgDrawing>)
        requires
            is_layout(layout),
        ensures
            r is Some <==> fills_layout(layout, preview@, thumbnail@),
            r matches Some(drawing) ==> drawing@ == (DrawingModel {
                layout,
                preview: preview@,
                thumbnail: thumbnail@,
            }),
    {
        proof {
            lemma_layout_is_bounded(layout);
            assert(layout.preview.width * layout.preview.height <= 960 * 540) by (nonlinear_arith)
                requires
                    layout.preview.width <= 960,
                    layout.preview.height <= 540,
            ;
            assert(layout.thumbnail.width * layout.thumbnail.height <= 16 * 16) by (nonlinear_arith)
                requires
                    layout.thumbnail.width <= 16,
                    layout.thumbnail.height <= 16,
            ;
        }
        let shown: u32 = layout.preview.width * layout.preview.height * 4;
        let small: u32 = layout.thumbnail.width * layout.thumbnail.height * 4;
        if preview.len() == shown as usize && thumbnail.len() == small as usize {
            Some(SvgDrawing { layout, preview, thumbnail })
        } else {
            None
        }
    }
}

/// Takes the factor alpha out of the colors.
pub fn unmultiply(pixels: &mut Vec<u8>)
    ensures
        final(pixels)@ == straight_pixels(old(pixels)@),
{
    let len = pixels.len();
    let mut i: usize = 0;
    let ghost before = pixels@;
    while len - i >= 4
        invariant
            i <= len,
            i % 4 == 0,
            len == before.len(),
            pixels@.len() == len,
            forall|k: int| 0 <= k < i ==> #[trigger] pixels@[k] == straight_pixels(before)[k],
            forall|k: int| i <= k < len ==> #[trigger] pixels@[k] == before[k],
        decreases len - i,
    {
        let alpha = pixels[i + 3];
        let mut c: usize = 0;
        while c < 3
            invariant
                c <= 3,
                i + 4 <= len,
                i % 4 == 0,
                len == before.len(),
                pixels@.len() == len,
                alpha == before[i + 3],
                forall|k: int|
                    0 <= k < i + c ==> #[trigger] pixels@[k] == straight_pixels(before)[k],
                forall|k: int| i + c <= k < len ==> #[trigger] pixels@[k] == before[k],
            decreases 3 - c,
        {
            let channel = pixels[i + c];
            let straight: u8 = if alpha == 0 {
                0
            } else {
                let quotient: u16 = channel as u16 * 255 / alpha as u16;
                if quotient > 255 {
                    255
                } else {
                    quotient as u8
                }
            };
            pixels.set(i + c, straight);
            assert(straight == straight_channel(channel, alpha));
            assert((i + c) % 4 == c);
            c = c + 1;
        }
        assert(pixels@[i + 3] == straight_pixels(before)[i + 3]);
        i = i + 4;
    }
    assert(pixels@ =~= straight_pixels(before));
}

/// An SVG document with what the renderer made of it.
pub fn decode_svg(bytes: Vec<u8>, drawing: Option<SvgDrawing>) -> (r: Option<ClipboardImage>)
    ensures
        image_view(r) == decoded_svg(bytes@, drawing),
        r matches Some(image) ==> is_well_sized(image@),
{
    match drawing {
        Some(whole) => {
            proof {
                use_type_invariant(&whole);
                lemma_layout_is_bounded(whole.layout);
            }
            let SvgDrawing { layout, preview, thumbnail } = whole;
            let mut preview_rgba = preview;
            let mut thumbnail_rgba = thumbnail;
            unmultiply(&mut preview_rgba);
            unmultiply(&mut thumbnail_rgba);
            Some(
                ClipboardImage {
                    mime_type: "image/svg+xml".to_owned(),
                    bytes: Arc::new(bytes),
                    width: layout.width,
                    height: layout.height,
                    preview_rgba: Arc::new(preview_rgba),
                    preview_width: layout.preview.width,
                    preview_height: layout.preview.height,
                    thumbnail_rgba: Arc::new(thumbnail_rgba),
                    thumbnail_width: layout.thumbnail.width,
                    thumbnail_height: layout.thumbnail.height,
                    is_svg: true,
                },
            )
        },
        None => None,
    }
}

/// Whether text looks like a complete SVG document.
pub fn looks_like_svg(text: &str) -> (r: bool)
    ensures
        r == is_plausible_svg(text@),
{
    let trimmed_text = trim(text);
    starts_with(trimmed_text, "<svg") || (starts_with(trimmed_text, "<?xml") && contains(
        trimmed_text,
        "<svg",
    ))
}

/// An SVG document that was copied as text, with what the renderer made of it.
pub fn detect_svg_text(text: &str, drawing: Option<SvgDrawing>) -> (r: Option<ClipboardImage>)
    ensures
        image_view(r) == (if is_plausible_svg(text@) {
            decoded_svg(encode_utf8(text@), drawing)
        } else {
            None
        }),
        r matches Some(image) ==> is_well_sized(image@),
{
    if looks_like_svg(text) {
        decode_svg(text.as_bytes_vec(), drawing)
    } else {
        None
    }
}

// ---------------------------------------------------------------------------
// Images
// ---------------------------------------------------------------------------

/// An image of the given media type. Of an SVG document, `drawing` is what the
/// renderer made of it, if it could.
pub fn decode_image(mime_type: &str, bytes: Vec<u8>, drawing: Option<SvgDrawing>) -> (r: Option<
    ClipboardImage,
>)
    requires
        is_decodable(mime_type@, bytes@),
    ensures
        image_view(r) == decoded_image(mime_type@, bytes@, drawing),
        r matches Some(image) ==> is_well_sized(image@),
{
    if same_text(mime_type, "image/svg+xml") {
        return decode_svg(bytes, drawing);
    }
    match image_format(mime_type) {
        Some(format) => decode_raster(mime_type, bytes, format),
        None => None,
    }
}

/// The label of an image: its size in pixels and in bytes.
pub fn image_label(image: &ClipboardImage) -> (r: String)
    ensures
        r@ == label_of_image(image@),
{
    let mut out = String::new();
    push_decimal(&mut out, image.width as u64);
    out.append(" × ");
    push_decimal(&mut out, image.height as u64);
    out.append(" · ");
    let size = format_bytes(image.bytes.len() as u64);
    out.append(size.as_str());
    assert(out@ =~= label_of_image(image@));
    out
}

impl ClipboardImage {
    /// A copy that shares the data.
    pub(crate) fn share(&self) -> (r: ClipboardImage)
        ensures
            r@ == self@,
    {
        ClipboardImage {
            mime_type: self.mime_type.clone(),
            bytes: self.bytes.clone(),
            width: self.width,
            height: self.height,
            preview_rgba: self.preview_rgba.clone(),
            preview_width: self.preview_width,
            preview_height: self.preview_height,
            thumbnail_rgba: self.thumbnail_rgba.clone(),
            thumbnail_width: self.thumbnail_width,
            thumbnail_height: self.thumbnail_height,
            is_svg: self.is_svg,
        }
    }
}

// ---------------------------------------------------------------------------
// Laws
// ---------------------------------------------------------------------------

/// The media type of a format names that format, and is one of an image that is
/// shown.
pub proof fn image_formats_round_trip(format: RasterFormat)
    ensures
        format_of_mime(mime_of_format(format)) == Some(format),
        is_image_type(mime_of_format(format)),
{
    reveal_strlit("image/png");
    reveal_strlit("image/jpeg");
    reveal_strlit("image/jpg");
    reveal_strlit("image/webp");
    reveal_strlit("image/gif");
    reveal_strlit("image/bmp");
    reveal_strlit("image/x-bmp");
    reveal_strlit("image/tiff");
    let mime = mime_of_format(format);
    assert("image/png"@[6] == 'p');
    assert("image/jpeg"@[8] == 'e');
    assert("image/jpg"@[6] == 'j');
    assert("image/webp"@[6] == 'w');
    assert("image/gif"@[6] == 'g');
    assert("image/bmp"@[6] == 'b');
    assert("image/tiff"@[6] == 't');
}

/// Taking the factor alpha out changes neither alpha nor the length, and leaves
/// opaque pixels as they are.
pub proof fn straight_pixels_keep(pixels: Seq<u8>, i: int)
    requires
        0 <= i < pixels.len(),
    ensures
        straight_pixels(pixels).len() == pixels.len(),
        i % 4 == 3 ==> straight_pixels(pixels)[i] == pixels[i],
        i - i % 4 + 3 < pixels.len() && pixels[i - i % 4 + 3] == 255 ==> straight_pixels(pixels)[i]
            == pixels[i],
{
}

/// Taking the factor alpha out and multiplying it in again gives a channel back, up to the
/// rounding down. Without alpha there is no color, and no channel exceeds its range.
pub proof fn straight_channels_multiply_back(pixels: Seq<u8>, i: int)
    requires
        0 <= i < pixels.len(),
        i % 4 != 3,
        i - i % 4 + 3 < pixels.len(),
    ensures
        ({
            let alpha = pixels[i - i % 4 + 3] as int;
            let straight = straight_pixels(pixels)[i] as int;
            &&& alpha == 0 ==> straight == 0
            &&& alpha > 0 && pixels[i] <= alpha ==> straight * alpha <= pixels[i] * 255 < (straight
                + 1) * alpha
            &&& alpha > 0 && pixels[i] > alpha ==> straight == 255
        }),
{
    let alpha = pixels[i - i % 4 + 3] as int;
    let channel = pixels[i] as int;
    assert(i < pixels.len() - pixels.len() % 4);
    assert(straight_pixels(pixels)[i] == straight_channel(pixels[i], pixels[i - i % 4 + 3]));
    if alpha > 0 {
        let q = channel * 255 / alpha;
        vstd::arithmetic::div_mod::lemma_fundamental_div_mod(channel * 255, alpha);
        assert(q * alpha <= channel * 255 < (q + 1) * alpha) by (nonlinear_arith)
            requires
                channel * 255 == alpha * q + (channel * 255) % alpha,
                0 <= (channel * 255) % alpha < alpha,
        ;
        if channel <= alpha {
            assert(q <= 255) by (nonlinear_arith)
                requires
                    q * alpha <= channel * 255,
                    channel <= alpha,
                    alpha > 0,
            ;
        } else {
            assert(q >= 255) by (nonlinear_arith)
                requires
                    channel * 255 < (q + 1) * alpha,
                    channel > alpha,
                    alpha > 0,
            ;
        }
    }
}

/// The label of an image tells its width, its height and the size of its data.
pub proof fn image_labels_read_back(image: ImageModel)
    ensures
        ({
            let label = label_of_image(image);
            let a = decimal(image.width as nat).len() as int;
            let b = decimal(image.height as nat).len() as int;
            &&& numeral_value(label.subrange(0, a)) == image.width
            &&& label.subrange(a, a + 3) == seq![' ', '×', ' ']
            &&& numeral_value(label.subrange(a + 3, a + 3 + b)) == image.height
            &&& label.subrange(a + 3 + b, a + b + 6) == seq![' ', '·', ' ']
            &&& label.skip(a + b + 6) == byte_size(image.bytes.len())
        }),
{
    reveal_strlit(" × ");
    reveal_strlit(" · ");
    decimal_reads_back(image.width as nat);
    decimal_reads_back(image.height as nat);
    let label = label_of_image(image);
    let a = decimal(image.width as nat).len() as int;
    let b = decimal(image.height as nat).len() as int;
    assert(label.subrange(0, a) =~= decimal(image.width as nat));
    assert(label.subrange(a, a + 3) =~= seq![' ', '×', ' ']);
    assert(label.subrange(a + 3, a + 3 + b) =~= decimal(image.height as nat));
    assert(label.subrange(a + 3 + b, a + b + 6) =~= seq![' ', '·', ' ']);
    assert(label.skip(a + b + 6) =~= byte_size(image.bytes.len()));
}

/// Whether text is taken for an SVG document: it begins with the element, or with an XML
/// declaration and has the element somewhere. Whitespace around it does not matter.
pub proof fn svg_documents_are_known_by_their_start(text: Seq<char>, rest: Seq<char>, i: int)
    ensures
        is_plausible_svg(trimmed(text)) == is_plausible_svg(text),
        trimmed(text) == seq!['<', 's', 'v', 'g'] + rest ==> is_plausible_svg(text),
        trimmed(text) == seq!['<', '?', 'x', 'm', 'l'] + rest && 0 <= i && i + 4
            <= trimmed(text).len() && trimmed(text).subrange(i, i + 4) == seq!['<', 's', 'v', 'g']
            ==> is_plausible_svg(text),
        is_plausible_svg(text) ==> trimmed(text).len() >= 4 && trimmed(text)[0] == '<' && exists|k: int|
            0 <= k && k + 4 <= trimmed(text).len() && #[trigger] trimmed(text).subrange(k, k + 4)
                == seq!['<', 's', 'v', 'g'],
{
    reveal_strlit("<svg");
    reveal_strlit("<?xml");
    assert("<svg"@ =~= seq!['<', 's', 'v', 'g']);
    assert("<?xml"@ =~= seq!['<', '?', 'x', 'm', 'l']);
    let _ = lemma_trimmed(text);
    let t = trimmed(text);
    if t == seq!['<', 's', 'v', 'g'] + rest {
        assert(t.take(4) =~= "<svg"@);
    }
    if t == seq!['<', '?', 'x', 'm', 'l'] + rest {
        assert(t.take(5) =~= "<?xml"@);
        if 0 <= i && i + 4 <= t.len() && t.subrange(i, i + 4) == seq!['<', 's', 'v', 'g'] {
            assert(stands_at(t, "<svg"@, i));
        }
    }
    if is_plausible_svg(text) {
        if begins_with(t, "<svg"@) {
            assert(t.take(4) == "<svg"@);
            assert(t[0] == t.take(4)[0]);
            assert(t.subrange(0, 4) =~= t.take(4));
            let k: int = 0;
            assert(t.subrange(k, k + 4) == seq!['<', 's', 'v', 'g']);
        } else {
            assert(t.take(5) == "<?xml"@);
            assert(t[0] == t.take(5)[0]);
            let k = choose|k: int| stands_at(t, "<svg"@, k);
            assert(t.subrange(k, k + 4) == seq!['<', 's', 'v', 'g']);
        }
    }
}

/// An image has the data and the media type that it was decoded from, and is an SVG
/// document exactly if the media type says so. Two media types have a second name.
pub proof fn decoded_images_keep_their_data(
    mime: Seq<char>,
    bytes: Seq<u8>,
    drawing: Option<SvgDrawing>,
)
    ensures
        decoded_image(mime, bytes, drawing) matches Some(image) ==> image.bytes == bytes
            && image.mime_type == mime && (image.is_svg <==> mime == "image/svg+xml"@) && (
        !image.is_svg ==> image.width > 0 && image.height > 0),
        is_svg_mime(mime) ==> (decoded_image(mime, bytes, drawing) is Some <==> drawing is Some),
        format_of_mime("image/jpg"@) == format_of_mime("image/jpeg"@),
        format_of_mime("image/x-bmp"@) == format_of_mime("image/bmp"@),
{
    reveal_strlit("image/png");
    reveal_strlit("image/jpeg");
    reveal_strlit("image/jpg");
    reveal_strlit("image/webp");
    reveal_strlit("image/gif");
    reveal_strlit("image/bmp");
    reveal_strlit("image/x-bmp");
    reveal_strlit("image/tiff");
    assert("image/png"@[6] == 'p');
    assert("image/jpg"@[6] == 'j');
    assert("image/webp"@[6] == 'w');
    assert("image/gif"@[6] == 'g');
    assert("image/bmp"@[6] == 'b');
    assert("image/x-bmp"@[6] == 'x');
}

/// A raster image is one exactly if it was loaded and has pixels. It keeps its size, and is
/// fitted into 960 by 540 pixels for the preview and 16 by 16 for the thumbnail, never
/// enlarged.
pub proof fn raster_images_are_fitted(
    mime: Seq<char>,
    bytes: Seq<u8>,
    format: RasterFormat,
    drawing: Option<SvgDrawing>,
)
    requires
        !is_svg_mime(mime),
        format_of_mime(mime) == Some(format),
    ensures
        decoded_image(mime, bytes, drawing) is Some <==> (loaded_shape(bytes, format) matches Some(
            shape,
        ) && shape.width > 0 && shape.height > 0),
        decoded_image(mime, bytes, drawing) matches Some(image) ==> {
            let shape = loaded_shape(bytes, format)->0;
            &&& image.width == shape.width && image.height == shape.height
            &&& image.preview == fitted_pixels(
                bytes,
                format,
                if shape.width < 960 {
                    shape.width
                } else {
                    960
                },
                if shape.height < 540 {
                    shape.height
                } else {
                    540
                },
            )->0
            &&& image.thumbnail == fitted_pixels(
                bytes,
                format,
                if shape.width < 16 {
                    shape.width
                } else {
                    16
                },
                if shape.height < 16 {
                    shape.height
                } else {
                    16
                },
            )->0
        },
{
}

/// A vector image has the size of its document, and each of its two drawings with alpha
/// taken out of the channels, byte for byte in the same place.
pub proof fn vector_images_are_drawn(bytes: Seq<u8>, drawing: SvgDrawing)
    ensures
        decoded_image("image/svg+xml"@, bytes, Some(drawing)) matches Some(image) && {
            &&& image.is_svg
            &&& image.width == drawing@.layout.width
            &&& image.height == drawing@.layout.height
            &&& image.preview.width == drawing@.layout.preview.width
            &&& image.preview.height == drawing@.layout.preview.height
            &&& image.preview.rgba == straight_pixels(drawing@.preview)
            &&& image.thumbnail.width == drawing@.layout.thumbnail.width
            &&& image.thumbnail.height == drawing@.layout.thumbnail.height
            &&& image.thumbnail.rgba == straight_pixels(drawing@.thumbnail)
        },
{
}

/// The media types of images, each with its format; every other type is none.
pub proof fn image_types_have_their_formats(mime: Seq<char>)
    ensures
        format_of_mime(mime) == Some(RasterFormat::Png) <==> mime == "image/png"@,
        format_of_mime(mime) == Some(RasterFormat::Jpeg) <==> mime == "image/jpeg"@ || mime
            == "image/jpg"@,
        format_of_mime(mime) == Some(RasterFormat::WebP) <==> mime == "image/webp"@,
        format_of_mime(mime) == Some(RasterFormat::Gif) <==> mime == "image/gif"@,
        format_of_mime(mime) == Some(RasterFormat::Bmp) <==> mime == "image/bmp"@ || mime
            == "image/x-bmp"@,
        format_of_mime(mime) == Some(RasterFormat::Tiff) <==> mime == "image/tiff"@,
        is_image_type(mime) <==> format_of_mime(mime) is Some || mime == "image/svg+xml"@,
        format_of_mime("image/svg+xml"@) is None,
{
    reveal_strlit("image/png");
    reveal_strlit("image/jpeg");
    reveal_strlit("image/jpg");
    reveal_strlit("image/webp");
    reveal_strlit("image/gif");
    reveal_strlit("image/bmp");
    reveal_strlit("image/x-bmp");
    reveal_strlit("image/tiff");
    reveal_strlit("image/svg+xml");
    assert("image/png"@[6] == 'p');
    assert("image/jpeg"@[6] == 'j');
    assert("image/jpg"@[6] == 'j');
    assert("image/webp"@[6] == 'w');
    assert("image/gif"@[6] == 'g');
    assert("image/bmp"@[6] == 'b');
    assert("image/x-bmp"@[6] == 'x');
    assert("image/tiff"@[6] == 't');
    assert("image/svg+xml"@[6] == 's');
}

/// A side of a fitted image is the nearest to its share of the box that the other side
/// leaves, a half going down, within its own limit, and never nothing.
pub proof fn sides_are_scaled_alike(side: nat, other: nat, max: nat, other_max: nat)
    requires
        other > 0,
        max > 0,
    ensures
        ({
            let scaled = scaled_side(side, other, max, other_max);
            &&& 1 <= scaled <= max
            &&& 2 * (scaled * other) < 2 * (side * other_max) + other || scaled == 1
            &&& 2 * (side * other_max) <= 2 * (scaled * other) + other || scaled == max
        }),
{
    let n = (2 * side * other_max + other - 1) as nat;
    let limited = n / (2 * other);
    assert(2 * side * other_max == 2 * (side * other_max)) by (nonlinear_arith);
    vstd::arithmetic::div_mod::lemma_fundamental_div_mod(n as int, 2 * other as int);
    assert((2 * other) * limited == 2 * (limited * other)) by (nonlinear_arith);
    if limited == 0 {
        assert(limited * other == 0) by (nonlinear_arith)
            requires
                limited == 0,
        ;
        assert(1 * other == other) by (nonlinear_arith);
    }
    if limited >= max {
        assert(max * other <= limited * other) by (nonlinear_arith)
            requires
                max <= limited,
        ;
    }
}

/// The cells of which each becomes a pixel cover the whole image, and none is larger than
/// it.
pub proof fn cells_cover_the_image(side: nat, scaled: nat)
    requires
        scaled > 0,
    ensures
        cell_side(side, scaled) <= side,
        cell_side(side, scaled) * scaled >= side,
{
    let n = (side * (0x40_0000 + scaled) + scaled * 0x40_0000 - 1) as nat;
    let d = scaled * 0x40_0000;
    let most = n / d;
    vstd::arithmetic::div_mod::lemma_fundamental_div_mod(n as int, d as int);
    assert(d * (most + 1) > side * 0x40_0000 + d - 1) by (nonlinear_arith)
        requires
            n == d * most + n % d,
            n % d < d,
            n == side * (0x40_0000 + scaled) + d - 1,
            d > 0,
    ;
    assert(most * scaled >= side) by (nonlinear_arith)
        requires
            d * (most + 1) > side * 0x40_0000 + d - 1,
            d == scaled * 0x40_0000,
    ;
    assert(side * scaled >= side) by (nonlinear_arith)
        requires
            scaled > 0,
    ;
}

} // verus!

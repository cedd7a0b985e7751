//! What the clipboard holds, as it is captured from an offer or read from a file.

use vstd::prelude::*;
use vstd::string::*;
use vstd::utf8::{decode_utf8, encode_utf8, valid_utf8};
use crate::color::{
    can_parse_color, channels, color_expression, color_text, color_text_round_trip,
    decode_native_color, format_color, hex_splits_well, native_color, parse_color_expression,
    ByteOrder,
};
use crate::files::{
    decode_files, decoded_files, describe_files, described_files, files_label, files_view,
    is_file_mime, is_file_type, label_of_files, lemma_described_size, lengths_have_a_sum,
    total_length, ClipboardFiles, FileKind, FileMetadata, FilesModel,
};
use crate::picture::{
    can_decode_image, can_decode_raster, decode_image, decoded_image, decoded_raster, decoded_svg,
    detect_svg_text, guess_format, image_formats_round_trip, image_label,
    image_types_have_their_formats, image_view, is_decodable, is_decodable_raster, is_image_mime,
    is_image_type, is_plausible_svg, is_svg_mime, label_of_image, looks_like_svg,
    mime_for_image_format, mime_of_format, signed_format, ClipboardImage, GuessedFormat,
    ImageModel, SvgDrawing,
};
use crate::text::{same_text, text_from_utf8, trimmed, views};

verus! {

broadcast use vstd::string::group_string_axioms;

/// The most data that is taken from the clipboard or from a file: 50 MiB.
pub const MAX_CLIPBOARD_BYTES: u64 = 52_428_800;

// ---------------------------------------------------------------------------
// Types
// ---------------------------------------------------------------------------

/// A point in time, counted from the start of 1970 in UTC. The nanoseconds count
/// forward from the second, before 1970, too.
#[derive(Clone, Copy, Debug, PartialEq, Eq, Structural)]
pub struct Timestamp {
    pub seconds: i64,
    pub nanoseconds: u32,
}

/// What the clipboard holds at a point in time.
#[derive(Clone, Debug)]
pub struct ClipboardUpdate {
    pub text: String,
    pub mime_type: String,
    pub available_mime_types: Vec<String>,
    pub color_rgba: Option<[u8; 4]>,
    pub image: Option<ClipboardImage>,
    pub files: Option<ClipboardFiles>,
    pub captured_at: Timestamp,
}

/// What becomes of data that was received from the clipboard.
pub enum Captured {
    TooLarge,
    Nothing,
    Update(ClipboardUpdate),
}

/// Why a file cannot be taken as the content of the clipboard.
#[derive(Clone, Copy, Debug, PartialEq, Eq, Structural)]
pub enum ReadError {
    NotRegular,
    TooLarge,
    NotText,
}

/// Content without its origin.
struct Content {
    text: String,
    color_rgba: Option<[u8; 4]>,
    image: Option<ClipboardImage>,
    files: Option<ClipboardFiles>,
}

// ---------------------------------------------------------------------------
// Model
// ---------------------------------------------------------------------------

/// The model of the content of the clipboard.
pub ghost struct ContentModel {
    pub text: Seq<char>,
    pub color: Option<Seq<u8>>,
    pub image: Option<ImageModel>,
    pub files: Option<FilesModel>,
}

/// The model of a `ClipboardUpdate`.
pub ghost struct UpdateModel {
    pub content: ContentModel,
    pub mime_type: Seq<char>,
    pub available: Seq<Seq<char>>,
    pub captured_at: Timestamp,
}

impl View for Content {
    type V = ContentModel;

    closed spec fn view(&self) -> ContentModel {
        ContentModel {
            text: self.text@,
            color: channels(self.color_rgba),
            image: image_view(self.image),
            files: files_view(self.files),
        }
    }
}

impl View for ClipboardUpdate {
    type V = UpdateModel;

    open spec fn view(&self) -> UpdateModel {
        UpdateModel {
            content: ContentModel {
                text: self.text@,
                color: channels(self.color_rgba),
                image: image_view(self.image),
                files: files_view(self.files),
            },
            mime_type: self.mime_type@,
            available: views(self.available_mime_types@),
            captured_at: self.captured_at,
        }
    }
}

pub open spec fn is_too_large(bytes: Seq<u8>) -> bool {
    bytes.len() > MAX_CLIPBOARD_BYTES
}

pub open spec fn is_color_mime(mime: Seq<char>) -> bool {
    mime == "application/x-color"@
}

/// Whether data of a media type is taken as text.
pub open spec fn is_text_type(mime: Seq<char>) -> bool {
    !is_color_mime(mime) && !is_file_type(mime) && !is_image_type(mime)
}

pub open spec fn color_content(color: Option<Seq<u8>>) -> Option<ContentModel> {
    match color {
        Some(rgba) => Some(
            ContentModel { text: color_text(rgba), color, image: None, files: None },
        ),
        None => None,
    }
}

pub open spec fn files_content(files: Option<FilesModel>) -> Option<ContentModel> {
    match files {
        Some(list) => Some(
            ContentModel { text: label_of_files(list), color: None, image: None, files },
        ),
        None => None,
    }
}

pub open spec fn image_content(image: Option<ImageModel>) -> Option<ContentModel> {
    match image {
        Some(picture) => Some(
            ContentModel { text: label_of_image(picture), color: None, image, files: None },
        ),
        None => None,
    }
}

/// The image in a text that is a complete SVG document.
pub open spec fn svg_in_text(text: Seq<char>, drawing: Option<SvgDrawing>) -> Option<ImageModel> {
    if is_plausible_svg(text) {
        decoded_svg(encode_utf8(text), drawing)
    } else {
        None
    }
}

/// Text, with the color that it denotes, or the image that it is.
pub open spec fn text_content(text: Seq<char>, drawing: Option<SvgDrawing>) -> ContentModel {
    match image_content(svg_in_text(text, drawing)) {
        Some(content) => content,
        None => ContentModel { text, color: color_expression(text), image: None, files: None },
    }
}

/// Files of a list, with what the file system says of them.
pub open spec fn listed_content(
    mime: Seq<char>,
    bytes: Seq<u8>,
    metadata: Seq<Option<FileMetadata>>,
) -> Option<ContentModel> {
    match decoded_files(mime, bytes) {
        Some(files) => files_content(Some(described_files(files, metadata))),
        None => None,
    }
}

/// The content that data of a media type stands for. `order` is the byte order of
/// native colors, `drawing` what the renderer made of an SVG document, and
/// `metadata` what the file system says of the listed files.
pub open spec fn content_of(
    order: ByteOrder,
    mime: Seq<char>,
    bytes: Seq<u8>,
    drawing: Option<SvgDrawing>,
    metadata: Seq<Option<FileMetadata>>,
) -> Option<ContentModel> {
    if is_color_mime(mime) {
        color_content(native_color(order, bytes))
    } else if is_file_type(mime) {
        listed_content(mime, bytes, metadata)
    } else if is_image_type(mime) {
        image_content(decoded_image(mime, bytes, drawing))
    } else if valid_utf8(bytes) {
        Some(text_content(decode_utf8(bytes), drawing))
    } else {
        None
    }
}

/// Whether data is text that looks like a complete SVG document.
pub open spec fn is_svg_text(bytes: Seq<u8>) -> bool {
    valid_utf8(bytes) && is_plausible_svg(decode_utf8(bytes))
}

/// Whether what a renderer makes of the data matters.
pub open spec fn is_drawn(mime: Seq<char>, bytes: Seq<u8>) -> bool {
    is_svg_mime(mime) || (is_text_type(mime) && is_svg_text(bytes))
}

/// The media type under which content is recorded that came as `mime`.
pub open spec fn recorded_mime(content: ContentModel, mime: Seq<char>) -> Seq<char> {
    match content.image {
        Some(image) => image.mime_type,
        None => if content.files is Some {
            "text/uri-list"@
        } else {
            mime
        },
    }
}

/// What is captured from an offer of the given media types.
pub open spec fn captured_update(
    content: Option<ContentModel>,
    mime: Seq<char>,
    available: Seq<Seq<char>>,
    captured_at: Timestamp,
) -> Option<UpdateModel> {
    match content {
        Some(c) => Some(
            UpdateModel { content: c, mime_type: recorded_mime(c, mime), available, captured_at },
        ),
        None => None,
    }
}

/// The raster image that data is, going by its signature.
pub open spec fn signed_image(bytes: Seq<u8>) -> Option<ImageModel> {
    match signed_format(bytes) {
        Some(format) => decoded_raster(mime_of_format(format), bytes, format),
        None => None,
    }
}

/// Whether a file can be taken as the content of the clipboard, going by what the
/// file system says of it.
pub open spec fn file_error(metadata: FileMetadata) -> Option<ReadError> {
    if metadata.kind != FileKind::Regular {
        Some(ReadError::NotRegular)
    } else if metadata.len > MAX_CLIPBOARD_BYTES {
        Some(ReadError::TooLarge)
    } else {
        None
    }
}

/// The content of a file as it would stand on the clipboard.
pub open spec fn file_update(
    bytes: Seq<u8>,
    drawing: Option<SvgDrawing>,
    captured_at: Timestamp,
) -> Result<UpdateModel, ReadError> {
    let svg = if valid_utf8(bytes) {
        svg_in_text(decode_utf8(bytes), drawing)
    } else {
        None
    };
    let raster = signed_image(bytes);
    if is_too_large(bytes) {
        Err(ReadError::TooLarge)
    } else if svg is Some {
        Ok(
            UpdateModel {
                content: image_content(svg)->0,
                mime_type: "image/svg+xml"@,
                available: seq!["image/svg+xml"@, "text/plain"@],
                captured_at,
            },
        )
    } else if raster is Some {
        Ok(
            UpdateModel {
                content: image_content(raster)->0,
                mime_type: mime_of_format(signed_format(bytes)->0),
                available: seq![mime_of_format(signed_format(bytes)->0)],
                captured_at,
            },
        )
    } else if valid_utf8(bytes) {
        Ok(
            UpdateModel {
                content: ContentModel {
                    text: decode_utf8(bytes),
                    color: color_expression(decode_utf8(bytes)),
                    image: None,
                    files: None,
                },
                mime_type: "text/plain;charset=utf-8"@,
                available: seq!["text/plain;charset=utf-8"@, "text/plain"@],
                captured_at,
            },
        )
    } else {
        Err(ReadError::NotText)
    }
}

// ---------------------------------------------------------------------------
// Capturing
// ---------------------------------------------------------------------------

fn text_with_color(text: String) -> (r: Content)
    requires
        hex_splits_well(trimmed(text@)),
    ensures
        r@ == (ContentModel {
            text: text@,
            color: color_expression(text@),
            image: None,
            files: None,
        }),
{
    let color_rgba = parse_color_expression(text.as_str());
    Content { text, color_rgba, image: None, files: None }
}

fn content_of_image(image: ClipboardImage) -> (r: Content)
    ensures
        Some(r@) == image_content(Some(image@)),
{
    let text = image_label(&image);
    Content { text, color_rgba: None, image: Some(image), files: None }
}

fn svg_of_text(bytes: &Vec<u8>, drawing: Option<SvgDrawing>) -> (r: Option<ClipboardImage>)
    ensures
        image_view(r) == (if valid_utf8(bytes@) {
            svg_in_text(decode_utf8(bytes@), drawing)
        } else {
            None
        }),
{
    match text_from_utf8(bytes.as_slice()) {
        Some(text) => {
            proof {
                vstd::utf8::decode_utf8_encode_utf8(bytes@);
            }
            detect_svg_text(text, drawing)
        },
        None => None,
    }
}

fn decode_text(bytes: Vec<u8>, drawing: Option<SvgDrawing>) -> (r: Option<Content>)
    requires
        is_readable_text(bytes@),
    ensures
        (match r {
            Some(content) => Some(content@),
            None => None,
        }) == (if valid_utf8(bytes@) {
            Some(text_content(decode_utf8(bytes@), drawing))
        } else {
            None
        }),
{
    if let Some(image) = svg_of_text(&bytes, drawing) {
        return Some(content_of_image(image));
    }
    match text_from_utf8(bytes.as_slice()) {
        Some(text) => Some(text_with_color(text.to_owned())),
        None => None,
    }
}

fn decode_list(mime: &str, bytes: Vec<u8>, metadata: &Vec<Option<FileMetadata>>) -> (r: Option<
    Content,
>)
    requires
        total_length(metadata@) <= u64::MAX,
    ensures
        (match r {
            Some(content) => Some(content@),
            None => None,
        }) == listed_content(mime@, bytes@, metadata@),
{
    let mut files = decode_files(mime, bytes.as_slice())?;
    let ghost listed = files@;
    describe_files(&mut files, metadata);
    proof {
        lemma_described_size(listed, metadata@);
    }
    let text = files_label(&files);
    Some(Content { text, color_rgba: None, image: None, files: Some(files) })
}

/// Whether data can be taken as text, in search of a color, without cutting a character
/// in two.
pub open spec fn is_readable_text(bytes: Seq<u8>) -> bool {
    valid_utf8(bytes) ==> hex_splits_well(trimmed(decode_utf8(bytes)))
}

/// Whether data of a media type can be captured: text must be readable, an image must
/// be decodable, and the lengths of the listed files must have a sum.
pub open spec fn is_capturable(
    mime: Seq<char>,
    bytes: Seq<u8>,
    metadata: Seq<Option<FileMetadata>>,
) -> bool {
    &&& total_length(metadata) <= u64::MAX
    &&& is_text_type(mime) ==> is_readable_text(bytes)
    &&& is_image_type(mime) ==> is_decodable(mime, bytes)
}

/// Whether the data of a file can be taken as the content of the clipboard: as text, and
/// as the image whose signature it has.
pub open spec fn is_readable_file(bytes: Seq<u8>) -> bool {
    &&& is_readable_text(bytes)
    &&& signed_format(bytes) matches Some(format) ==> is_decodable_raster(bytes, format)
}

/// Whether data can be taken as text.
pub fn can_read_text(bytes: &[u8]) -> (r: bool)
    ensures
        r == is_readable_text(bytes@),
{
    match text_from_utf8(bytes) {
        Some(text) => can_parse_color(text),
        None => true,
    }
}

/// Whether data of a media type can be captured.
pub fn can_capture(mime: &str, bytes: &[u8], metadata: &Vec<Option<FileMetadata>>) -> (r: bool)
    ensures
        r == is_capturable(mime@, bytes@, metadata@),
{
    if !lengths_have_a_sum(metadata) {
        false
    } else if is_image_mime(mime) {
        can_decode_image(mime, bytes)
    } else {
        same_text(mime, "application/x-color") || is_file_mime(mime) || can_read_text(bytes)
    }
}

/// Whether the data of a file can be taken as the content of the clipboard.
pub fn can_read_file(bytes: &[u8]) -> (r: bool)
    ensures
        r == is_readable_file(bytes@),
{
    can_read_text(bytes) && (match guess_format(bytes) {
        Some(GuessedFormat::Raster(format)) => can_decode_raster(bytes, format),
        _ => true,
    })
}

/// The content that data of a media type stands for.
fn decode_content(
    mime: &str,
    bytes: Vec<u8>,
    drawing: Option<SvgDrawing>,
    metadata: &Vec<Option<FileMetadata>>,
) -> (r: Option<Content>)
    requires
        is_capturable(mime@, bytes@, metadata@),
    ensures
        exists|order: ByteOrder|
            #![trigger native_color(order, bytes@)]
            (match r {
                Some(content) => Some(content@),
                None => None,
            }) == content_of(order, mime@, bytes@, drawing, metadata@),
{
    let ghost order = ByteOrder::Little;
    if same_text(mime, "application/x-color") {
        let color = decode_native_color(bytes.as_slice());
        let ghost used = choose|o: ByteOrder| channels(color) == native_color(o, bytes@);
        let r = match color {
            Some(rgba) => Some(
                Content {
                    text: format_color(rgba),
                    color_rgba: Some(rgba),
                    image: None,
                    files: None,
                },
            ),
            None => None,
        };
        assert(channels(color) == native_color(used, bytes@));
        return r;
    }
    let ghost colors = native_color(order, bytes@);
    if is_file_mime(mime) {
        decode_list(mime, bytes, metadata)
    } else if is_image_mime(mime) {
        match decode_image(mime, bytes, drawing) {
            Some(image) => Some(content_of_image(image)),
            None => None,
        }
    } else {
        decode_text(bytes, drawing)
    }
}

/// What becomes of data that was received as `mime` from an offer of
/// `available_mime_types`. `drawing` is what the renderer made of an SVG document,
/// and `metadata` what the file system says of the listed files, in order.
pub fn capture(
    mime: &str,
    available_mime_types: Vec<String>,
    bytes: Vec<u8>,
    drawing: Option<SvgDrawing>,
    metadata: &Vec<Option<FileMetadata>>,
    captured_at: Timestamp,
) -> (r: Captured)
    requires
        !is_too_large(bytes@) ==> is_capturable(mime@, bytes@, metadata@),
    ensures
        r is TooLarge <==> is_too_large(bytes@),
        !is_too_large(bytes@) ==> exists|order: ByteOrder|
            #![trigger native_color(order, bytes@)]
            (match r {
                Captured::Update(update) => Some(update@),
                _ => None,
            }) == captured_update(
                content_of(order, mime@, bytes@, drawing, metadata@),
                mime@,
                views(available_mime_types@),
                captured_at,
            ),
{
    if bytes.len() as u64 > MAX_CLIPBOARD_BYTES {
        return Captured::TooLarge;
    }
    match decode_content(mime, bytes, drawing, metadata) {
        Some(Content { text, color_rgba, image, files }) => {
            let mime_type = match &image {
                Some(picture) => picture.mime_type.clone(),
                None => if files.is_some() {
                    "text/uri-list".to_owned()
                } else {
                    mime.to_owned()
                },
            };
            Captured::Update(
                ClipboardUpdate {
                    text,
                    mime_type,
                    available_mime_types,
                    color_rgba,
                    image,
                    files,
                    captured_at,
                },
            )
        },
        None => Captured::Nothing,
    }
}

/// What becomes of data, as `capture` says; none where the data cannot be captured.
pub fn capture_if_possible(
    mime: &str,
    available_mime_types: Vec<String>,
    bytes: Vec<u8>,
    drawing: Option<SvgDrawing>,
    metadata: &Vec<Option<FileMetadata>>,
    captured_at: Timestamp,
) -> (r: Option<Captured>)
    ensures
        r is Some <==> is_too_large(bytes@) || is_capturable(mime@, bytes@, metadata@),
        r matches Some(captured) ==> {
            &&& captured is TooLarge <==> is_too_large(bytes@)
            &&& !is_too_large(bytes@) ==> exists|order: ByteOrder|
                #![trigger native_color(order, bytes@)]
                (match captured {
                    Captured::Update(update) => Some(update@),
                    _ => None,
                }) == captured_update(
                    content_of(order, mime@, bytes@, drawing, metadata@),
                    mime@,
                    views(available_mime_types@),
                    captured_at,
                )
        },
{
    if bytes.len() as u64 <= MAX_CLIPBOARD_BYTES && !can_capture(mime, bytes.as_slice(), metadata) {
        return None;
    }
    Some(capture(mime, available_mime_types, bytes, drawing, metadata, captured_at))
}

/// Whether data is text that looks like a complete SVG document.
pub fn holds_svg_text(bytes: &[u8]) -> (r: bool)
    ensures
        r == is_svg_text(bytes@),
{
    match text_from_utf8(bytes) {
        Some(text) => looks_like_svg(text),
        None => false,
    }
}

/// Whether data of a media type has to be drawn before it is captured.
pub fn needs_drawing(mime: &str, bytes: &[u8]) -> (r: bool)
    ensures
        r == is_drawn(mime@, bytes@),
{
    if same_text(mime, "image/svg+xml") {
        true
    } else {
        !same_text(mime, "application/x-color") && !is_file_mime(mime) && !is_image_mime(mime)
            && holds_svg_text(bytes)
    }
}

// ---------------------------------------------------------------------------
// Reading files
// ---------------------------------------------------------------------------

impl ReadError {
    pub open spec fn text(self) -> Seq<char> {
        match self {
            ReadError::NotRegular => "clipboard URI does not refer to a regular file"@,
            ReadError::TooLarge => "file is larger than 50 MiB"@,
            ReadError::NotText => "file is neither a supported image nor UTF-8 text"@,
        }
    }

    /// The message for the user.
    pub fn message(&self) -> (r: &'static str)
        ensures
            r@ == self.text(),
    {
        match self {
            ReadError::NotRegular => "clipboard URI does not refer to a regular file",
            ReadError::TooLarge => "file is larger than 50 MiB",
            ReadError::NotText => "file is neither a supported image nor UTF-8 text",
        }
    }
}

/// Whether a path denotes a regular file, going by what the file system says of it.
pub fn fs_metadata_file(metadata: FileMetadata) -> (r: Result<FileMetadata, ReadError>)
    ensures
        r == (if metadata.kind == FileKind::Regular {
            Ok(metadata)
        } else {
            Err(ReadError::NotRegular)
        }),
{
    if metadata.kind == FileKind::Regular {
        Ok(metadata)
    } else {
        Err(ReadError::NotRegular)
    }
}

/// Whether a file is to be read at all.
pub fn check_file(metadata: FileMetadata) -> (r: Result<(), ReadError>)
    ensures
        r == (match file_error(metadata) {
            Some(error) => Err(error),
            None => Ok(()),
        }),
{
    match fs_metadata_file(metadata) {
        Ok(file) => if file.len > MAX_CLIPBOARD_BYTES {
            Err(ReadError::TooLarge)
        } else {
            Ok(())
        },
        Err(error) => Err(error),
    }
}

fn update_of_image(
    image: ClipboardImage,
    mime_type: &str,
    available_mime_types: Vec<String>,
    captured_at: Timestamp,
) -> (r: ClipboardUpdate)
    ensures
        r@ == (UpdateModel {
            content: image_content(Some(image@))->0,
            mime_type: mime_type@,
            available: views(available_mime_types@),
            captured_at,
        }),
{
    ClipboardUpdate {
        text: image_label(&image),
        mime_type: mime_type.to_owned(),
        available_mime_types,
        color_rgba: None,
        image: Some(image),
        files: None,
        captured_at,
    }
}

fn raster_by_signature(bytes: &Vec<u8>) -> (r: Option<(ClipboardImage, &'static str)>)
    requires
        signed_format(bytes@) matches Some(format) ==> is_decodable_raster(bytes@, format),
    ensures
        (match r {
            Some(found) => Some(found.0@),
            None => None,
        }) == signed_image(bytes@),
        r matches Some(found) ==> found.1@ == mime_of_format(signed_format(bytes@)->0),
{
    let format = guess_format(bytes.as_slice())?;
    let mime = mime_for_image_format(format)?;
    proof {
        image_formats_round_trip(signed_format(bytes@)->0);
        reveal_strlit("image/svg+xml");
        reveal_strlit("image/png");
        reveal_strlit("image/jpeg");
        reveal_strlit("image/webp");
        reveal_strlit("image/gif");
        reveal_strlit("image/bmp");
        reveal_strlit("image/tiff");
        assert(mime@.len() != "image/svg+xml"@.len());
    }
    match decode_image(mime, bytes.clone(), None) {
        Some(image) => Some((image, mime)),
        None => None,
    }
}

/// The content of a file as it would stand on the clipboard. `metadata` is what the
/// file system says of the file, `bytes` what was read of it, and `drawing` what the
/// renderer made of it if it is an SVG document.
pub fn read_file_as_clipboard_update(
    metadata: FileMetadata,
    bytes: Vec<u8>,
    drawing: Option<SvgDrawing>,
    captured_at: Timestamp,
) -> (r: Result<ClipboardUpdate, ReadError>)
    requires
        file_error(metadata) is None && !is_too_large(bytes@) ==> is_readable_file(bytes@),
    ensures
        (match r {
            Ok(update) => Ok(update@),
            Err(error) => Err(error),
        }) == (match file_error(metadata) {
            Some(error) => Err(error),
            None => file_update(bytes@, drawing, captured_at),
        }),
{
    match check_file(metadata) {
        Ok(()) => {},
        Err(error) => {
            return Err(error);
        },
    }
    if bytes.len() as u64 > MAX_CLIPBOARD_BYTES {
        return Err(ReadError::TooLarge);
    }
    if let Some(image) = svg_of_text(&bytes, drawing) {
        let available = vec!["image/svg+xml".to_owned(), "text/plain".to_owned()];
        assert(views(available@) =~= seq!["image/svg+xml"@, "text/plain"@]);
        return Ok(update_of_image(image, "image/svg+xml", available, captured_at));
    }
    if let Some((image, mime)) = raster_by_signature(&bytes) {
        let available = vec![mime.to_owned()];
        assert(views(available@) =~= seq![mime@]);
        return Ok(update_of_image(image, mime, available, captured_at));
    }
    match text_from_utf8(bytes.as_slice()) {
        Some(text) => {
            let available = vec![
                "text/plain;charset=utf-8".to_owned(),
                "text/plain".to_owned(),
            ];
            assert(views(available@) =~= seq!["text/plain;charset=utf-8"@, "text/plain"@]);
            let content = text_with_color(text.to_owned());
            Ok(
                ClipboardUpdate {
                    text: content.text,
                    mime_type: "text/plain;charset=utf-8".to_owned(),
                    available_mime_types: available,
                    color_rgba: content.color_rgba,
                    image: None,
                    files: None,
                    captured_at,
                },
            )
        },
        None => Err(ReadError::NotText),
    }
}

/// The content of a file, as `read_file_as_clipboard_update` says; none where the file
/// would have to be taken but cannot.
pub fn read_file_if_possible(
    metadata: FileMetadata,
    bytes: Vec<u8>,
    drawing: Option<SvgDrawing>,
    captured_at: Timestamp,
) -> (r: Option<Result<ClipboardUpdate, ReadError>>)
    ensures
        r is Some <==> file_error(metadata) is Some || is_too_large(bytes@) || is_readable_file(
            bytes@,
        ),
        r matches Some(read) ==> (match read {
            Ok(update) => Ok(update@),
            Err(error) => Err(error),
        }) == (match file_error(metadata) {
            Some(error) => Err(error),
            None => file_update(bytes@, drawing, captured_at),
        }),
{
    if check_file(metadata).is_ok() && bytes.len() as u64 <= MAX_CLIPBOARD_BYTES && !can_read_file(
        bytes.as_slice(),
    ) {
        return None;
    }
    Some(read_file_as_clipboard_update(metadata, bytes, drawing, captured_at))
}

// ---------------------------------------------------------------------------
// Laws
// ---------------------------------------------------------------------------

/// What a renderer makes of data that does not have to be drawn is of no account.
pub proof fn drawing_matters_only_for_svg(
    order: ByteOrder,
    mime: Seq<char>,
    bytes: Seq<u8>,
    drawing: Option<SvgDrawing>,
    metadata: Seq<Option<FileMetadata>>,
    captured_at: Timestamp,
)
    ensures
        !is_drawn(mime, bytes) ==> content_of(order, mime, bytes, drawing, metadata) == content_of(
            order,
            mime,
            bytes,
            None,
            metadata,
        ),
        !is_svg_text(bytes) ==> file_update(bytes, drawing, captured_at) == file_update(
            bytes,
            None,
            captured_at,
        ),
{
}

/// Captured content is recorded under a media type that says what it is: the type
/// of the image, a list of files, or else the type under which it came.
pub proof fn recorded_type_fits(
    order: ByteOrder,
    mime: Seq<char>,
    bytes: Seq<u8>,
    drawing: Option<SvgDrawing>,
    metadata: Seq<Option<FileMetadata>>,
)
    ensures
        content_of(order, mime, bytes, drawing, metadata) matches Some(content) ==> {
            let recorded = recorded_mime(content, mime);
            &&& content.image is Some ==> is_image_type(recorded)
            &&& content.files is Some ==> recorded == "text/uri-list"@
            &&& content.image is None && content.files is None ==> recorded == mime
        },
{
}

/// Whether a media type is none of those that stand for a color, for files or for an image.
pub open spec fn is_plain_mime(mime: Seq<char>) -> bool {
    &&& mime != "application/x-color"@
    &&& mime != "text/uri-list"@
    &&& mime != "x-special/gnome-copied-files"@
    &&& mime != "image/png"@
    &&& mime != "image/jpeg"@
    &&& mime != "image/jpg"@
    &&& mime != "image/webp"@
    &&& mime != "image/gif"@
    &&& mime != "image/bmp"@
    &&& mime != "image/x-bmp"@
    &&& mime != "image/tiff"@
    &&& mime != "image/svg+xml"@
}

/// Text is captured byte for byte, with the color that it denotes, unless it is an SVG
/// document that was drawn, which is captured as that image, byte for byte. What is no
/// UTF-8 is not captured.
pub proof fn text_is_captured_whole(
    order: ByteOrder,
    mime: Seq<char>,
    bytes: Seq<u8>,
    drawing: Option<SvgDrawing>,
    metadata: Seq<Option<FileMetadata>>,
)
    requires
        is_plain_mime(mime),
    ensures
        content_of(order, mime, bytes, drawing, metadata) is Some <==> valid_utf8(bytes),
        content_of(order, mime, bytes, drawing, metadata) matches Some(content) ==> {
            let drawn = drawing is Some && is_plausible_svg(decode_utf8(bytes));
            &&& content.files is None
            &&& content.image is Some <==> drawn
            &&& !drawn ==> encode_utf8(content.text) == bytes
            &&& !drawn ==> content.color == color_expression(content.text)
            &&& drawn ==> content.image->0.bytes == bytes
            &&& drawn ==> content.image->0.is_svg
            &&& drawn ==> content.image->0.mime_type == "image/svg+xml"@
            &&& drawn ==> content.color is None
            &&& drawn ==> content.image == decoded_image("image/svg+xml"@, bytes, drawing)
            &&& drawn ==> content.text == label_of_image(content.image->0)
        },
{
    if valid_utf8(bytes) {
        vstd::utf8::decode_utf8_encode_utf8(bytes);
    }
}

/// A color that comes as such is captured with its channels, and its text denotes it.
pub proof fn colors_are_captured(
    order: ByteOrder,
    bytes: Seq<u8>,
    drawing: Option<SvgDrawing>,
    metadata: Seq<Option<FileMetadata>>,
)
    ensures
        ({
            let captured = content_of(order, "application/x-color"@, bytes, drawing, metadata);
            &&& captured is Some <==> bytes.len() >= 8
            &&& captured matches Some(content) ==> {
                &&& content.color == native_color(order, bytes)
                &&& color_expression(content.text) == content.color
                &&& content.text == color_text(content.color->0)
                &&& content.image is None
                &&& content.files is None
            }
        }),
{
    if bytes.len() >= 8 {
        color_text_round_trip(native_color(order, bytes)->0);
    }
}

/// An image is captured with its data, byte for byte, and the media type under which it
/// came.
pub proof fn images_are_captured_whole(
    order: ByteOrder,
    mime: Seq<char>,
    bytes: Seq<u8>,
    drawing: Option<SvgDrawing>,
    metadata: Seq<Option<FileMetadata>>,
)
    requires
        is_image_type(mime),
    ensures
        content_of(order, mime, bytes, drawing, metadata) is Some <==> decoded_image(
            mime,
            bytes,
            drawing,
        ) is Some,
        content_of(order, mime, bytes, drawing, metadata) matches Some(content) ==> {
            &&& content.image == decoded_image(mime, bytes, drawing)
            &&& content.text == label_of_image(content.image->0)
            &&& content.image matches Some(image) && image.bytes == bytes && image.mime_type == mime
                && image.is_svg == (mime == "image/svg+xml"@)
            &&& content.color is None
            &&& content.files is None
        },
{
    reveal_strlit("image/png");
    reveal_strlit("image/jpeg");
    reveal_strlit("image/jpg");
    reveal_strlit("image/webp");
    reveal_strlit("image/gif");
    reveal_strlit("image/bmp");
    reveal_strlit("image/x-bmp");
    reveal_strlit("image/tiff");
    reveal_strlit("image/svg+xml");
    reveal_strlit("application/x-color");
    reveal_strlit("text/uri-list");
    reveal_strlit("x-special/gnome-copied-files");
    assert("application/x-color"@.len() == 19);
    assert("text/uri-list"@.len() == 13 && "text/uri-list"@[0] == 't');
    assert("image/svg+xml"@[0] == 'i');
    assert("x-special/gnome-copied-files"@.len() == 28);
}

/// A list of files is captured with the files that it lists and what the file system says
/// of them, and labelled so.
pub proof fn lists_are_captured(
    order: ByteOrder,
    mime: Seq<char>,
    bytes: Seq<u8>,
    drawing: Option<SvgDrawing>,
    metadata: Seq<Option<FileMetadata>>,
)
    requires
        mime == "text/uri-list"@ || mime == "x-special/gnome-copied-files"@,
    ensures
        content_of(order, mime, bytes, drawing, metadata) is Some <==> decoded_files(
            mime,
            bytes,
        ) is Some,
        content_of(order, mime, bytes, drawing, metadata) matches Some(content) ==> {
            &&& content.files == Some(described_files(decoded_files(mime, bytes)->0, metadata))
            &&& content.text == label_of_files(content.files->0)
            &&& content.color is None
            &&& content.image is None
        },
{
    reveal_strlit("application/x-color");
    reveal_strlit("text/uri-list");
    reveal_strlit("x-special/gnome-copied-files");
    assert("application/x-color"@.len() == 19);
    assert("text/uri-list"@.len() == 13);
    assert("x-special/gnome-copied-files"@.len() == 28);
}

/// What is captured keeps all media types of the offer and the time, and says what it is.
pub proof fn captures_keep_the_offer(
    content: ContentModel,
    mime: Seq<char>,
    available: Seq<Seq<char>>,
    captured_at: Timestamp,
)
    ensures
        captured_update(None, mime, available, captured_at) is None,
        captured_update(Some(content), mime, available, captured_at) matches Some(update)
            && update.content == content && update.available == available && update.captured_at
            == captured_at && update.mime_type == (if content.image is Some {
            content.image->0.mime_type
        } else if content.files is Some {
            "text/uri-list"@
        } else {
            mime
        }),
{
}

/// Data up to 50 MiB is taken, and files that are regular and not longer than that.
pub proof fn limits_are_fifty_mebibytes(bytes: Seq<u8>, metadata: FileMetadata)
    ensures
        is_too_large(bytes) <==> bytes.len() > 50 * 1024 * 1024,
        file_error(metadata) == Some(ReadError::NotRegular) <==> metadata.kind
            != FileKind::Regular,
        file_error(metadata) == Some(ReadError::TooLarge) <==> metadata.kind == FileKind::Regular
            && metadata.len > 50 * 1024 * 1024,
        file_error(metadata) != Some(ReadError::NotText),
{
}

/// A file is taken byte for byte: as the SVG document that was drawn, as the image whose
/// signature it has, or as text with the color that it denotes. Else it is refused.
pub proof fn files_are_taken_whole(
    bytes: Seq<u8>,
    drawing: Option<SvgDrawing>,
    captured_at: Timestamp,
)
    requires
        bytes.len() <= 50 * 1024 * 1024,
    ensures
        ({
            let svg = valid_utf8(bytes) && drawing is Some && is_plausible_svg(decode_utf8(bytes));
            let raster = signed_image(bytes) is Some;
            match file_update(bytes, drawing, captured_at) {
                Ok(update) => {
                    &&& svg || raster || valid_utf8(bytes)
                    &&& update.captured_at == captured_at
                    &&& update.content.files is None
                    &&& update.content.image is Some <==> svg || raster
                    &&& update.content.image matches Some(image) ==> image.bytes == bytes
                        && update.mime_type == image.mime_type && image.is_svg == svg
                        && update.content.color is None && update.content.text == label_of_image(
                        image,
                    )
                    &&& svg ==> update.content.image == decoded_image(
                        "image/svg+xml"@,
                        bytes,
                        drawing,
                    )
                    &&& !svg && raster ==> update.mime_type == mime_of_format(
                        signed_format(bytes)->0,
                    ) && update.content.image == decoded_image(update.mime_type, bytes, drawing)
                    &&& update.content.image is None ==> encode_utf8(update.content.text) == bytes
                        && update.content.color == color_expression(update.content.text)
                        && update.mime_type == "text/plain;charset=utf-8"@
                    &&& update.available == (if svg {
                        seq!["image/svg+xml"@, "text/plain"@]
                    } else if raster {
                        seq![update.mime_type]
                    } else {
                        seq!["text/plain;charset=utf-8"@, "text/plain"@]
                    })
                },
                Err(error) => error == ReadError::NotText && !svg && !raster && !valid_utf8(bytes),
            }
        }),
{
    if valid_utf8(bytes) {
        vstd::utf8::decode_utf8_encode_utf8(bytes);
    }
    if let Some(format) = signed_format(bytes) {
        image_formats_round_trip(format);
        image_types_have_their_formats(mime_of_format(format));
    }
}

/// A drawing is asked for exactly if the content is an SVG document, by its type or by its
/// text.
pub proof fn drawings_are_asked_for_svg(mime: Seq<char>, bytes: Seq<u8>)
    ensures
        is_drawn(mime, bytes) <==> mime == "image/svg+xml"@ || (is_plain_mime(mime) && valid_utf8(
            bytes,
        ) && is_plausible_svg(decode_utf8(bytes))),
{
}

} // verus!

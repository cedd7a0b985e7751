//! Putting content on the clipboard, and serving it to other programs.

use vstd::prelude::*;
use vstd::string::*;
use vstd::utf8::{decode_utf8, encode_utf8, valid_utf8};
use crate::color::{
    channels, color_text, encode_native_color, native_bytes, native_color, native_color_round_trip,
    ByteOrder,
};
use crate::files::{
    all_listable, described_files, files_of, files_view, gnome_files_payload,
    gnome_files_round_trip, gnome_files_text, uri_list_payload, uri_list_text, uris,
    ClipboardFiles, FileMetadata, FilesModel,
};
use crate::offers::{preferences, preferred, preferred_is_offered};
use crate::picture::{
    decoded_image, format_of_mime, image_view, is_svg_mime, ClipboardImage, ImageModel, SvgDrawing,
};
use crate::text::{same_text, text_from_utf8, views};
use crate::update::{
    content_of, files_content, image_content, is_text_type, text_content, ContentModel,
};

verus! {

broadcast use vstd::string::group_string_axioms;

// ---------------------------------------------------------------------------
// Types
// ---------------------------------------------------------------------------

/// Numbers the requests to set the clipboard.
pub struct WriteCounter {
    latest: u64,
}

/// A request to set the clipboard.
pub struct CopyRequest {
    pub text: Option<String>,
    pub color_rgba: Option<[u8; 4]>,
    pub image: Option<ClipboardImage>,
    pub files: Option<ClipboardFiles>,
    pub generation: u64,
}

/// What is served to other programs while the clipboard holds it.
pub struct CopyState {
    text: Option<String>,
    native_color: Option<Vec<u8>>,
    image: Option<ClipboardImage>,
    files: Option<ClipboardFiles>,
    cancelled: bool,
    current_offer: Option<u64>,
}

// ---------------------------------------------------------------------------
// Model
// ---------------------------------------------------------------------------

/// The model of a `CopyRequest`.
pub ghost struct RequestModel {
    pub text: Option<Seq<char>>,
    pub color: Option<Seq<u8>>,
    pub image: Option<ImageModel>,
    pub files: Option<FilesModel>,
    pub generation: u64,
}

/// The model of a `CopyState`.
pub ghost struct CopyModel {
    pub text: Option<Seq<char>>,
    pub native_color: Option<Seq<u8>>,
    pub image: Option<ImageModel>,
    pub files: Option<FilesModel>,
    pub cancelled: bool,
    pub current_offer: Option<u64>,
}

pub open spec fn string_view(text: Option<String>) -> Option<Seq<char>> {
    match text {
        Some(t) => Some(t@),
        None => None,
    }
}

impl View for WriteCounter {
    type V = u64;

    closed spec fn view(&self) -> u64 {
        self.latest
    }
}

impl View for CopyRequest {
    type V = RequestModel;

    open spec fn view(&self) -> RequestModel {
        RequestModel {
            text: string_view(self.text),
            color: channels(self.color_rgba),
            image: image_view(self.image),
            files: files_view(self.files),
            generation: self.generation,
        }
    }
}

impl View for CopyState {
    type V = CopyModel;

    closed spec fn view(&self) -> CopyModel {
        CopyModel {
            text: string_view(self.text),
            native_color: match self.native_color {
                Some(bytes) => Some(bytes@),
                None => None,
            },
            image: image_view(self.image),
            files: files_view(self.files),
            cancelled: self.cancelled,
            current_offer: self.current_offer,
        }
    }
}

/// The number of the request that follows `generation`.
pub open spec fn next_generation(generation: u64) -> u64 {
    if generation == u64::MAX {
        0
    } else {
        (generation + 1) as u64
    }
}

/// The number of the request that comes `count` requests after `generation`.
pub open spec fn generation_after(generation: u64, count: nat) -> u64
    decreases count,
{
    if count == 0 {
        generation
    } else {
        next_generation(generation_after(generation, (count - 1) as nat))
    }
}

pub open spec fn text_request(
    text: Seq<char>,
    color: Option<Seq<u8>>,
    generation: u64,
) -> RequestModel {
    RequestModel { text: Some(text), color, image: None, files: None, generation }
}

/// An SVG document is offered as text, too.
pub open spec fn image_request(image: ImageModel, generation: u64) -> RequestModel {
    RequestModel {
        text: if image.is_svg && valid_utf8(image.bytes) {
            Some(decode_utf8(image.bytes))
        } else {
            None
        },
        color: None,
        image: Some(image),
        files: None,
        generation,
    }
}

pub open spec fn files_request(files: FilesModel, generation: u64) -> RequestModel {
    RequestModel { text: None, color: None, image: None, files: Some(files), generation }
}

/// The media types under which a request is offered.
pub open spec fn offered_types(request: RequestModel) -> Seq<Seq<char>> {
    let text = if request.text is Some {
        seq!["text/plain;charset=utf-8"@, "text/plain"@]
    } else {
        seq![]
    };
    let color = if request.color is Some {
        seq!["application/x-color"@]
    } else {
        seq![]
    };
    let image = match request.image {
        Some(i) => seq![i.mime_type],
        None => seq![],
    };
    let files = if request.files is Some {
        seq!["text/uri-list"@, "x-special/gnome-copied-files"@]
    } else {
        seq![]
    };
    text + color + image + files
}

/// What is served once a request took the clipboard.
pub open spec fn state_of(request: RequestModel) -> CopyModel {
    CopyModel {
        text: request.text,
        native_color: match request.color {
            Some(rgba) => Some(native_bytes(rgba)),
            None => None,
        },
        image: request.image,
        files: request.files,
        cancelled: false,
        current_offer: None,
    }
}

/// The data that is served as `mime`.
pub open spec fn served(state: CopyModel, mime: Seq<char>) -> Seq<u8> {
    if mime == "application/x-color"@ {
        match state.native_color {
            Some(bytes) => bytes,
            None => seq![],
        }
    } else if state.image is Some && mime == state.image->0.mime_type {
        state.image->0.bytes
    } else if state.files is Some && mime == "text/uri-list"@ {
        encode_utf8(uri_list_text(state.files->0))
    } else if state.files is Some && mime == "x-special/gnome-copied-files"@ {
        encode_utf8(gnome_files_text(state.files->0))
    } else {
        match state.text {
            Some(text) => encode_utf8(text),
            None => seq![],
        }
    }
}

// ---------------------------------------------------------------------------
// Requests
// ---------------------------------------------------------------------------

impl WriteCounter {
    /// No requests yet.
    pub fn new() -> (r: WriteCounter)
        ensures
            r@ == 0,
    {
        WriteCounter { latest: 0 }
    }

    /// The number for a new request.
    fn begin(&mut self) -> (r: u64)
        ensures
            final(self)@ == next_generation(old(self)@),
            r == final(self)@,
    {
        self.latest = self.latest.wrapping_add(1);
        self.latest
    }

    /// Whether no later request was made than the one with the given number.
    pub fn is_current(&self, generation: u64) -> (r: bool)
        ensures
            r == (generation == self@),
    {
        generation == self.latest
    }
}

fn copy_content(writes: &mut WriteCounter, text: String, color_rgba: Option<[u8; 4]>) -> (r:
    CopyRequest)
    ensures
        final(writes)@ == next_generation(old(writes)@),
        r@ == text_request(text@, channels(color_rgba), final(writes)@),
{
    let generation = writes.begin();
    CopyRequest { text: Some(text), color_rgba, image: None, files: None, generation }
}

/// Requests that the clipboard hold text.
pub fn copy_text(writes: &mut WriteCounter, text: String) -> (r: CopyRequest)
    ensures
        final(writes)@ == next_generation(old(writes)@),
        r@ == text_request(text@, None, final(writes)@),
{
    copy_content(writes, text, None)
}

/// Requests that the clipboard hold text, and a color if there is one.
pub fn copy_text_with_color(
    writes: &mut WriteCounter,
    text: String,
    color_rgba: Option<[u8; 4]>,
) -> (r: CopyRequest)
    ensures
        final(writes)@ == next_generation(old(writes)@),
        r@ == text_request(text@, channels(color_rgba), final(writes)@),
{
    copy_content(writes, text, color_rgba)
}

/// Requests that the clipboard hold an image.
pub fn copy_image(writes: &mut WriteCounter, image: ClipboardImage) -> (r: CopyRequest)
    ensures
        final(writes)@ == next_generation(old(writes)@),
        r@ == image_request(image@, final(writes)@),
{
    let generation = writes.begin();
    let text = if image.is_svg {
        match text_from_utf8(image.bytes.as_slice()) {
            Some(text) => Some(text.to_owned()),
            None => None,
        }
    } else {
        None
    };
    CopyRequest { text, color_rgba: None, image: Some(image), files: None, generation }
}

/// Requests that the clipboard hold files.
pub fn copy_files(writes: &mut WriteCounter, files: ClipboardFiles) -> (r: CopyRequest)
    ensures
        final(writes)@ == next_generation(old(writes)@),
        r@ == files_request(files@, final(writes)@),
{
    let generation = writes.begin();
    CopyRequest { text: None, color_rgba: None, image: None, files: Some(files), generation }
}

impl CopyRequest {
    /// The media types under which the request is offered, in order.
    pub fn mime_types(&self) -> (r: Vec<String>)
        ensures
            views(r@) == offered_types(self@),
    {
        let mut types: Vec<String> = Vec::new();
        if self.text.is_some() {
            types.push("text/plain;charset=utf-8".to_owned());
            types.push("text/plain".to_owned());
        }
        if self.color_rgba.is_some() {
            types.push("application/x-color".to_owned());
        }
        if let Some(image) = &self.image {
            types.push(image.mime_type.clone());
        }
        if self.files.is_some() {
            types.push("text/uri-list".to_owned());
            types.push("x-special/gnome-copied-files".to_owned());
        }
        assert(views(types@) =~= offered_types(self@));
        types
    }
}

// ---------------------------------------------------------------------------
// Serving
// ---------------------------------------------------------------------------

impl CopyState {
    /// The state once the request took the clipboard.
    pub fn new(request: CopyRequest) -> (r: CopyState)
        ensures
            r@ == state_of(request@),
    {
        let native_color = match request.color_rgba {
            Some(rgba) => Some(encode_native_color(rgba)),
            None => None,
        };
        CopyState {
            text: request.text,
            native_color,
            image: request.image,
            files: request.files,
            cancelled: false,
            current_offer: None,
        }
    }

    /// The data that is served as `mime_type`.
    pub fn payload(&self, mime_type: &str) -> (r: Vec<u8>)
        ensures
            r@ == served(self@, mime_type@),
    {
        if same_text(mime_type, "application/x-color") {
            return match &self.native_color {
                Some(bytes) => bytes.clone(),
                None => Vec::new(),
            };
        }
        if let Some(image) = &self.image {
            if same_text(mime_type, image.mime_type.as_str()) {
                return (*image.bytes).clone();
            }
        }
        if let Some(files) = &self.files {
            if same_text(mime_type, "text/uri-list") {
                return uri_list_payload(files);
            }
            if same_text(mime_type, "x-special/gnome-copied-files") {
                return gnome_files_payload(files);
            }
        }
        match &self.text {
            Some(text) => text.as_str().as_bytes_vec(),
            None => Vec::new(),
        }
    }

    /// Takes note of a new selection, and gives the offer that is to be destroyed.
    pub fn selection(&mut self, id: Option<u64>) -> (r: Option<u64>)
        ensures
            final(self)@ == (CopyModel { current_offer: id, ..old(self)@ }),
            r == old(self)@.current_offer,
    {
        let previous = self.current_offer;
        self.current_offer = id;
        previous
    }

    /// Takes note that another program took the clipboard.
    pub fn cancel(&mut self)
        ensures
            final(self)@ == (CopyModel { cancelled: true, ..old(self)@ }),
    {
        self.cancelled = true;
    }

    /// Whether another program took the clipboard.
    pub fn is_cancelled(&self) -> (r: bool)
        ensures
            r == self@.cancelled,
    {
        self.cancelled
    }
}

/// The flags that make a file descriptor wait for its reader, if it does not yet: all
/// of its flags but `nonblocking`.
pub fn blocking_flags(flags: i32, nonblocking: i32) -> (r: Option<i32>)
    ensures
        r == (if flags & nonblocking != 0 {
            Some(flags & !nonblocking)
        } else {
            None
        }),
{
    if flags & nonblocking != 0 {
        Some(flags & !nonblocking)
    } else {
        None
    }
}

// ---------------------------------------------------------------------------
// Laws
// ---------------------------------------------------------------------------

/// Once it waits for its reader, a file descriptor keeps doing so.
pub proof fn blocking_is_lasting(flags: i32, nonblocking: i32)
    ensures
        (flags & !nonblocking) & nonblocking == 0,
{
    assert((flags & !nonblocking) & nonblocking == 0) by (bit_vector);
}

proof fn lemma_generation_after(generation: u64, count: nat)
    ensures
        generation_after(generation, count) == (generation + count) % 0x1_0000_0000_0000_0000,
    decreases count,
{
    if count > 0 {
        lemma_generation_after(generation, (count - 1) as nat);
    }
}

/// A request is no longer current once another was made, and every later one finds
/// it superseded, up to the one that comes around to its number again.
pub proof fn superseded_requests_are_discarded(generation: u64, count: nat)
    requires
        0 < count < 0x1_0000_0000_0000_0000,
    ensures
        generation_after(generation, count) != generation,
{
    lemma_generation_after(generation, count);
}

/// The preferred media types are all different.
proof fn lemma_preferences_distinct(i: int, k: int)
    requires
        0 <= i < preferences().len(),
        0 <= k < preferences().len(),
        i != k,
    ensures
        preferences()[i] != preferences()[k],
{
    reveal_strlit("x-special/gnome-copied-files");
    reveal_strlit("text/uri-list");
    reveal_strlit("image/png");
    reveal_strlit("image/jpeg");
    reveal_strlit("image/jpg");
    reveal_strlit("image/webp");
    reveal_strlit("image/gif");
    reveal_strlit("image/bmp");
    reveal_strlit("image/x-bmp");
    reveal_strlit("image/tiff");
    reveal_strlit("image/svg+xml");
    reveal_strlit("application/x-color");
    reveal_strlit("text/plain;charset=utf-8");
    reveal_strlit("text/plain");
    reveal_strlit("UTF8_STRING");
    let a = preferences()[i];
    let b = preferences()[k];
    assert(a.len() != b.len() || a[0] != b[0] || a[6] != b[6]);
}

/// Of an offer that holds `preferences()[i]` and, besides, only types that come
/// after it, that one is taken.
proof fn lemma_preferred(offered: Seq<Seq<char>>, i: int)
    requires
        0 <= i < preferences().len(),
        offered.contains(preferences()[i]),
        forall|k: int, n: int|
            0 <= k < i && 0 <= n < offered.len() ==> #[trigger] preferences()[k]
                != #[trigger] offered[n],
    ensures
        preferred(offered) == Some(preferences()[i]),
{
    preferred_is_offered(offered, i);
    let j = choose|j: int|
        0 <= j <= i && preferred(offered) == Some(#[trigger] preferences()[j]);
    let n = choose|n: int| 0 <= n < offered.len() && offered[n] == preferences()[j];
    assert(preferences()[j] == offered[n]);
}

/// Text that was put on the clipboard without a color is captured again as that
/// text, with the color that it denotes, or as the image that it is.
pub proof fn copied_text_comes_back(
    text: Seq<char>,
    generation: u64,
    order: ByteOrder,
    drawing: Option<SvgDrawing>,
    metadata: Seq<Option<FileMetadata>>,
)
    ensures
        ({
            let request = text_request(text, None, generation);
            &&& preferred(offered_types(request)) == Some("text/plain;charset=utf-8"@)
            &&& content_of(
                order,
                "text/plain;charset=utf-8"@,
                served(state_of(request), "text/plain;charset=utf-8"@),
                drawing,
                metadata,
            ) == Some(text_content(text, drawing))
        }),
{
    let request = text_request(text, None, generation);
    let types = offered_types(request);
    let mime = "text/plain;charset=utf-8"@;
    assert(types =~= seq![preferences()[12], preferences()[13]]);
    assert(types[0] == preferences()[12]);
    assert forall|k: int, n: int| 0 <= k < 12 && 0 <= n < types.len() implies
        #[trigger] preferences()[k] != #[trigger] types[n] by {
        lemma_preferences_distinct(k, 12);
        lemma_preferences_distinct(k, 13);
    }
    lemma_preferred(types, 12);
    lemma_text_mime();
    vstd::utf8::encode_utf8_valid_utf8(text);
    vstd::utf8::encode_utf8_decode_utf8(text);
}

/// `text/plain;charset=utf-8` is taken as text.
proof fn lemma_text_mime()
    ensures
        is_text_type("text/plain;charset=utf-8"@),
{
    reveal_strlit("x-special/gnome-copied-files");
    reveal_strlit("text/uri-list");
    reveal_strlit("image/png");
    reveal_strlit("image/jpeg");
    reveal_strlit("image/jpg");
    reveal_strlit("image/webp");
    reveal_strlit("image/gif");
    reveal_strlit("image/bmp");
    reveal_strlit("image/x-bmp");
    reveal_strlit("image/tiff");
    reveal_strlit("image/svg+xml");
    reveal_strlit("application/x-color");
    reveal_strlit("text/plain;charset=utf-8");
    assert("text/plain;charset=utf-8"@.len() == 24);
}

/// Text that was put on the clipboard with a color is captured again as that color,
/// on machines of either byte order.
pub proof fn copied_color_comes_back(
    text: Seq<char>,
    rgba: Seq<u8>,
    generation: u64,
    order: ByteOrder,
    drawing: Option<SvgDrawing>,
    metadata: Seq<Option<FileMetadata>>,
)
    requires
        rgba.len() == 4,
    ensures
        ({
            let request = text_request(text, Some(rgba), generation);
            &&& preferred(offered_types(request)) == Some("application/x-color"@)
            &&& content_of(
                order,
                "application/x-color"@,
                served(state_of(request), "application/x-color"@),
                drawing,
                metadata,
            ) == Some(
                ContentModel {
                    text: color_text(rgba),
                    color: Some(rgba),
                    image: None,
                    files: None,
                },
            )
        }),
{
    let request = text_request(text, Some(rgba), generation);
    let types = offered_types(request);
    assert(types =~= seq![preferences()[12], preferences()[13], preferences()[11]]);
    assert(types[2] == preferences()[11]);
    assert forall|k: int, n: int| 0 <= k < 11 && 0 <= n < types.len() implies
        #[trigger] preferences()[k] != #[trigger] types[n] by {
        lemma_preferences_distinct(k, 11);
        lemma_preferences_distinct(k, 12);
        lemma_preferences_distinct(k, 13);
    }
    lemma_preferred(types, 11);
    native_color_round_trip(order, rgba, seq![]);
    assert(native_bytes(rgba) + seq![] =~= native_bytes(rgba));
}

/// The media type of an image that is shown is one of those that are taken.
proof fn lemma_image_preference(mime: Seq<char>) -> (i: int)
    requires
        is_svg_mime(mime) || format_of_mime(mime) is Some,
    ensures
        2 <= i <= 10,
        preferences()[i] == mime,
        is_svg_mime(mime) <==> i == 10,
{
    let i = if mime == preferences()[2] {
        2
    } else if mime == preferences()[3] {
        3
    } else if mime == preferences()[4] {
        4
    } else if mime == preferences()[5] {
        5
    } else if mime == preferences()[6] {
        6
    } else if mime == preferences()[7] {
        7
    } else if mime == preferences()[8] {
        8
    } else if mime == preferences()[9] {
        9
    } else {
        10int
    };
    if i != 10 {
        lemma_preferences_distinct(i, 10);
    }
    i
}

/// An image that was put on the clipboard is captured again from the same data: under
/// its own media type, which is preferred to the text that an SVG document is.
pub proof fn copied_image_comes_back(
    image: ImageModel,
    generation: u64,
    order: ByteOrder,
    drawing: Option<SvgDrawing>,
    metadata: Seq<Option<FileMetadata>>,
)
    requires
        is_svg_mime(image.mime_type) || format_of_mime(image.mime_type) is Some,
    ensures
        ({
            let request = image_request(image, generation);
            &&& preferred(offered_types(request)) == Some(image.mime_type)
            &&& served(state_of(request), image.mime_type) == image.bytes
            &&& content_of(
                order,
                image.mime_type,
                served(state_of(request), image.mime_type),
                drawing,
                metadata,
            ) == image_content(decoded_image(image.mime_type, image.bytes, drawing))
        }),
{
    let request = image_request(image, generation);
    let types = offered_types(request);
    let i = lemma_image_preference(image.mime_type);
    if request.text is Some {
        assert(types =~= seq![preferences()[12], preferences()[13], preferences()[i]]);
        assert(types[2] == preferences()[i]);
    } else {
        assert(types =~= seq![preferences()[i]]);
        assert(types[0] == preferences()[i]);
    }
    assert forall|k: int, n: int| 0 <= k < i && 0 <= n < types.len() implies
        #[trigger] preferences()[k] != #[trigger] types[n] by {
        lemma_preferences_distinct(k, i);
        lemma_preferences_distinct(k, 12);
        lemma_preferences_distinct(k, 13);
    }
    lemma_preferred(types, i);
    lemma_preferences_distinct(i, 11);
    lemma_preferences_distinct(i, 0);
    lemma_preferences_distinct(i, 1);
}

/// Files that were put on the clipboard are captured again as the same files, to be
/// copied or moved as before.
pub proof fn copied_files_come_back(
    files: FilesModel,
    generation: u64,
    order: ByteOrder,
    drawing: Option<SvgDrawing>,
    metadata: Seq<Option<FileMetadata>>,
)
    requires
        files.entries.len() > 0,
        all_listable(uris(files.entries)),
    ensures
        ({
            let request = files_request(files, generation);
            let listed = FilesModel {
                entries: files_of(uris(files.entries)),
                operation: files.operation,
            };
            &&& preferred(offered_types(request)) == Some("x-special/gnome-copied-files"@)
            &&& content_of(
                order,
                "x-special/gnome-copied-files"@,
                served(state_of(request), "x-special/gnome-copied-files"@),
                drawing,
                metadata,
            ) == files_content(Some(described_files(listed, metadata)))
        }),
{
    let request = files_request(files, generation);
    let types = offered_types(request);
    assert(types =~= seq![preferences()[1], preferences()[0]]);
    assert(types[1] == preferences()[0]);
    lemma_preferred(types, 0);
    lemma_preferences_distinct(0, 1);
    lemma_preferences_distinct(0, 11);
    gnome_files_round_trip(files);
}

/// Text on the clipboard is served as it is, under whatever media type it is asked for. As
/// a color, the color is served if there is one, each channel twice, and else nothing.
pub proof fn text_is_served_as_it_is(
    text: Seq<char>,
    color: Option<Seq<u8>>,
    generation: u64,
    mime: Seq<char>,
)
    requires
        color matches Some(rgba) ==> rgba.len() == 4,
    ensures
        ({
            let data = served(state_of(text_request(text, color, generation)), mime);
            &&& mime != "application/x-color"@ ==> data == encode_utf8(text)
            &&& mime == "application/x-color"@ && color is None ==> data.len() == 0
            &&& mime == "application/x-color"@ && color is Some ==> data.len() == 8 && forall|i: int|
                0 <= i < 8 ==> #[trigger] data[i] == color->0[i / 2]
        }),
{
}

/// An image on the clipboard is served as its data, byte for byte, under its own media
/// type. An SVG document is served so under other types, too, if it is text.
pub proof fn images_are_served_as_their_data(image: ImageModel, generation: u64, mime: Seq<char>)
    ensures
        ({
            let data = served(state_of(image_request(image, generation)), mime);
            &&& mime == image.mime_type && mime != "application/x-color"@ ==> data == image.bytes
            &&& mime == "application/x-color"@ ==> data.len() == 0
            &&& mime != image.mime_type && mime != "application/x-color"@ ==> data == (
            if image.is_svg && valid_utf8(image.bytes) {
                image.bytes
            } else {
                seq![]
            })
        }),
{
    if valid_utf8(image.bytes) {
        vstd::utf8::decode_utf8_encode_utf8(image.bytes);
    }
}

/// Files on the clipboard are served as the two lists, and as nothing else.
pub proof fn files_are_served_as_lists(files: FilesModel, generation: u64, mime: Seq<char>)
    ensures
        ({
            let data = served(state_of(files_request(files, generation)), mime);
            &&& mime == "text/uri-list"@ ==> data == encode_utf8(uri_list_text(files))
            &&& mime == "x-special/gnome-copied-files"@ ==> data == encode_utf8(
                gnome_files_text(files),
            )
            &&& mime != "text/uri-list"@ && mime != "x-special/gnome-copied-files"@ ==> data.len()
                == 0
        }),
{
    reveal_strlit("text/uri-list");
    reveal_strlit("x-special/gnome-copied-files");
    reveal_strlit("application/x-color");
    assert("text/uri-list"@.len() == 13);
    assert("x-special/gnome-copied-files"@.len() == 28);
    assert("application/x-color"@.len() == 19);
}

/// What is offered of each kind of content, in order.
pub proof fn offers_fit_the_content(
    text: Seq<char>,
    rgba: Seq<u8>,
    image: ImageModel,
    files: FilesModel,
    generation: u64,
)
    ensures
        offered_types(text_request(text, None, generation)) == seq![
            "text/plain;charset=utf-8"@,
            "text/plain"@,
        ],
        offered_types(text_request(text, Some(rgba), generation)) == seq![
            "text/plain;charset=utf-8"@,
            "text/plain"@,
            "application/x-color"@,
        ],
        offered_types(image_request(image, generation)) == (if image.is_svg && valid_utf8(
            image.bytes,
        ) {
            seq!["text/plain;charset=utf-8"@, "text/plain"@, image.mime_type]
        } else {
            seq![image.mime_type]
        }),
        offered_types(files_request(files, generation)) == seq![
            "text/uri-list"@,
            "x-special/gnome-copied-files"@,
        ],
{
    assert(offered_types(text_request(text, None, generation)) =~= seq![
        "text/plain;charset=utf-8"@,
        "text/plain"@,
    ]);
    assert(offered_types(text_request(text, Some(rgba), generation)) =~= seq![
        "text/plain;charset=utf-8"@,
        "text/plain"@,
        "application/x-color"@,
    ]);
    assert(offered_types(image_request(image, generation)) =~= (if image.is_svg && valid_utf8(
        image.bytes,
    ) {
        seq!["text/plain;charset=utf-8"@, "text/plain"@, image.mime_type]
    } else {
        seq![image.mime_type]
    }));
    assert(offered_types(files_request(files, generation)) =~= seq![
        "text/uri-list"@,
        "x-special/gnome-copied-files"@,
    ]);
}

/// Only the bits that make a file descriptor return at once are taken out of its flags.
pub proof fn other_flags_stay(flags: i32, nonblocking: i32)
    ensures
        (flags & !nonblocking) | (flags & nonblocking) == flags,
        flags & nonblocking == 0 ==> flags & !nonblocking == flags,
{
    assert((flags & !nonblocking) | (flags & nonblocking) == flags) by (bit_vector);
    assert(flags & nonblocking == 0 ==> flags & !nonblocking == flags) by (bit_vector);
}

} // verus!

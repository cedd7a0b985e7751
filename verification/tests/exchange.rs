//! Offers of other programs, and what is served to them.

use clipboard_history::copying::{
    blocking_flags, copy_files, copy_image, copy_text, copy_text_with_color, CopyRequest,
    CopyState, WriteCounter,
};
use clipboard_history::files::{
    decode_files, describe_file, file_entry, file_name, file_reference, file_reference_from_url,
    files_label, gnome_files_payload, is_file_mime, uri_list_payload, ClipboardFile,
    ClipboardFiles, FileKind, FileMetadata, FileOperation, FileReferenceError,
};
use clipboard_history::offers::{preferred_mime, DeviceEvent, OfferState, OfferStep};
use clipboard_history::picture::{
    decode_image, decode_svg, image_format, is_image_mime, mime_for_image_format, unmultiply,
    ClipboardImage, GuessedFormat, RasterFormat, SvgDrawing,
};
use clipboard_history::layout::svg_layout;

fn types(names: &[&str]) -> Vec<String> {
    names.iter().map(|name| name.to_string()).collect()
}

#[test]
fn the_best_type_is_taken() {
    let best = |names: &[&str]| preferred_mime(&types(names)).map(str::to_owned);
    assert_eq!(best(&[]), None);
    assert_eq!(best(&["application/json"]), None);
    assert_eq!(
        best(&["text/plain", "image/png", "text/uri-list"]),
        Some("text/uri-list".to_string())
    );
    assert_eq!(
        best(&["text/uri-list", "x-special/gnome-copied-files"]),
        Some("x-special/gnome-copied-files".to_string())
    );
    assert_eq!(
        best(&["UTF8_STRING", "text/html", "text/plain"]),
        Some("text/plain".to_string())
    );
    assert_eq!(
        best(&["STRING", "UTF8_STRING", "text/html"]),
        Some("UTF8_STRING".to_string())
    );
    // Any kind of text will do, the first one.
    assert_eq!(
        best(&["STRING", "text/html", "text/x-moz"]),
        Some("text/html".to_string())
    );
    assert_eq!(best(&["TEXT/plain"]), None);
    let all = [
        "x-special/gnome-copied-files",
        "text/uri-list",
        "image/png",
        "image/jpeg",
        "image/jpg",
        "image/webp",
        "image/gif",
        "image/bmp",
        "image/x-bmp",
        "image/tiff",
        "image/svg+xml",
        "application/x-color",
        "text/plain;charset=utf-8",
        "text/plain",
        "UTF8_STRING",
    ];
    for first in 0..all.len() {
        let mut offered: Vec<&str> = all[first..].to_vec();
        offered.reverse();
        assert_eq!(best(&offered), Some(all[first].to_string()));
    }
}

#[test]
fn the_selection_is_taken_once() {
    let mut state = OfferState::new();
    assert!(matches!(state.next_step(), OfferStep::Wait));
    assert_eq!(state.device_event(DeviceEvent::DataOffer(1)), None);
    state.offer_event(1, "text/html".to_string());
    state.offer_event(1, "text/plain".to_string());
    state.offer_event(9, "image/png".to_string());
    assert_eq!(state.device_event(DeviceEvent::Selection(Some(1))), None);
    match state.next_step() {
        OfferStep::Receive {
            offer,
            mime,
            mime_types,
        } => {
            assert_eq!(offer, 1);
            assert_eq!(mime, "text/plain");
            assert_eq!(mime_types, ["text/html", "text/plain"]);
        }
        _ => panic!("nothing is received"),
    }
    assert!(matches!(state.next_step(), OfferStep::Wait));
}

#[test]
fn offers_without_a_known_type_are_discarded() {
    let mut state = OfferState::new();
    state.device_event(DeviceEvent::DataOffer(3));
    state.offer_event(3, "application/octet-stream".to_string());
    state.device_event(DeviceEvent::Selection(Some(3)));
    assert!(matches!(state.next_step(), OfferStep::Discard(3)));
    assert!(matches!(state.next_step(), OfferStep::Wait));
    // A selection that was never offered is not waited for.
    state.device_event(DeviceEvent::Selection(Some(4)));
    assert!(matches!(state.next_step(), OfferStep::Wait));
}

#[test]
fn worthless_offers_are_destroyed() {
    let mut state = OfferState::new();
    state.device_event(DeviceEvent::DataOffer(1));
    state.device_event(DeviceEvent::Selection(Some(1)));
    state.device_event(DeviceEvent::DataOffer(2));
    state.offer_event(2, "text/plain".to_string());
    assert_eq!(
        state.device_event(DeviceEvent::Selection(Some(2))),
        Some(1)
    );
    state.device_event(DeviceEvent::DataOffer(5));
    assert_eq!(
        state.device_event(DeviceEvent::PrimarySelection(Some(5))),
        Some(5)
    );
    assert_eq!(state.device_event(DeviceEvent::PrimarySelection(None)), None);
    assert_eq!(state.device_event(DeviceEvent::Other), None);
    assert!(matches!(
        state.next_step(),
        OfferStep::Receive { offer: 2, .. }
    ));
    assert_eq!(state.device_event(DeviceEvent::Selection(None)), None);
}

#[test]
fn later_requests_supersede_earlier_ones() {
    let mut writes = WriteCounter::new();
    let first = copy_text(&mut writes, "a".to_string());
    assert!(writes.is_current(first.generation));
    let second = copy_text(&mut writes, "b".to_string());
    assert!(!writes.is_current(first.generation));
    assert!(writes.is_current(second.generation));
    assert_eq!(first.generation, 1);
    assert_eq!(second.generation, 2);
}

fn serve(request: CopyRequest, mime: &str) -> Vec<u8> {
    CopyState::new(request).payload(mime)
}

#[test]
fn text_is_served_under_every_other_name() {
    let mut writes = WriteCounter::new();
    let request = copy_text(&mut writes, "grün".to_string());
    assert_eq!(
        request.mime_types(),
        ["text/plain;charset=utf-8", "text/plain"]
    );
    let state = CopyState::new(request);
    assert_eq!(state.payload("text/plain"), "grün".as_bytes());
    assert_eq!(state.payload("text/uri-list"), "grün".as_bytes());
    assert!(state.payload("application/x-color").is_empty());
}

#[test]
fn colors_are_served_as_text_and_natively() {
    let mut writes = WriteCounter::new();
    let request = copy_text_with_color(&mut writes, "#0102".to_string(), Some([1, 2, 3, 4]));
    assert_eq!(
        request.mime_types(),
        ["text/plain;charset=utf-8", "text/plain", "application/x-color"]
    );
    let state = CopyState::new(request);
    assert_eq!(
        state.payload("application/x-color"),
        [1, 1, 2, 2, 3, 3, 4, 4]
    );
    assert_eq!(state.payload("text/plain"), b"#0102");
}

fn svg_image(bytes: &[u8]) -> ClipboardImage {
    let layout = svg_layout(2f32.to_bits(), 1f32.to_bits());
    let drawing = SvgDrawing::new(layout, vec![0; 8], vec![0; 8]);
    decode_svg(bytes.to_vec(), drawing).expect("an image")
}

#[test]
fn images_are_served_as_their_data() {
    let mut writes = WriteCounter::new();
    let request = copy_image(&mut writes, svg_image(b"<svg/>"));
    assert_eq!(
        request.mime_types(),
        ["text/plain;charset=utf-8", "text/plain", "image/svg+xml"]
    );
    let state = CopyState::new(request);
    assert_eq!(state.payload("image/svg+xml"), b"<svg/>");
    assert_eq!(state.payload("text/plain"), b"<svg/>");

    let request = copy_image(&mut writes, svg_image(b"\x1f\x8b\xff"));
    assert_eq!(request.mime_types(), ["image/svg+xml"]);
    assert_eq!(request.text, None);
    assert!(serve(request, "text/plain").is_empty());

    let mut raster = svg_image(b"<svg/>");
    raster.is_svg = false;
    raster.mime_type = "image/png".to_string();
    let request = copy_image(&mut writes, raster);
    assert_eq!(request.mime_types(), ["image/png"]);
    assert_eq!(serve(request, "image/png"), b"<svg/>");
}

#[test]
fn files_are_served_in_both_formats() {
    let mut writes = WriteCounter::new();
    let files = decode_files(
        "x-special/gnome-copied-files",
        b"cut\nfile:///a\nfile:///b%20c\n",
    )
    .expect("files");
    let request = copy_files(&mut writes, files.clone());
    assert_eq!(
        request.mime_types(),
        ["text/uri-list", "x-special/gnome-copied-files"]
    );
    let state = CopyState::new(request);
    assert_eq!(
        state.payload("text/uri-list"),
        b"file:///a\r\nfile:///b%20c\r\n"
    );
    let gnome = state.payload("x-special/gnome-copied-files");
    assert_eq!(gnome, b"cut\nfile:///a\nfile:///b%20c\n");
    assert_eq!(
        decode_files("x-special/gnome-copied-files", &gnome),
        Some(files.clone())
    );
    let copied = decode_files("text/uri-list", &state.payload("text/uri-list")).expect("files");
    assert_eq!(copied.operation, FileOperation::Copy);
    assert_eq!(copied.entries, files.entries);
}

#[test]
fn copies_take_note_of_selections() {
    let mut writes = WriteCounter::new();
    let mut state = CopyState::new(copy_text(&mut writes, "x".to_string()));
    assert_eq!(state.selection(Some(4)), None);
    assert_eq!(state.selection(Some(5)), Some(4));
    assert_eq!(state.selection(None), Some(5));
    assert!(!state.is_cancelled());
    state.cancel();
    assert!(state.is_cancelled());
    assert_eq!(state.payload("text/plain"), b"x");
}

#[test]
fn lists_are_read_line_by_line() {
    assert!(is_file_mime("text/uri-list"));
    assert!(is_file_mime("x-special/gnome-copied-files"));
    assert!(!is_file_mime("text/plain"));
    let uris = |mime: &str, bytes: &[u8]| {
        decode_files(mime, bytes)
            .map(|files| files.entries.into_iter().map(|file| file.uri).collect::<Vec<_>>())
    };
    assert_eq!(
        uris("text/uri-list", b"\r\n  file:///a \r\nno uri\r\n#file:///c\r\nhttp://d"),
        Some(vec!["file:///a".to_string(), "http://d".to_string()])
    );
    assert_eq!(uris("text/uri-list", b"# nothing\n"), None);
    assert_eq!(uris("text/uri-list", b"file:///\xff"), None);
    assert_eq!(uris("x-special/gnome-copied-files", b""), None);
    assert_eq!(uris("x-special/gnome-copied-files", b"copy\n"), None);
    assert_eq!(uris("x-special/gnome-copied-files", b"move\nfile:///a\n"), None);
    assert_eq!(
        uris("x-special/gnome-copied-files", b"\n copy \n\nfile:///a"),
        Some(vec!["file:///a".to_string()])
    );
    // In a plain list the first line is no operation.
    assert_eq!(
        uris("text/uri-list", b"copy\nfile:///a"),
        Some(vec!["file:///a".to_string()])
    );
}

fn file(uri: &str, size: Option<u64>, is_dir: bool) -> ClipboardFile {
    let mut entry = file_entry(uri).expect("a URI");
    entry.size = size;
    entry.is_dir = is_dir;
    entry
}

#[test]
fn files_are_named_by_path_or_by_uri() {
    let name = |uri: &str| file_name(&file(uri, None, false));
    assert_eq!(name("file:///tmp/a%20b.txt"), "a b.txt");
    assert_eq!(name("file:///tmp/dir/"), "dir");
    assert_eq!(name("file:///tmp/%FF"), "\u{fffd}");
    assert_eq!(name("http://example.org/x/y%20z"), "y%20z");
    assert_eq!(name("http://example.org/x/"), "http://example.org/x/");
    assert_eq!(name("mailto:someone@example.org"), "mailto:someone@example.org");
    assert_eq!(name("file:///"), "file:///");
}

#[test]
fn labels_count_files_and_folders() {
    let label = |entries: Vec<ClipboardFile>| {
        files_label(&ClipboardFiles {
            entries,
            operation: FileOperation::Copy,
        })
    };
    let a = || file("file:///a.txt", Some(1536), false);
    let b = || file("file:///b", None, true);
    assert_eq!(label(vec![a()]), "a.txt · 1.5 KiB");
    assert_eq!(label(vec![b()]), "b");
    assert_eq!(label(vec![a(), a()]), "2 files · 3.0 KiB");
    assert_eq!(label(vec![b(), b()]), "2 folders");
    assert_eq!(label(vec![a(), b(), b()]), "3 items · 1.5 KiB");
    assert_eq!(label(Vec::new()), "0 folders");
}

#[test]
fn only_regular_files_have_a_size() {
    let described = |uri: &str, metadata: Option<FileMetadata>| {
        let mut entry = file_entry(uri).expect("a URI");
        describe_file(&mut entry, metadata);
        (entry.size, entry.is_dir)
    };
    let found = |kind: FileKind| Some(FileMetadata { kind, len: 7 });
    assert_eq!(described("file:///a", found(FileKind::Regular)), (Some(7), false));
    assert_eq!(described("file:///a", found(FileKind::Directory)), (None, true));
    assert_eq!(described("file:///a", found(FileKind::Other)), (None, false));
    assert_eq!(described("file:///a", None), (None, false));
    assert_eq!(described("http://a/b", found(FileKind::Regular)), (None, false));
}

#[test]
fn references_need_an_absolute_path() {
    let files = file_reference("/tmp/x y").expect("a reference");
    assert_eq!(files.operation, FileOperation::Copy);
    assert_eq!(files.entries.len(), 1);
    assert_eq!(files.entries[0].uri, "file:///tmp/x%20y");
    assert_eq!(files.entries[0].path.as_deref(), Some("/tmp/x y".as_bytes()));
    assert_eq!(
        file_reference("relative"),
        Err(FileReferenceError::NotAbsolute)
    );
    assert_eq!(
        file_reference_from_url(Some("no uri".to_string())),
        Err(FileReferenceError::NoUri)
    );
    assert_eq!(
        FileReferenceError::NotAbsolute.message(),
        "temporary file path is not an absolute file path"
    );
    assert_eq!(
        FileReferenceError::NoUri.message(),
        "could not create a file URI"
    );
    assert_eq!(uri_list_payload(&files), b"file:///tmp/x%20y\r\n");
    assert_eq!(gnome_files_payload(&files), b"copy\nfile:///tmp/x%20y\n");
}

#[test]
fn image_types_name_their_format() {
    let formats = [
        (RasterFormat::Png, "image/png"),
        (RasterFormat::Jpeg, "image/jpeg"),
        (RasterFormat::WebP, "image/webp"),
        (RasterFormat::Gif, "image/gif"),
        (RasterFormat::Bmp, "image/bmp"),
        (RasterFormat::Tiff, "image/tiff"),
    ];
    for (format, mime) in formats {
        assert_eq!(mime_for_image_format(GuessedFormat::Raster(format)), Some(mime));
        assert_eq!(image_format(mime), Some(format));
        assert!(is_image_mime(mime));
    }
    assert_eq!(mime_for_image_format(GuessedFormat::Other), None);
    assert_eq!(image_format("image/jpg"), Some(RasterFormat::Jpeg));
    assert_eq!(image_format("image/x-bmp"), Some(RasterFormat::Bmp));
    assert_eq!(image_format("image/svg+xml"), None);
    assert!(is_image_mime("image/svg+xml"));
    assert!(!is_image_mime("image/avif"));
    assert!(decode_image("image/avif", Vec::new(), None).is_none());
    assert!(decode_image("image/png", b"no image".to_vec(), None).is_none());
    assert!(decode_image("image/svg+xml", b"<svg/>".to_vec(), None).is_none());
}

#[test]
fn the_factor_alpha_is_taken_out() {
    let mut pixels = vec![
        10, 20, 30, 255, // opaque
        10, 20, 30, 0, // transparent
        64, 128, 0, 128, // half
        200, 1, 100, 100, // brighter than its alpha
        9, 9, // no pixel
    ];
    unmultiply(&mut pixels);
    assert_eq!(
        pixels,
        vec![
            10, 20, 30, 255, //
            0, 0, 0, 0, //
            127, 255, 0, 128, //
            255, 2, 255, 100, //
            9, 9,
        ]
    );
}

#[test]
fn large_images_are_shown_within_their_bounds() {
    let mut bytes = Vec::new();
    let picture = image::RgbImage::from_pixel(2000, 30, image::Rgb([10, 20, 30]));
    picture
        .write_to(&mut std::io::Cursor::new(&mut bytes), image::ImageFormat::Bmp)
        .expect("encode test BMP");
    let image = decode_image("image/x-bmp", bytes, None).expect("decode test BMP");
    assert_eq!(image.mime_type, "image/x-bmp");
    assert_eq!((image.width, image.height), (2000, 30));
    assert_eq!((image.preview_width, image.preview_height), (960, 14));
    assert_eq!((image.thumbnail_width, image.thumbnail_height), (16, 1));
    assert_eq!(image.preview_rgba.len(), 960 * 14 * 4);
    assert_eq!(&image.thumbnail_rgba[..4], &[10, 20, 30, 255]);
    assert!(!image.is_svg);
}

#[test]
fn one_flag_is_cleared_if_it_is_set() {
    assert_eq!(blocking_flags(0o4001, 0o4000), Some(1));
    assert_eq!(blocking_flags(1, 0o4000), None);
    assert_eq!(blocking_flags(-1, 0o4000), Some(-1 & !0o4000));
}

#[test]
fn names_are_the_last_component_of_the_path() {
    let paths = [
        "/", "/a", "/a/", "/a//", "/a/.", "/a/./", "/a/..", "/a/../", "/./a", "/.", "/..", "/.a",
        "/a/b.c", "//a", "/a/...", "/a/ ",
    ];
    for path in paths {
        let entry = ClipboardFile {
            uri: "file:///uri-name".to_string(),
            path: Some(path.as_bytes().to_vec()),
            size: None,
            is_dir: false,
        };
        let expected = std::path::Path::new(path)
            .file_name()
            .map(|name| name.to_string_lossy().into_owned())
            .unwrap_or_else(|| "uri-name".to_string());
        assert_eq!(file_name(&entry), expected, "{path}");
    }
}

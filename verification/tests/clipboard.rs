//! Capturing what other programs put on the clipboard, and reading files.

use clipboard_history::color::{
    decode_native_color, encode_native_color, format_color, parse_color_expression,
};
use clipboard_history::files::{
    decode_files, file_name, gnome_files_payload, lengths_have_a_sum, uri_list_payload, FileKind,
    FileMetadata, FileOperation,
};
use clipboard_history::layout::SvgLayout;
use clipboard_history::picture::{
    can_decode_image, decode_image, detect_svg_text, image_label, plan_svg, SvgDrawing,
};
use clipboard_history::update::{
    can_capture, can_read_file, can_read_text, capture, capture_if_possible, check_file,
    holds_svg_text, needs_drawing, read_file_as_clipboard_update, read_file_if_possible, Captured, ClipboardUpdate, ReadError, Timestamp,
    MAX_CLIPBOARD_BYTES,
};
use image::ImageEncoder;
use std::io::{Read, Write};

const NOW: Timestamp = Timestamp {
    seconds: 1_700_000_000,
    nanoseconds: 5,
};

fn pixels(tree: &resvg::usvg::Tree, width: u32, height: u32, scale: u32) -> Option<Vec<u8>> {
    let mut pixmap = resvg::tiny_skia::Pixmap::new(width, height)?;
    let scale = f32::from_bits(scale);
    resvg::render(
        tree,
        resvg::tiny_skia::Transform::from_scale(scale, scale),
        &mut pixmap.as_mut(),
    );
    Some(pixmap.take())
}

fn draw(bytes: &[u8]) -> Option<SvgDrawing> {
    let layout: SvgLayout = plan_svg(bytes)?;
    let tree = resvg::usvg::Tree::from_data(bytes, &resvg::usvg::Options::default()).ok()?;
    let preview = layout.preview;
    let thumbnail = layout.thumbnail;
    SvgDrawing::new(
        layout,
        pixels(&tree, preview.width, preview.height, preview.scale)?,
        pixels(&tree, thumbnail.width, thumbnail.height, thumbnail.scale)?,
    )
}

fn encode_png(pixels: &[u8], width: u32, height: u32) -> Vec<u8> {
    let mut encoded = Vec::new();
    image::codecs::png::PngEncoder::new(&mut encoded)
        .write_image(pixels, width, height, image::ExtendedColorType::Rgba8)
        .expect("encode test PNG");
    encoded
}

fn metadata_of(file: &tempfile::NamedTempFile) -> FileMetadata {
    let metadata = file.as_file().metadata().expect("read metadata");
    FileMetadata {
        kind: if metadata.is_file() {
            FileKind::Regular
        } else {
            FileKind::Other
        },
        len: metadata.len(),
    }
}

fn read_back(file: &tempfile::NamedTempFile) -> Result<ClipboardUpdate, ReadError> {
    let mut bytes = Vec::new();
    file.reopen()
        .expect("open temporary file")
        .read_to_end(&mut bytes)
        .expect("read temporary file");
    let drawing = draw(&bytes);
    read_file_as_clipboard_update(metadata_of(file), bytes, drawing, NOW)
}

fn captured(mime: &str, types: &[&str], bytes: &[u8]) -> Captured {
    let drawing = if needs_drawing(mime, bytes) {
        draw(bytes)
    } else {
        None
    };
    let types = types.iter().map(|mime| mime.to_string()).collect();
    capture(mime, types, bytes.to_vec(), drawing, &Vec::new(), NOW)
}

fn update(captured: Captured) -> ClipboardUpdate {
    match captured {
        Captured::Update(update) => update,
        _ => panic!("nothing was captured"),
    }
}

#[test]
fn parses_common_text_color_expressions() {
    assert_eq!(
        parse_color_expression("#3ad"),
        Some([0x33, 0xaa, 0xdd, 0xff])
    );
    assert_eq!(
        parse_color_expression("#33AADD80"),
        Some([0x33, 0xaa, 0xdd, 0x80])
    );
    assert_eq!(
        parse_color_expression("rgb(51, 170, 221)"),
        Some([51, 170, 221, 255])
    );
    assert_eq!(
        parse_color_expression("rgba(20%, 40%, 60%, 0.5)"),
        Some([51, 102, 153, 128])
    );
}

#[test]
fn rejects_text_that_only_contains_a_color() {
    assert_eq!(parse_color_expression("color: #33AADD"), None);
    assert_eq!(parse_color_expression("#12"), None);
    assert_eq!(parse_color_expression("rgb(300, 0, 0)"), None);
}

#[test]
fn native_color_round_trips() {
    let rgba = [0x33, 0xaa, 0xdd, 0x80];
    assert_eq!(decode_native_color(&encode_native_color(rgba)), Some(rgba));
}

#[test]
fn image_capture_generates_a_tiny_cached_thumbnail() {
    let width = 64;
    let height = 32;
    let pixels = vec![0x80; width * height * 4];
    let encoded = encode_png(&pixels, width as u32, height as u32);

    let image = decode_image("image/png", encoded, None).expect("decode test PNG");

    assert_eq!((image.width, image.height), (64, 32));
    assert_eq!((image.preview_width, image.preview_height), (64, 32));
    assert_eq!(image.preview_rgba.len(), 64 * 32 * 4);
    assert_eq!((image.thumbnail_width, image.thumbnail_height), (16, 8));
    assert_eq!(image.thumbnail_rgba.len(), 16 * 8 * 4);
}

#[test]
fn svg_capture_behaves_like_a_raster_image() {
    let svg = br##"<svg xmlns="http://www.w3.org/2000/svg" viewBox="0 0 200 100">
            <rect width="200" height="100" fill="#33aadd"/>
        </svg>"##;

    let image =
        decode_image("image/svg+xml", svg.to_vec(), draw(svg)).expect("decode test SVG");

    assert!(image.is_svg);
    assert_eq!((image.width, image.height), (200, 100));
    assert_eq!((image.preview_width, image.preview_height), (200, 100));
    assert_eq!(image.preview_rgba.len(), 200 * 100 * 4);
    assert_eq!((image.thumbnail_width, image.thumbnail_height), (16, 8));
    assert_eq!(image.thumbnail_rgba.len(), 16 * 8 * 4);
    assert_eq!(image.bytes.as_slice(), svg);
}

#[test]
fn detects_a_complete_svg_copied_as_plain_text() {
    let svg = r#"<svg xmlns="http://www.w3.org/2000/svg" width="1em" height="1em"
            viewBox="0 0 24 24"><title xmlns="">a-arrow-up</title>
            <path fill="none" stroke="currentColor" d="m14 11 4-4 4 4"/></svg>"#;

    let image = detect_svg_text(svg, draw(svg.as_bytes())).expect("detect SVG text");

    assert!(image.is_svg);
    assert_eq!(image.mime_type, "image/svg+xml");
    assert_eq!(image.bytes.as_slice(), svg.as_bytes());
}

#[test]
fn does_not_treat_an_svg_fragment_as_an_image() {
    let text = r#"Use <svg viewBox="0 0 10 10"> here"#;
    assert!(detect_svg_text(text, draw(text.as_bytes())).is_none());
}

#[test]
fn parses_and_restores_standard_file_uri_lists() {
    let payload = b"# copied files\r\nfile:///tmp/first%20file.txt\r\nfile:///tmp/second.txt\r\n";
    let files = decode_files("text/uri-list", payload).expect("decode URI list");

    assert_eq!(files.operation, FileOperation::Copy);
    assert_eq!(files.entries.len(), 2);
    assert_eq!(file_name(&files.entries[0]), "first file.txt");
    assert_eq!(
        uri_list_payload(&files),
        b"file:///tmp/first%20file.txt\r\nfile:///tmp/second.txt\r\n"
    );
}

#[test]
fn preserves_gnome_cut_intent() {
    let payload = b"cut\nfile:///tmp/example.txt\n";
    let files = decode_files("x-special/gnome-copied-files", payload).expect("decode GNOME files");

    assert_eq!(files.operation, FileOperation::Cut);
    assert_eq!(gnome_files_payload(&files), payload);
}

#[test]
fn reads_a_text_file_back_as_clipboard_data() {
    let mut file = tempfile::NamedTempFile::new().expect("create temporary text file");
    file.write_all(b"#33aadd")
        .expect("write temporary text file");

    let update = read_back(&file).expect("read text as clipboard data");

    assert_eq!(update.text, "#33aadd");
    assert_eq!(update.mime_type, "text/plain;charset=utf-8");
    assert_eq!(update.color_rgba, Some([0x33, 0xaa, 0xdd, 0xff]));
    assert!(update.image.is_none());
    assert!(update.files.is_none());
}

#[test]
fn reads_an_image_file_back_as_clipboard_data() {
    let encoded = encode_png(&[0x80; 4 * 4 * 4], 4, 4);
    let mut file = tempfile::NamedTempFile::new().expect("create temporary image file");
    file.write_all(&encoded)
        .expect("write temporary image file");

    let update = read_back(&file).expect("read image as clipboard data");

    assert_eq!(update.mime_type, "image/png");
    assert_eq!(
        update
            .image
            .as_ref()
            .map(|image| (image.width, image.height)),
        Some((4, 4))
    );
    assert!(update.files.is_none());
}

#[test]
fn reads_an_svg_file_back_as_clipboard_data() {
    let svg = b"<?xml version=\"1.0\"?>\n<svg xmlns=\"http://www.w3.org/2000/svg\" width=\"2000\" height=\"10\"/>";
    let mut file = tempfile::NamedTempFile::new().expect("create temporary file");
    file.write_all(svg).expect("write temporary file");

    let update = read_back(&file).expect("read SVG as clipboard data");

    assert_eq!(update.mime_type, "image/svg+xml");
    assert_eq!(update.available_mime_types, ["image/svg+xml", "text/plain"]);
    let image = update.image.expect("an image");
    assert_eq!((image.width, image.height), (2000, 10));
    assert_eq!((image.preview_width, image.preview_height), (960, 5));
    assert_eq!((image.thumbnail_width, image.thumbnail_height), (16, 1));
    assert_eq!(update.text, image_label_of(2000, 10, svg.len()));
}

fn image_label_of(width: u32, height: u32, bytes: usize) -> String {
    format!("{width} × {height} · {bytes} B")
}

#[test]
fn files_that_are_no_content_are_refused() {
    let regular = FileMetadata {
        kind: FileKind::Regular,
        len: MAX_CLIPBOARD_BYTES,
    };
    let directory = FileMetadata {
        kind: FileKind::Directory,
        len: 0,
    };
    let large = FileMetadata {
        kind: FileKind::Regular,
        len: MAX_CLIPBOARD_BYTES + 1,
    };
    assert_eq!(check_file(regular), Ok(()));
    assert_eq!(check_file(directory), Err(ReadError::NotRegular));
    assert_eq!(check_file(large), Err(ReadError::TooLarge));

    let read = |metadata: FileMetadata, bytes: Vec<u8>| {
        read_file_as_clipboard_update(metadata, bytes, None, NOW).map(|update| update.text)
    };
    assert_eq!(read(directory, Vec::new()), Err(ReadError::NotRegular));
    assert_eq!(read(large, Vec::new()), Err(ReadError::TooLarge));
    assert_eq!(
        read(regular, vec![0x20; MAX_CLIPBOARD_BYTES as usize + 1]),
        Err(ReadError::TooLarge)
    );
    assert_eq!(read(regular, vec![0xff, 0xfe]), Err(ReadError::NotText));
    // A signature alone is no image.
    assert_eq!(read(regular, b"\x89PNG\r\n\x1a\n".to_vec()), Err(ReadError::NotText));
    assert_eq!(read(regular, b"BM".to_vec()), Ok("BM".to_string()));
    assert_eq!(read(regular, Vec::new()), Ok(String::new()));
}

#[test]
fn read_errors_have_their_messages() {
    assert_eq!(
        ReadError::NotRegular.message(),
        "clipboard URI does not refer to a regular file"
    );
    assert_eq!(ReadError::TooLarge.message(), "file is larger than 50 MiB");
    assert_eq!(
        ReadError::NotText.message(),
        "file is neither a supported image nor UTF-8 text"
    );
}

#[test]
fn captures_text_with_its_color() {
    let update = update(captured("text/plain", &["text/plain", "text/html"], b" rgb(1,2,3) "));
    assert_eq!(update.text, " rgb(1,2,3) ");
    assert_eq!(update.mime_type, "text/plain");
    assert_eq!(update.available_mime_types, ["text/plain", "text/html"]);
    assert_eq!(update.color_rgba, Some([1, 2, 3, 255]));
    assert_eq!(update.captured_at, NOW);
    assert!(matches!(
        captured("text/plain", &["text/plain"], &[0xff]),
        Captured::Nothing
    ));
}

#[test]
fn captures_native_colors() {
    let bytes = encode_native_color([1, 2, 3, 4]);
    let update = update(captured("application/x-color", &["application/x-color"], &bytes));
    assert_eq!(update.text, "#01020304");
    assert_eq!(update.text, format_color([1, 2, 3, 4]));
    assert_eq!(update.color_rgba, Some([1, 2, 3, 4]));
    assert_eq!(update.mime_type, "application/x-color");
    assert!(matches!(
        captured("application/x-color", &["application/x-color"], &bytes[..7]),
        Captured::Nothing
    ));
}

#[test]
fn captures_images_under_their_own_type() {
    let png = encode_png(&[0x80; 3 * 2 * 4], 3, 2);
    let raster = update(captured("image/png", &["image/png"], &png));
    assert_eq!(raster.mime_type, "image/png");
    assert_eq!(raster.text, format!("3 × 2 · {} B", png.len()));
    assert_eq!(raster.text, image_label(raster.image.as_ref().expect("an image")));
    // The type decides, not the signature.
    assert!(matches!(
        captured("image/gif", &["image/gif"], &png),
        Captured::Nothing
    ));

    let svg = br#"  <svg xmlns="http://www.w3.org/2000/svg" width="30" height="20"/>"#;
    let drawn = update(captured("text/plain", &["text/plain"], svg));
    assert_eq!(drawn.mime_type, "image/svg+xml");
    assert_eq!(drawn.available_mime_types, ["text/plain"]);
    assert!(drawn.image.is_some());

    // Text that looks like a document, but is none, stays text.
    let broken = update(captured("text/plain", &["text/plain"], b"<svg"));
    assert_eq!(broken.text, "<svg");
    assert_eq!(broken.mime_type, "text/plain");
    assert!(broken.image.is_none());
}

#[test]
fn captures_lists_of_files_with_their_sizes() {
    let metadata = vec![
        Some(FileMetadata {
            kind: FileKind::Regular,
            len: 2048,
        }),
        Some(FileMetadata {
            kind: FileKind::Directory,
            len: 4096,
        }),
        None,
    ];
    let payload = b"cut\nfile:///tmp/a\nfile:///tmp/b\nhttp://example.org/c\n";
    let update = update(capture(
        "x-special/gnome-copied-files",
        vec!["x-special/gnome-copied-files".to_string()],
        payload.to_vec(),
        None,
        &metadata,
        NOW,
    ));
    assert_eq!(update.mime_type, "text/uri-list");
    assert_eq!(update.text, "3 items · 2.0 KiB");
    let files = update.files.expect("files");
    assert_eq!(files.operation, FileOperation::Cut);
    assert_eq!(files.entries[0].size, Some(2048));
    assert_eq!(files.entries[0].path.as_deref(), Some("/tmp/a".as_bytes()));
    assert!(files.entries[1].is_dir);
    assert_eq!(files.entries[1].size, None);
    assert_eq!(files.entries[2].path, None);
}

#[test]
fn too_much_data_is_ignored() {
    let bytes = vec![0x61; MAX_CLIPBOARD_BYTES as usize];
    assert!(matches!(
        captured("text/plain", &["text/plain"], &bytes),
        Captured::Update(_)
    ));
    let more = vec![0x61; MAX_CLIPBOARD_BYTES as usize + 1];
    assert!(matches!(
        captured("text/plain", &["text/plain"], &more),
        Captured::TooLarge
    ));
    assert!(matches!(
        captured("image/png", &["image/png"], &more),
        Captured::TooLarge
    ));
}

#[test]
fn only_svg_has_to_be_drawn() {
    assert!(needs_drawing("image/svg+xml", b"anything"));
    assert!(needs_drawing("text/plain", b"\n<svg/>"));
    assert!(needs_drawing("text/html", b"<?xml?> ... <svg/>"));
    assert!(!needs_drawing("text/plain", b"<?xml?>"));
    assert!(!needs_drawing("text/plain", b"<svg \xff"));
    assert!(!needs_drawing("image/png", b"<svg/>"));
    assert!(!needs_drawing("text/uri-list", b"<svg/>"));
    assert!(!needs_drawing("application/x-color", b"<svg/>"));
    assert!(holds_svg_text(b"<svg"));
    assert!(!holds_svg_text(b"svg"));
}

#[test]
fn image_files_are_known_by_their_signature() {
    let picture = image::RgbImage::from_pixel(3, 2, image::Rgb([10, 20, 30]));
    let formats = [
        (image::ImageFormat::Png, "image/png"),
        (image::ImageFormat::Jpeg, "image/jpeg"),
        (image::ImageFormat::WebP, "image/webp"),
        (image::ImageFormat::Gif, "image/gif"),
        (image::ImageFormat::Bmp, "image/bmp"),
        (image::ImageFormat::Tiff, "image/tiff"),
    ];
    for (format, mime) in formats {
        let mut bytes = Vec::new();
        picture
            .write_to(&mut std::io::Cursor::new(&mut bytes), format)
            .expect("encode test image");
        let metadata = FileMetadata {
            kind: FileKind::Regular,
            len: bytes.len() as u64,
        };
        let update = read_file_as_clipboard_update(metadata, bytes.clone(), None, NOW)
            .expect("read image as clipboard data");
        assert_eq!(update.mime_type, mime);
        assert_eq!(update.available_mime_types, [mime]);
        let image = update.image.expect("an image");
        assert_eq!((image.width, image.height), (3, 2));
        assert_eq!(image.bytes.as_slice(), bytes.as_slice());
    }
    // Formats that are not shown are no text either.
    let mut icon = Vec::new();
    picture
        .write_to(&mut std::io::Cursor::new(&mut icon), image::ImageFormat::Qoi)
        .expect("encode test image");
    icon.push(0xff);
    let metadata = FileMetadata {
        kind: FileKind::Regular,
        len: icon.len() as u64,
    };
    assert_eq!(
        read_file_as_clipboard_update(metadata, icon, None, NOW).map(|update| update.text),
        Err(ReadError::NotText)
    );
}

#[test]
fn some_data_cannot_be_captured() {
    let regular = |len: u64| {
        Some(FileMetadata {
            kind: FileKind::Regular,
            len,
        })
    };
    let directory = Some(FileMetadata {
        kind: FileKind::Directory,
        len: u64::MAX,
    });
    let none = Vec::new();
    assert!(can_capture("text/plain", b"#123456", &none));
    assert!(!can_capture("text/plain", "#12€4".as_bytes(), &none));
    assert!(can_capture("text/plain", b"#12\xff", &none));
    // What is not taken as text does not have to be readable.
    assert!(can_capture("image/png", "#12€4".as_bytes(), &none));
    assert!(!can_read_text("#12€4".as_bytes()));
    assert!(lengths_have_a_sum(&vec![regular(u64::MAX), None, directory]));
    assert!(!lengths_have_a_sum(&vec![regular(u64::MAX), regular(1)]));
    assert!(!can_capture(
        "text/uri-list",
        b"",
        &vec![regular(1), regular(u64::MAX)]
    ));
}

#[test]
fn documents_are_planned_if_they_can_be_read() {
    let plan = |text: &str| plan_svg(text.as_bytes()).map(|plan| (plan.width, plan.height));
    let svg = r#"xmlns="http://www.w3.org/2000/svg""#;
    assert_eq!(
        plan(&format!(r#"<svg {svg} width="7" height="3"/>"#)),
        Some((7, 3))
    );
    // A file that is not there does not keep a document from being read.
    assert_eq!(
        plan(&format!(
            r#"<svg {svg} width="7" height="3"><image href="/no/such/file.png"/></svg>"#
        )),
        Some((7, 3))
    );
    assert_eq!(plan(&format!(r#"<svg {svg} width="0" height="3"/>"#)), None);
    assert_eq!(plan("<svg"), None);
    assert_eq!(plan("<html/>"), None);
    assert_eq!(plan(""), None);
    assert!(plan_svg(b"<svg \xff/>").is_none());
    assert!(plan_svg(b"\x1f\x8bno archive").is_none());
}

/// A gray image, one pixel wide, with samples of eight or sixteen bits.
fn tall_png(height: u32, color: image::ExtendedColorType) -> Vec<u8> {
    let samples = vec![0xff; height as usize * color.bits_per_pixel() as usize / 8];
    let mut encoded = Vec::new();
    image::codecs::png::PngEncoder::new(&mut encoded)
        .write_image(&samples, 1, height, color)
        .expect("encode test PNG");
    encoded
}

#[test]
fn images_can_be_decoded_while_their_samples_have_a_sum() {
    // A sixteenth of the rows goes into each pixel of the thumbnail.
    let fine = tall_png(1_000_000, image::ExtendedColorType::L16);
    assert!(can_decode_image("image/png", &fine));
    let image = decode_image("image/png", fine, None).expect("decode test PNG");
    assert_eq!((image.width, image.height), (1, 1_000_000));
    assert_eq!((image.thumbnail_width, image.thumbnail_height), (1, 16));
    assert_eq!(image.thumbnail_rgba.as_slice(), [0xff; 64]);

    let deep = tall_png(1_100_000, image::ExtendedColorType::L16);
    assert!(!can_decode_image("image/png", &deep));
    assert!(!can_capture("image/png", &deep, &Vec::new()));
    assert!(!can_read_file(&deep));
    let types = vec!["image/png".to_string()];
    assert!(capture_if_possible("image/png", types, deep.clone(), None, &Vec::new(), NOW).is_none());
    let metadata = FileMetadata {
        kind: FileKind::Regular,
        len: deep.len() as u64,
    };
    assert!(read_file_if_possible(metadata, deep.clone(), None, NOW).is_none());
    // What is not taken does not have to be decoded.
    assert!(can_decode_image("image/svg+xml", &deep));
    assert!(can_decode_image("text/plain", &deep));
    let directory = FileMetadata {
        kind: FileKind::Directory,
        len: 0,
    };
    assert!(matches!(
        read_file_if_possible(directory, deep, None, NOW),
        Some(Err(ReadError::NotRegular))
    ));

    let shallow = tall_png(1_100_000, image::ExtendedColorType::L8);
    assert!(can_decode_image("image/png", &shallow));
    assert!(decode_image("image/png", shallow, None).is_some());
}

#[test]
fn what_can_be_captured_is_captured() {
    let types = || vec!["text/plain".to_string()];
    let take = |bytes: &[u8]| {
        capture_if_possible("text/plain", types(), bytes.to_vec(), None, &Vec::new(), NOW)
    };
    match take(b"#3ad") {
        Some(Captured::Update(update)) => assert_eq!(update.text, "#3ad"),
        _ => panic!("nothing was captured"),
    }
    assert!(take("#12\u{20ac}4".as_bytes()).is_none());
    assert!(matches!(take(b"\xff"), Some(Captured::Nothing)));
    let large = vec![0x23; MAX_CLIPBOARD_BYTES as usize + 1];
    assert!(matches!(take(&large), Some(Captured::TooLarge)));
    let metadata = FileMetadata {
        kind: FileKind::Regular,
        len: 4,
    };
    match read_file_if_possible(metadata, b"text".to_vec(), None, NOW) {
        Some(Ok(update)) => assert_eq!(update.text, "text"),
        _ => panic!("nothing was read"),
    }
    assert!(read_file_if_possible(metadata, "#12\u{20ac}4".into(), None, NOW).is_none());
}

#[test]
fn a_drawing_has_the_sizes_of_its_layout() {
    let svg = br#"<svg xmlns="http://www.w3.org/2000/svg" width="40" height="3"/>"#;
    let layout = plan_svg(svg).expect("a document");
    assert_eq!((layout.preview.width, layout.preview.height), (40, 3));
    assert_eq!((layout.thumbnail.width, layout.thumbnail.height), (16, 1));
    let drawing = |preview: usize, thumbnail: usize| {
        SvgDrawing::new(layout, vec![0; preview], vec![0; thumbnail])
    };
    assert!(drawing(480, 64).is_some());
    assert!(drawing(479, 64).is_none());
    assert!(drawing(480, 60).is_none());
    assert!(drawing(0, 0).is_none());
    let image = decode_image("image/svg+xml", svg.to_vec(), drawing(480, 64)).expect("an image");
    assert_eq!((image.preview_width, image.preview_height), (40, 3));
    assert_eq!((image.thumbnail_width, image.thumbnail_height), (16, 1));
    assert_eq!((image.preview_rgba.len(), image.thumbnail_rgba.len()), (480, 64));
}

#[test]
fn comments_are_no_files() {
    let list = b"#file:///tmp/a\r\n\r\nfile:///tmp/b\r\n# c\r\n";
    let files = decode_files("text/uri-list", list).expect("a file");
    assert_eq!(files.entries.len(), 1);
    assert_eq!(files.entries[0].uri, "file:///tmp/b");
    assert!(decode_files("text/uri-list", b"#file:///tmp/a\r\n").is_none());
    assert!(decode_files("text/uri-list", b"").is_none());
}

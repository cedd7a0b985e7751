//! Files on the clipboard: the lists they travel in, their names and labels.

use vstd::prelude::*;
use vstd::slice::slice_subrange;
use vstd::string::*;
use vstd::utf8::{decode_utf8, encode_utf8, valid_utf8};
use crate::size::{byte_size, format_bytes};
use crate::text::{
    decimal, joined, lemma_position, lemma_position_unique, lemma_trimmed, lemma_trimmed_range,
    lines, lines_of, lossy_text, position, push_decimal, same_text, text_from_utf8,
    text_from_utf8_lossy, trim, trimmed, views, without_carriage_return,
};

verus! {

broadcast use vstd::string::group_string_axioms;

// ---------------------------------------------------------------------------
// Types
// ---------------------------------------------------------------------------

/// What the clipboard owner wants to happen with the files.
#[derive(Clone, Copy, Debug, PartialEq, Eq, Structural)]
pub enum FileOperation {
    Copy,
    Cut,
}

/// A file on the clipboard. `path` holds the bytes of its local path, if its URI
/// denotes one; `size` is known for regular files only.
#[derive(Clone, Debug, PartialEq, Eq)]
pub struct ClipboardFile {
    pub uri: String,
    pub path: Option<Vec<u8>>,
    pub size: Option<u64>,
    pub is_dir: bool,
}

/// Files on the clipboard.
#[derive(Clone, Debug, PartialEq, Eq)]
pub struct ClipboardFiles {
    pub entries: Vec<ClipboardFile>,
    pub operation: FileOperation,
}

/// What a directory entry is.
#[derive(Clone, Copy, Debug, PartialEq, Eq, Structural)]
pub enum FileKind {
    Regular,
    Directory,
    Other,
}

/// What the file system says of a path. Of the files of a list it is asked without
/// following symbolic links, of a file that is read with following them.
#[derive(Clone, Copy, Debug, PartialEq, Eq, Structural)]
pub struct FileMetadata {
    pub kind: FileKind,
    pub len: u64,
}

// ---------------------------------------------------------------------------
// Model
// ---------------------------------------------------------------------------

/// The model of a `ClipboardFile`.
pub ghost struct FileModel {
    pub uri: Seq<char>,
    pub path: Option<Seq<u8>>,
    pub size: Option<u64>,
    pub is_dir: bool,
}

/// The model of `ClipboardFiles`.
pub ghost struct FilesModel {
    pub entries: Seq<FileModel>,
    pub operation: FileOperation,
}

/// The bytes of an optional vector.
pub open spec fn bytes_view(bytes: Option<Vec<u8>>) -> Option<Seq<u8>> {
    match bytes {
        Some(b) => Some(b@),
        None => None,
    }
}

impl View for ClipboardFile {
    type V = FileModel;

    open spec fn view(&self) -> FileModel {
        FileModel {
            uri: self.uri@,
            path: bytes_view(self.path),
            size: self.size,
            is_dir: self.is_dir,
        }
    }
}

impl View for ClipboardFiles {
    type V = FilesModel;

    open spec fn view(&self) -> FilesModel {
        FilesModel { entries: file_models(self.entries@), operation: self.operation }
    }
}

pub open spec fn file_models(entries: Seq<ClipboardFile>) -> Seq<FileModel> {
    entries.map_values(|entry: ClipboardFile| entry@)
}

/// The trimmed lines that are not empty.
pub open spec fn kept_lines(lines: Seq<Seq<char>>) -> Seq<Seq<char>>
    decreases lines.len(),
{
    if lines.len() == 0 {
        seq![]
    } else {
        let line = trimmed(lines[0]);
        let rest = kept_lines(lines.drop_first());
        if line.len() > 0 {
            seq![line] + rest
        } else {
            rest
        }
    }
}

/// What `url::Url::parse` and `Url::to_file_path` make of a URI: nothing where
/// it does not parse, else the local path it denotes, if it denotes one.
pub uninterp spec fn parsed_file_url(uri: Seq<char>) -> Option<Option<Seq<u8>>>;

/// What a URI denotes: nothing where it is empty, starts like a comment or does not
/// parse, else the local path it denotes, if it denotes one.
pub open spec fn parsed_uri(uri: Seq<char>) -> Option<Option<Seq<u8>>> {
    if uri.len() == 0 || is_comment(uri) {
        None
    } else {
        parsed_file_url(uri)
    }
}

/// The file that a URI denotes, before the file system was asked about it.
pub open spec fn file_of(uri: Seq<char>) -> Option<FileModel> {
    match parsed_uri(uri) {
        Some(path) => Some(FileModel { uri, path, size: None, is_dir: false }),
        None => None,
    }
}

/// Whether a line of a file list is a comment.
pub open spec fn is_comment(line: Seq<char>) -> bool {
    line.len() > 0 && line[0] == '#'
}

/// The files that the lines of a list denote. Comments and lines that are no
/// URIs are skipped.
pub open spec fn listed_files(lines: Seq<Seq<char>>) -> Seq<FileModel>
    decreases lines.len(),
{
    if lines.len() == 0 {
        seq![]
    } else {
        let rest = listed_files(lines.drop_first());
        if is_comment(lines[0]) {
            rest
        } else {
            match file_of(lines[0]) {
                Some(file) => seq![file] + rest,
                None => rest,
            }
        }
    }
}

/// Whether `mime` names a list of files.
pub open spec fn is_file_type(mime: Seq<char>) -> bool {
    mime == "text/uri-list"@ || is_gnome_mime(mime)
}

/// Whether `mime` is the list format that carries the operation in its first
/// line.
pub open spec fn is_gnome_mime(mime: Seq<char>) -> bool {
    mime == "x-special/gnome-copied-files"@
}

pub open spec fn operation_of(line: Seq<char>) -> Option<FileOperation> {
    if line == "copy"@ {
        Some(FileOperation::Copy)
    } else if line == "cut"@ {
        Some(FileOperation::Cut)
    } else {
        None
    }
}

pub open spec fn files_or_nothing(entries: Seq<FileModel>, operation: FileOperation) -> Option<
    FilesModel,
> {
    if entries.len() == 0 {
        None
    } else {
        Some(FilesModel { entries, operation })
    }
}

/// The files of a list in the text format that `mime` names.
pub open spec fn files_in_text(mime: Seq<char>, text: Seq<char>) -> Option<FilesModel> {
    let lines = kept_lines(lines_of(text));
    if is_gnome_mime(mime) {
        if lines.len() == 0 {
            None
        } else {
            match operation_of(lines[0]) {
                Some(operation) => files_or_nothing(listed_files(lines.drop_first()), operation),
                None => None,
            }
        }
    } else {
        files_or_nothing(listed_files(lines), FileOperation::Copy)
    }
}

/// The files of a list in the format that `mime` names.
pub open spec fn decoded_files(mime: Seq<char>, bytes: Seq<u8>) -> Option<FilesModel> {
    if valid_utf8(bytes) {
        files_in_text(mime, decode_utf8(bytes))
    } else {
        None
    }
}

/// A file with what the file system says of its path.
pub open spec fn described(file: FileModel, metadata: Option<FileMetadata>) -> FileModel {
    match (file.path, metadata) {
        (Some(_), Some(found)) => FileModel {
            size: if found.kind == FileKind::Regular {
                Some(found.len)
            } else {
                None
            },
            is_dir: found.kind == FileKind::Directory,
            ..file
        },
        _ => FileModel { size: None, is_dir: false, ..file },
    }
}

pub open spec fn found_at(metadata: Seq<Option<FileMetadata>>, i: int) -> Option<FileMetadata> {
    if i < metadata.len() {
        metadata[i]
    } else {
        None
    }
}

/// Files with what the file system says of their paths, in order.
pub open spec fn described_files(
    files: FilesModel,
    metadata: Seq<Option<FileMetadata>>,
) -> FilesModel {
    FilesModel {
        entries: Seq::new(
            files.entries.len(),
            |i: int| described(files.entries[i], found_at(metadata, i)),
        ),
        operation: files.operation,
    }
}

/// The sum of the lengths of the regular files.
pub open spec fn total_length(metadata: Seq<Option<FileMetadata>>) -> nat
    decreases metadata.len(),
{
    if metadata.len() == 0 {
        0
    } else {
        total_length(metadata.drop_last()) + (match metadata.last() {
            Some(found) => if found.kind == FileKind::Regular {
                found.len as nat
            } else {
                0
            },
            None => 0,
        })
    }
}

/// The URIs of a list of files.
pub open spec fn uris(entries: Seq<FileModel>) -> Seq<Seq<char>> {
    entries.map_values(|entry: FileModel| entry.uri)
}

/// A list of URIs, one to a line.
pub open spec fn uri_list_text(files: FilesModel) -> Seq<char> {
    joined(uris(files.entries), "\r\n"@) + "\r\n"@
}

pub open spec fn operation_name(operation: FileOperation) -> Seq<char> {
    match operation {
        FileOperation::Copy => "copy"@,
        FileOperation::Cut => "cut"@,
    }
}

/// A list of URIs after a line with the operation.
pub open spec fn gnome_files_text(files: FilesModel) -> Seq<char> {
    operation_name(files.operation) + "\n"@ + joined(uris(files.entries), "\n"@) + "\n"@
}

/// The last component of a Unix path, unless the path ends in `..` or has none.
/// Trailing slashes and `.` components do not count.
pub open spec fn path_file_name(path: Seq<u8>) -> Option<Seq<u8>>
    decreases path.len(),
{
    let start = after_last_slash(path);
    let component = path.skip(start);
    let current = component.len() == 0 || component == seq![0x2eu8];
    if current && start > 0 {
        proof {
            lemma_after_last_slash(path);
        }
        path_file_name(path.take(start - 1))
    } else if current || component == seq![0x2eu8, 0x2eu8] {
        None
    } else {
        Some(component)
    }
}

/// The index after the last slash, or zero.
pub open spec fn after_last_slash(path: Seq<u8>) -> int
    decreases path.len(),
{
    if path.len() == 0 {
        0
    } else if path.last() == 0x2f {
        path.len() as int
    } else {
        after_last_slash(path.drop_last())
    }
}

/// The last segment of the path of a URI: `url::Url::parse`,
/// `Url::path_segments` and the last item of those.
pub uninterp spec fn last_path_segment(uri: Seq<char>) -> Option<Seq<char>>;

/// The name of a file: the last component of its path, or else the last
/// segment of its URI, or else the whole URI.
pub open spec fn name_of_file(file: FileModel) -> Seq<char> {
    let from_path = match file.path {
        Some(path) => path_file_name(path),
        None => None,
    };
    let name = match from_path {
        Some(bytes) => Some(lossy_text(bytes)),
        None => last_path_segment(file.uri),
    };
    match name {
        Some(text) => if text.len() > 0 {
            text
        } else {
            file.uri
        },
        None => file.uri,
    }
}

/// The sum of the known sizes.
pub open spec fn total_size(entries: Seq<FileModel>) -> nat
    decreases entries.len(),
{
    if entries.len() == 0 {
        0
    } else {
        total_size(entries.drop_last()) + (match entries.last().size {
            Some(size) => size as nat,
            None => 0,
        })
    }
}

pub open spec fn directory_count(entries: Seq<FileModel>) -> nat
    decreases entries.len(),
{
    if entries.len() == 0 {
        0
    } else {
        directory_count(entries.drop_last()) + (if entries.last().is_dir {
            1nat
        } else {
            0nat
        })
    }
}

/// What several files are called.
pub open spec fn files_noun(entries: Seq<FileModel>) -> Seq<char> {
    if directory_count(entries) == entries.len() {
        "folders"@
    } else if directory_count(entries) == 0 {
        "files"@
    } else {
        "items"@
    }
}

pub open spec fn size_suffix(total: nat) -> Seq<char> {
    if total > 0 {
        " · "@ + byte_size(total)
    } else {
        seq![]
    }
}

/// The label of a list of files: the name of a single file or the number of
/// files, and their total size if it is known.
pub open spec fn label_of_files(files: FilesModel) -> Seq<char> {
    let size = size_suffix(total_size(files.entries));
    if files.entries.len() == 1 {
        name_of_file(files.entries[0]) + size
    } else {
        decimal(files.entries.len()) + " "@ + files_noun(files.entries) + size
    }
}

// ---------------------------------------------------------------------------
// URLs
// ---------------------------------------------------------------------------

/// `url::Url::parse` reads the URI and `Url::to_file_path` gives its local path,
/// here as the bytes of the path. A URI has to have a scheme, which starts with a letter,
/// so that an empty text and one that starts with a number sign do not parse; what else is
/// accepted is only named.
#[verifier::external_body]
fn parse_file_url(uri: &str) -> (r: Option<Option<Vec<u8>>>)
    ensures
        uri@.len() == 0 || is_comment(uri@) ==> r is None,
        (match r {
            Some(path) => Some(bytes_view(path)),
            None => None,
        }) == parsed_file_url(uri@),
{
    let parsed = url::Url::parse(uri).ok()?;
    Some(parsed.to_file_path().ok().map(|path| path.into_os_string().into_encoded_bytes()))
}

/// `url::Url::parse` reads the URI and `Url::path_segments` walks its path, of
/// which the last segment is taken. What it is, is only named.
#[verifier::external_body]
fn url_last_segment(uri: &str) -> (r: Option<String>)
    ensures
        (match r {
            Some(segment) => Some(segment@),
            None => None,
        }) == last_path_segment(uri@),
{
    url::Url::parse(uri).ok()?.path_segments()?.next_back().map(str::to_owned)
}

/// The `file` URL of a path, from `url::Url::from_file_path`: nothing where the
/// path is not absolute.
pub uninterp spec fn url_of_path(path: Seq<char>) -> Option<Seq<char>>;

/// Whether a path starts at the root.
pub open spec fn is_absolute(path: Seq<char>) -> bool {
    path.len() > 0 && path[0] == '/'
}

/// `url::Url::from_file_path` makes a `file` URL of every absolute path, and of no
/// other. How it writes the path is only named.
#[verifier::external_body]
fn file_url(path: &str) -> (r: Option<String>)
    ensures
        (match r {
            Some(url) => Some(url@),
            None => None,
        }) == url_of_path(path@),
        r is Some <==> is_absolute(path@),
{
    url::Url::from_file_path(path).ok().map(|url| url.to_string())
}

// ---------------------------------------------------------------------------
// Reading lists
// ---------------------------------------------------------------------------

/// Whether `mime` names a list of files.
pub fn is_file_mime(mime: &str) -> (r: bool)
    ensures
        r == is_file_type(mime@),
{
    same_text(mime, "text/uri-list") || same_text(mime, "x-special/gnome-copied-files")
}

/// The file that a URI denotes, before the file system was asked about it.
pub fn file_entry(uri: &str) -> (r: Option<ClipboardFile>)
    ensures
        (match r {
            Some(file) => Some(file@),
            None => None,
        }) == file_of(uri@),
{
    match parse_file_url(uri) {
        Some(path) => Some(ClipboardFile { uri: uri.to_owned(), path, size: None, is_dir: false }),
        None => None,
    }
}

fn comment(line: &str) -> (r: bool)
    ensures
        r == is_comment(line@),
{
    !line.is_empty() && line.get_char(0) == '#'
}

fn trimmed_lines(text: &str) -> (r: Vec<String>)
    ensures
        views(r@) == kept_lines(lines_of(text@)),
{
    let all = lines(text);
    let ghost models = views(all@);
    let mut out: Vec<String> = Vec::new();
    let mut i: usize = 0;
    proof {
        assert(models.skip(0) =~= models);
        assert(views(out@) + kept_lines(models) =~= kept_lines(models));
    }
    while i < all.len()
        invariant
            i <= all.len(),
            models == views(all@),
            views(out@) + kept_lines(models.skip(i as int)) == kept_lines(models),
        decreases all.len() - i,
    {
        let line = trim(all[i].as_str());
        let ghost before = views(out@);
        proof {
            assert(models.skip(i as int)[0] == all@[i as int]@);
            assert(models.skip(i as int).drop_first() =~= models.skip(i + 1));
        }
        if !line.is_empty() {
            let kept = line.to_owned();
            out.push(kept);
            proof {
                assert(views(out@) =~= before.push(line@));
                let rest = kept_lines(models.skip(i + 1));
                assert(before.push(line@) + rest =~= before + (seq![line@] + rest));
            }
        }
        i = i + 1;
    }
    proof {
        assert(models.skip(i as int) =~= seq![]);
        assert(views(out@) + kept_lines(seq![]) =~= views(out@));
    }
    out
}

fn list_files(lines: &Vec<String>, from: usize) -> (r: Vec<ClipboardFile>)
    requires
        from <= lines.len(),
    ensures
        file_models(r@) == listed_files(views(lines@).skip(from as int)),
{
    let ghost models = views(lines@);
    let ghost all = listed_files(models.skip(from as int));
    let mut out: Vec<ClipboardFile> = Vec::new();
    let mut i: usize = from;
    proof {
        assert(file_models(out@) + all =~= all);
    }
    while i < lines.len()
        invariant
            from <= i <= lines.len(),
            models == views(lines@),
            file_models(out@) + listed_files(models.skip(i as int)) == all,
        decreases lines.len() - i,
    {
        let line = lines[i].as_str();
        let ghost before = file_models(out@);
        proof {
            assert(models.skip(i as int)[0] == line@);
            assert(models.skip(i as int).drop_first() =~= models.skip(i + 1));
        }
        if !comment(line) {
            if let Some(file) = file_entry(line) {
                let ghost model = file@;
                out.push(file);
                proof {
                    assert(file_models(out@) =~= before.push(model));
                    let rest = listed_files(models.skip(i + 1));
                    assert(before.push(model) + rest =~= before + (seq![model] + rest));
                }
            }
        }
        i = i + 1;
    }
    proof {
        assert(models.skip(i as int) =~= seq![]);
        assert(file_models(out@) + listed_files(seq![]) =~= file_models(out@));
    }
    out
}

/// The model of optional files.
pub open spec fn files_view(files: Option<ClipboardFiles>) -> Option<FilesModel> {
    match files {
        Some(files) => Some(files@),
        None => None,
    }
}

/// Decodes a list of files. The file system has not been asked about them yet:
/// see `describe_files`.
pub fn decode_files(mime: &str, bytes: &[u8]) -> (r: Option<ClipboardFiles>)
    ensures
        files_view(r) == decoded_files(mime@, bytes@),
{
    let text = match text_from_utf8(bytes) {
        Some(text) => text,
        None => {
            return None;
        },
    };
    let lines = trimmed_lines(text);
    let mut operation = FileOperation::Copy;
    let mut from: usize = 0;
    if same_text(mime, "x-special/gnome-copied-files") {
        proof {
            assert(lines.len() > 0 ==> views(lines@)[0] == lines@[0]@);
        }
        if lines.len() == 0 {
            return None;
        } else if same_text(lines[0].as_str(), "copy") {
            operation = FileOperation::Copy;
        } else if same_text(lines[0].as_str(), "cut") {
            operation = FileOperation::Cut;
        } else {
            return None;
        }
        from = 1;
    }
    let entries = list_files(&lines, from);
    proof {
        assert(views(lines@).skip(0) =~= views(lines@));
        assert(from == 1 ==> views(lines@).skip(1) =~= views(lines@).drop_first());
        assert(file_models(entries@).len() == entries.len());
    }
    if entries.len() == 0 {
        None
    } else {
        Some(ClipboardFiles { entries, operation })
    }
}

/// Adds what the file system says of a file.
pub fn describe_file(file: &mut ClipboardFile, metadata: Option<FileMetadata>)
    ensures
        final(file)@ == described(old(file)@, metadata),
{
    let mut size: Option<u64> = None;
    let mut is_dir = false;
    if file.path.is_some() {
        if let Some(found) = metadata {
            if found.kind == FileKind::Regular {
                size = Some(found.len);
            }
            is_dir = found.kind == FileKind::Directory;
        }
    }
    file.size = size;
    file.is_dir = is_dir;
}

/// Adds what the file system says of each file, in order. It says nothing of the
/// files after the last item of `metadata`.
pub fn describe_files(files: &mut ClipboardFiles, metadata: &Vec<Option<FileMetadata>>)
    ensures
        final(files)@ == described_files(old(files)@, metadata@),
{
    let ghost models = files@.entries;
    let ghost operation = files.operation;
    let count = files.entries.len();
    let mut i: usize = 0;
    while i < count
        invariant
            i <= count,
            files.operation == operation,
            files.entries.len() == count,
            models.len() == count,
            forall|k: int| i <= k < count ==> #[trigger] files.entries@[k]@ == models[k],
            forall|k: int|
                0 <= k < i ==> #[trigger] files.entries@[k]@ == described(
                    models[k],
                    found_at(metadata@, k),
                ),
        decreases count - i,
    {
        let found = if i < metadata.len() {
            metadata[i]
        } else {
            None
        };
        describe_file(&mut files.entries[i], found);
        i = i + 1;
    }
    assert(files@.entries =~= described_files(old(files)@, metadata@).entries);
}

proof fn lemma_total_length_prefix(metadata: Seq<Option<FileMetadata>>, n: int)
    requires
        0 <= n <= metadata.len(),
    ensures
        total_length(metadata.take(n)) <= total_length(metadata),
    decreases metadata.len(),
{
    if n < metadata.len() {
        lemma_total_length_prefix(metadata.drop_last(), n);
        assert(metadata.drop_last().take(n) =~= metadata.take(n));
    } else {
        assert(metadata.take(n) =~= metadata);
    }
}

/// Whether the lengths of the regular files have a sum.
pub fn lengths_have_a_sum(metadata: &Vec<Option<FileMetadata>>) -> (r: bool)
    ensures
        r == (total_length(metadata@) <= u64::MAX),
{
    let mut total: u64 = 0;
    let mut i: usize = 0;
    assert(metadata@.take(0) =~= seq![]);
    while i < metadata.len()
        invariant
            i <= metadata.len(),
            total == total_length(metadata@.take(i as int)),
        decreases metadata.len() - i,
    {
        proof {
            assert(metadata@.take(i + 1).drop_last() =~= metadata@.take(i as int));
            lemma_total_length_prefix(metadata@, i + 1);
        }
        if let Some(found) = metadata[i] {
            if found.kind == FileKind::Regular {
                match total.checked_add(found.len) {
                    Some(sum) => {
                        total = sum;
                    },
                    None => {
                        return false;
                    },
                }
            }
        }
        i = i + 1;
    }
    assert(metadata@.take(i as int) =~= metadata@);
    true
}

pub proof fn lemma_after_last_slash(path: Seq<u8>)
    ensures
        0 <= after_last_slash(path) <= path.len(),
        forall|k: int| after_last_slash(path) <= k < path.len() ==> #[trigger] path[k] != 0x2f,
        after_last_slash(path) > 0 ==> path[after_last_slash(path) - 1] == 0x2f,
    decreases path.len(),
{
    if path.len() > 0 && path.last() != 0x2f {
        lemma_after_last_slash(path.drop_last());
        assert forall|k: int| after_last_slash(path) <= k < path.len() implies #[trigger] path[k]
            != 0x2f by {
            if k < path.len() - 1 {
                assert(path[k] == path.drop_last()[k]);
            }
        }
    }
}

// ---------------------------------------------------------------------------
// Names and labels
// ---------------------------------------------------------------------------

fn find_file_name(path: &Vec<u8>) -> (r: Option<Vec<u8>>)
    ensures
        bytes_view(r) == path_file_name(path@),
{
    let mut end: usize = path.len();
    proof {
        assert(path@.take(end as int) =~= path@);
    }
    loop
        invariant
            end <= path.len(),
            path_file_name(path@.take(end as int)) == path_file_name(path@),
        decreases end,
    {
        let mut start: usize = end;
        while start > 0 && path[start - 1] != 0x2f
            invariant
                start <= end <= path.len(),
                after_last_slash(path@.take(end as int)) == after_last_slash(
                    path@.take(start as int),
                ),
            decreases start,
        {
            assert(path@.take(start as int).drop_last() =~= path@.take(start - 1));
            start = start - 1;
        }
        let ghost whole = path@.take(end as int);
        let ghost component = whole.skip(start as int);
        assert(component =~= path@.subrange(start as int, end as int));
        let length = end - start;
        let one_dot = length == 1 && path[start] == 0x2e;
        let two_dots = length == 2 && path[start] == 0x2e && path[start + 1] == 0x2e;
        proof {
            assert(length >= 1 ==> component[0] == path@[start as int]);
            assert(length >= 2 ==> component[1] == path@[start + 1]);
            if component == seq![0x2eu8] {
                assert(component.len() == 1 && component[0] == 0x2e);
            }
            if component == seq![0x2eu8, 0x2eu8] {
                assert(component.len() == 2 && component[0] == 0x2e && component[1] == 0x2e);
            }
            assert(one_dot <==> component =~= seq![0x2eu8]);
            assert(two_dots <==> component =~= seq![0x2eu8, 0x2eu8]);
        }
        if length == 0 || one_dot {
            if start == 0 {
                return None;
            }
            assert(whole.take(start - 1) =~= path@.take(start - 1));
            end = start - 1;
        } else if two_dots {
            return None;
        } else {
            let slice = slice_subrange(path.as_slice(), start, end);
            return Some(vstd::slice::slice_to_vec(slice));
        }
    }
}

/// The name of a file.
pub fn file_name(file: &ClipboardFile) -> (r: String)
    ensures
        r@ == name_of_file(file@),
{
    let from_path = match &file.path {
        Some(path) => find_file_name(path),
        None => None,
    };
    let name = match from_path {
        Some(bytes) => Some(text_from_utf8_lossy(bytes.as_slice())),
        None => url_last_segment(file.uri.as_str()),
    };
    if let Some(text) = name {
        if !text.as_str().is_empty() {
            return text;
        }
    }
    file.uri.clone()
}

/// The files' sizes come from the file system.
pub(crate) proof fn lemma_described_size(files: FilesModel, metadata: Seq<Option<FileMetadata>>)
    ensures
        total_size(described_files(files, metadata).entries) <= total_length(metadata),
    decreases files.entries.len() + metadata.len(),
{
    let entries = described_files(files, metadata).entries;
    let n = files.entries.len();
    if n > 0 {
        let fewer = FilesModel { entries: files.entries.drop_last(), ..files };
        if metadata.len() > n {
            lemma_described_size(files, metadata.drop_last());
            assert(described_files(files, metadata.drop_last()).entries =~= entries);
        } else if metadata.len() == n {
            lemma_described_size(fewer, metadata.drop_last());
            assert(described_files(fewer, metadata.drop_last()).entries =~= entries.drop_last());
        } else {
            lemma_described_size(fewer, metadata);
            assert(described_files(fewer, metadata).entries =~= entries.drop_last());
        }
    }
}

fn sum_sizes(entries: &Vec<ClipboardFile>) -> (r: u64)
    requires
        total_size(file_models(entries@)) <= u64::MAX,
    ensures
        r == total_size(file_models(entries@)),
{
    let ghost models = file_models(entries@);
    let mut total: u64 = 0;
    let mut i: usize = 0;
    while i < entries.len()
        invariant
            i <= entries.len(),
            models == file_models(entries@),
            total_size(models) <= u64::MAX,
            total == total_size(models.take(i as int)),
        decreases entries.len() - i,
    {
        proof {
            assert(models.take(i + 1).drop_last() =~= models.take(i as int));
            assert(models.take(i + 1).last() == entries@[i as int]@);
            lemma_total_size_prefix(models, i + 1);
        }
        if let Some(size) = entries[i].size {
            total = total + size;
        }
        i = i + 1;
    }
    assert(models.take(models.len() as int) =~= models);
    total
}

proof fn lemma_total_size_prefix(entries: Seq<FileModel>, n: int)
    requires
        0 <= n <= entries.len(),
    ensures
        total_size(entries.take(n)) <= total_size(entries),
    decreases entries.len(),
{
    if n < entries.len() {
        lemma_total_size_prefix(entries.drop_last(), n);
        assert(entries.drop_last().take(n) =~= entries.take(n));
    } else {
        assert(entries.take(n) =~= entries);
    }
}

fn count_directories(entries: &Vec<ClipboardFile>) -> (r: usize)
    ensures
        r == directory_count(file_models(entries@)),
        r <= entries.len(),
{
    let ghost models = file_models(entries@);
    let mut count: usize = 0;
    let mut i: usize = 0;
    while i < entries.len()
        invariant
            i <= entries.len(),
            models == file_models(entries@),
            count <= i,
            count == directory_count(models.take(i as int)),
        decreases entries.len() - i,
    {
        proof {
            assert(models.take(i + 1).drop_last() =~= models.take(i as int));
            assert(models.take(i + 1).last() == entries@[i as int]@);
        }
        if entries[i].is_dir {
            count = count + 1;
        }
        i = i + 1;
    }
    assert(models.take(models.len() as int) =~= models);
    count
}

/// The label of a list of files.
pub fn files_label(files: &ClipboardFiles) -> (r: String)
    requires
        total_size(files@.entries) <= u64::MAX,
    ensures
        r@ == label_of_files(files@),
{
    let total = sum_sizes(&files.entries);
    let mut out = if files.entries.len() == 1 {
        file_name(&files.entries[0])
    } else {
        let directories = count_directories(&files.entries);
        let mut text = String::new();
        push_decimal(&mut text, files.entries.len() as u64);
        text.append(" ");
        if directories == files.entries.len() {
            text.append("folders");
        } else if directories == 0 {
            text.append("files");
        } else {
            text.append("items");
        }
        text
    };
    if total > 0 {
        out.append(" · ");
        let size = format_bytes(total);
        out.append(size.as_str());
    }
    assert(out@ =~= label_of_files(files@));
    out
}

// ---------------------------------------------------------------------------
// Writing lists
// ---------------------------------------------------------------------------

fn join_uris(entries: &Vec<ClipboardFile>, separator: &str) -> (r: String)
    ensures
        r@ == joined(uris(file_models(entries@)), separator@),
{
    let ghost parts = uris(file_models(entries@));
    let mut out = String::new();
    let mut i: usize = 0;
    while i < entries.len()
        invariant
            i <= entries.len(),
            parts == uris(file_models(entries@)),
            out@ == joined(parts.take(i as int), separator@),
        decreases entries.len() - i,
    {
        proof {
            assert(parts.take(i + 1).drop_last() =~= parts.take(i as int));
            assert(parts[i as int] == entries@[i as int].uri@);
        }
        if i > 0 {
            out.append(separator);
        }
        out.append(entries[i].uri.as_str());
        i = i + 1;
        assert(out@ =~= joined(parts.take(i as int), separator@));
    }
    assert(parts.take(parts.len() as int) =~= parts);
    out
}

/// The URIs of the files as a URI list.
pub fn uri_list_payload(files: &ClipboardFiles) -> (r: Vec<u8>)
    ensures
        r@ == encode_utf8(uri_list_text(files@)),
{
    let mut payload = join_uris(&files.entries, "\r\n");
    payload.append("\r\n");
    payload.as_str().as_bytes_vec()
}

/// The operation and the URIs of the files, in the format of GNOME's files.
pub fn gnome_files_payload(files: &ClipboardFiles) -> (r: Vec<u8>)
    ensures
        r@ == encode_utf8(gnome_files_text(files@)),
{
    let mut payload = String::new();
    match files.operation {
        FileOperation::Copy => {
            payload.append("copy");
        },
        FileOperation::Cut => {
            payload.append("cut");
        },
    }
    payload.append("\n");
    let list = join_uris(&files.entries, "\n");
    payload.append(list.as_str());
    payload.append("\n");
    assert(payload@ =~= gnome_files_text(files@));
    payload.as_str().as_bytes_vec()
}

// ---------------------------------------------------------------------------
// References to a file
// ---------------------------------------------------------------------------

/// Why there is no reference to a file.
#[derive(Clone, Copy, Debug, PartialEq, Eq, Structural)]
pub enum FileReferenceError {
    NotAbsolute,
    NoUri,
}

impl FileReferenceError {
    pub open spec fn text(self) -> Seq<char> {
        match self {
            FileReferenceError::NotAbsolute => "temporary file path is not an absolute file path"@,
            FileReferenceError::NoUri => "could not create a file URI"@,
        }
    }

    /// The message for the user.
    pub fn message(&self) -> (r: &'static str)
        ensures
            r@ == self.text(),
    {
        match self {
            FileReferenceError::NotAbsolute => "temporary file path is not an absolute file path",
            FileReferenceError::NoUri => "could not create a file URI",
        }
    }
}

/// The reference to the file with the given URL, if it has one.
pub open spec fn reference_to(url: Option<Seq<char>>) -> Result<FilesModel, FileReferenceError> {
    match url {
        None => Err(FileReferenceError::NotAbsolute),
        Some(uri) => match file_of(uri) {
            None => Err(FileReferenceError::NoUri),
            Some(file) => Ok(
                FilesModel { entries: seq![file], operation: FileOperation::Copy },
            ),
        },
    }
}

pub open spec fn files_result(
    r: Result<ClipboardFiles, FileReferenceError>,
) -> Result<FilesModel, FileReferenceError> {
    match r {
        Ok(files) => Ok(files@),
        Err(error) => Err(error),
    }
}

/// A reference to the file with the given URL. The file system has not been
/// asked about it yet: see `describe_files`.
pub fn file_reference_from_url(url: Option<String>) -> (r: Result<
    ClipboardFiles,
    FileReferenceError,
>)
    ensures
        files_result(r) == reference_to(
            match url {
                Some(text) => Some(text@),
                None => None,
            },
        ),
{
    let uri = match url {
        Some(uri) => uri,
        None => {
            return Err(FileReferenceError::NotAbsolute);
        },
    };
    match file_entry(uri.as_str()) {
        Some(file) => {
            let ghost model = file@;
            let mut entries: Vec<ClipboardFile> = Vec::new();
            entries.push(file);
            assert(file_models(entries@) =~= seq![model]);
            Ok(ClipboardFiles { entries, operation: FileOperation::Copy })
        },
        None => Err(FileReferenceError::NoUri),
    }
}

/// A reference to the file at an absolute path.
pub fn file_reference(path: &str) -> (r: Result<ClipboardFiles, FileReferenceError>)
    ensures
        files_result(r) == reference_to(url_of_path(path@)),
        r == Err::<ClipboardFiles, _>(FileReferenceError::NotAbsolute) <==> !is_absolute(path@),
{
    file_reference_from_url(file_url(path))
}

// ---------------------------------------------------------------------------
// Laws
// ---------------------------------------------------------------------------

/// Whether a URI can stand on a line of a list: it is one trimmed line, and it parses.
pub open spec fn is_listable(uri: Seq<char>) -> bool {
    &&& trimmed(uri) == uri
    &&& !uri.contains('\n')
    &&& parsed_uri(uri) is Some
}

pub open spec fn all_listable(parts: Seq<Seq<char>>) -> bool {
    forall|i: int| 0 <= i < parts.len() ==> is_listable(#[trigger] parts[i])
}

/// The files that URIs denote.
pub open spec fn files_of(parts: Seq<Seq<char>>) -> Seq<FileModel> {
    parts.map_values(|uri: Seq<char>| file_of(uri)->0)
}

/// The parts one after the other, each with `end` after it.
pub open spec fn terminated(parts: Seq<Seq<char>>, end: Seq<char>) -> Seq<char>
    decreases parts.len(),
{
    if parts.len() == 0 {
        seq![]
    } else {
        parts[0] + end + terminated(parts.drop_first(), end)
    }
}

proof fn lemma_terminated_push(parts: Seq<Seq<char>>, end: Seq<char>, part: Seq<char>)
    ensures
        terminated(parts.push(part), end) == terminated(parts, end) + part + end,
    decreases parts.len(),
{
    let all = parts.push(part);
    if parts.len() == 0 {
        assert(all.drop_first() =~= parts);
        assert(terminated(parts, end) =~= seq![]);
        assert(terminated(all, end) =~= part + end);
        assert(terminated(parts, end) + part + end =~= part + end);
    } else {
        assert(all.drop_first() =~= parts.drop_first().push(part));
        lemma_terminated_push(parts.drop_first(), end, part);
        assert(terminated(all, end) =~= terminated(parts, end) + part + end);
    }
}

proof fn lemma_joined_terminated(parts: Seq<Seq<char>>, end: Seq<char>)
    requires
        parts.len() > 0,
    ensures
        joined(parts, end) + end == terminated(parts, end),
    decreases parts.len(),
{
    assert(parts.drop_last().push(parts.last()) =~= parts);
    lemma_terminated_push(parts.drop_last(), end, parts.last());
    if parts.len() == 1 {
        assert(parts.drop_last() =~= seq![]);
        assert(seq![] + parts.last() + end =~= parts[0] + end);
    } else {
        lemma_joined_terminated(parts.drop_last(), end);
    }
}

proof fn lemma_lines_step(line: Seq<char>, end: Seq<char>, rest: Seq<char>)
    requires
        line.len() > 0,
        trimmed(line) == line,
        !line.contains('\n'),
        end == seq!['\n'] || end == seq!['\r', '\n'],
    ensures
        lines_of(line + end + rest) == seq![line] + lines_of(rest),
{
    let s = line + end + rest;
    let i = line.len() + end.len() - 1;
    assert(line.last() != '\r') by {
        let _ = lemma_trimmed(line);
    }
    assert forall|k: int| 0 <= k < i implies s[k] != '\n' by {
        if k < line.len() {
            assert(line[k] == s[k]);
        }
    }
    assert(s[i] == '\n');
    lemma_position_unique(s, '\n', i);
    assert(position(s, '\n') == i);
    assert(lines_of(s) == seq![without_carriage_return(s.take(i))] + lines_of(s.skip(i + 1)));
    assert(s.skip(i + 1) =~= rest);
    if end.len() == 1 {
        assert(s.take(i) =~= line);
    } else {
        assert(s.take(i) =~= line.push('\r'));
        assert(line.push('\r').drop_last() =~= line);
    }
}

proof fn lemma_lines_terminated(parts: Seq<Seq<char>>, end: Seq<char>)
    requires
        all_listable(parts),
        end == seq!['\n'] || end == seq!['\r', '\n'],
    ensures
        lines_of(terminated(parts, end)) == parts,
    decreases parts.len(),
{
    if parts.len() == 0 {
        assert(parts =~= seq![]);
    } else {
        let rest = parts.drop_first();
        assert forall|i: int| 0 <= i < rest.len() implies is_listable(#[trigger] rest[i]) by {
            assert(rest[i] == parts[i + 1]);
        }
        lemma_lines_terminated(rest, end);
        assert(is_listable(parts[0]));
        lemma_lines_step(parts[0], end, terminated(rest, end));
        assert(seq![parts[0]] + rest =~= parts);
    }
}

proof fn lemma_listable_lines(parts: Seq<Seq<char>>)
    requires
        all_listable(parts),
    ensures
        kept_lines(parts) == parts,
        listed_files(parts) == files_of(parts),
    decreases parts.len(),
{
    if parts.len() == 0 {
        assert(parts =~= seq![]);
        assert(files_of(parts) =~= seq![]);
    } else {
        let rest = parts.drop_first();
        assert forall|i: int| 0 <= i < rest.len() implies is_listable(#[trigger] rest[i]) by {
            assert(rest[i] == parts[i + 1]);
        }
        lemma_listable_lines(rest);
        assert(is_listable(parts[0]));
        assert(seq![parts[0]] + rest =~= parts);
        assert(files_of(parts) =~= seq![file_of(parts[0])->0] + files_of(rest));
    }
}

/// A URI list decodes to the files whose URIs were written, to be copied.
pub proof fn uri_list_round_trip(files: FilesModel)
    requires
        files.entries.len() > 0,
        all_listable(uris(files.entries)),
    ensures
        decoded_files("text/uri-list"@, encode_utf8(uri_list_text(files))) == Some(
            FilesModel {
                entries: files_of(uris(files.entries)),
                operation: FileOperation::Copy,
            },
        ),
{
    let parts = uris(files.entries);
    let text = uri_list_text(files);
    reveal_strlit("\r\n");
    reveal_strlit("text/uri-list");
    reveal_strlit("x-special/gnome-copied-files");
    assert("\r\n"@ =~= seq!['\r', '\n']);
    assert(!is_gnome_mime("text/uri-list"@)) by {
        assert("text/uri-list"@.len() != "x-special/gnome-copied-files"@.len());
    }
    vstd::utf8::encode_utf8_valid_utf8(text);
    vstd::utf8::encode_utf8_decode_utf8(text);
    lemma_joined_terminated(parts, "\r\n"@);
    lemma_lines_terminated(parts, "\r\n"@);
    lemma_listable_lines(parts);
}

/// A list in the format of GNOME's files decodes to the files whose URIs were
/// written, with the operation that was written.
pub proof fn gnome_files_round_trip(files: FilesModel)
    requires
        files.entries.len() > 0,
        all_listable(uris(files.entries)),
    ensures
        decoded_files("x-special/gnome-copied-files"@, encode_utf8(gnome_files_text(files)))
            == Some(
            FilesModel { entries: files_of(uris(files.entries)), operation: files.operation },
        ),
{
    let parts = uris(files.entries);
    let text = gnome_files_text(files);
    let name = operation_name(files.operation);
    let end = "\n"@;
    reveal_strlit("\n");
    reveal_strlit("copy");
    reveal_strlit("cut");
    assert(end =~= seq!['\n']);
    vstd::utf8::encode_utf8_valid_utf8(text);
    vstd::utf8::encode_utf8_decode_utf8(text);
    lemma_joined_terminated(parts, end);
    lemma_lines_terminated(parts, end);
    lemma_listable_lines(parts);
    let rest = terminated(parts, end);
    assert(text =~= name + end + rest);
    lemma_trimmed_range(name, 0, name.len() as int);
    assert(name.subrange(0, name.len() as int) =~= name);
    lemma_lines_step(name, end, rest);
    let lines = seq![name] + parts;
    assert(lines.drop_first() =~= parts);
    assert(kept_lines(lines) == lines);
    assert(files.operation == FileOperation::Cut ==> "copy"@.len() != "cut"@.len());
}

proof fn lemma_lines_whole(s: Seq<char>)
    ensures
        forall|i: int| 0 <= i < lines_of(s).len() ==> !(#[trigger] lines_of(s)[i]).contains('\n'),
    decreases s.len(),
{
    let i = position(s, '\n');
    lemma_position(s, '\n');
    if s.len() > 0 {
        if i < s.len() {
            let rest = lines_of(s.skip(i + 1));
            lemma_lines_whole(s.skip(i + 1));
            let first = without_carriage_return(s.take(i));
            assert(!first.contains('\n')) by {
                if first.contains('\n') {
                    let k = choose|k: int| 0 <= k < first.len() && first[k] == '\n';
                    assert(s[k] == '\n');
                }
            }
            assert forall|k: int| 0 <= k < lines_of(s).len() implies !(#[trigger] lines_of(
                s,
            )[k]).contains('\n') by {
                if k > 0 {
                    assert(lines_of(s)[k] == rest[k - 1]);
                }
            }
        } else {
            assert(!s.contains('\n'));
        }
    }
}

proof fn lemma_kept_lines_whole(lines: Seq<Seq<char>>)
    requires
        forall|i: int| 0 <= i < lines.len() ==> !(#[trigger] lines[i]).contains('\n'),
    ensures
        forall|i: int|
            0 <= i < kept_lines(lines).len() ==> {
                let line = #[trigger] kept_lines(lines)[i];
                line.len() > 0 && trimmed(line) == line && !line.contains('\n')
            },
    decreases lines.len(),
{
    if lines.len() > 0 {
        let rest = lines.drop_first();
        assert forall|i: int| 0 <= i < rest.len() implies !(#[trigger] rest[i]).contains(
            '\n',
        ) by {
            assert(rest[i] == lines[i + 1]);
        }
        lemma_kept_lines_whole(rest);
        let line = trimmed(lines[0]);
        let (a, b) = lemma_trimmed(lines[0]);
        assert(!lines[0].contains('\n'));
        assert(!line.contains('\n')) by {
            if line.contains('\n') {
                let k = choose|k: int| 0 <= k < line.len() && line[k] == '\n';
                assert(lines[0][a + k] == '\n');
            }
        }
        if line.len() > 0 {
            assert forall|i: int| 0 <= i < kept_lines(lines).len() implies {
                let l = #[trigger] kept_lines(lines)[i];
                l.len() > 0 && trimmed(l) == l && !l.contains('\n')
            } by {
                assert(kept_lines(lines) == seq![line] + kept_lines(rest));
                if i > 0 {
                    assert(kept_lines(lines)[i] == kept_lines(rest)[i - 1]);
                }
            }
        } else {
            assert(kept_lines(lines) == kept_lines(rest));
        }
    }
}

proof fn lemma_listed_files(lines: Seq<Seq<char>>)
    requires
        forall|i: int|
            0 <= i < lines.len() ==> {
                let line = #[trigger] lines[i];
                line.len() > 0 && trimmed(line) == line && !line.contains('\n')
            },
    ensures
        all_listable(uris(listed_files(lines))),
        files_of(uris(listed_files(lines))) == listed_files(lines),
    decreases lines.len(),
{
    let all = listed_files(lines);
    if lines.len() > 0 {
        let rest = lines.drop_first();
        assert forall|i: int| 0 <= i < rest.len() implies {
            let line = #[trigger] rest[i];
            line.len() > 0 && trimmed(line) == line && !line.contains('\n')
        } by {
            assert(rest[i] == lines[i + 1]);
        }
        lemma_listed_files(rest);
        let line = lines[0];
        if !is_comment(line) && file_of(line) is Some {
            let tail = listed_files(rest);
            assert(all == seq![file_of(line)->0] + tail);
            assert forall|i: int| 0 <= i < uris(all).len() implies is_listable(
                #[trigger] uris(all)[i],
            ) by {
                if i > 0 {
                    assert(uris(all)[i] == uris(tail)[i - 1]);
                }
            }
            assert forall|i: int| 0 <= i < all.len() implies files_of(uris(all))[i] == all[i] by {
                if i > 0 {
                    assert(files_of(uris(tail))[i - 1] == tail[i - 1]);
                }
            }
        }
    }
    assert(files_of(uris(all)) =~= all);
}

/// Files that were decoded from a list can be listed again: their URIs survive
/// in either format, and the operation survives in the format of GNOME's files.
pub proof fn decoded_files_survive(mime: Seq<char>, bytes: Seq<u8>)
    requires
        decoded_files(mime, bytes) is Some,
    ensures
        ({
            let files = decoded_files(mime, bytes)->0;
            &&& all_listable(uris(files.entries))
            &&& decoded_files(
                "x-special/gnome-copied-files"@,
                encode_utf8(gnome_files_text(files)),
            ) == Some(files)
            &&& decoded_files("text/uri-list"@, encode_utf8(uri_list_text(files))) == Some(
                FilesModel { operation: FileOperation::Copy, ..files },
            )
        }),
{
    let files = decoded_files(mime, bytes)->0;
    let text = decode_utf8(bytes);
    let lines = kept_lines(lines_of(text));
    lemma_lines_whole(text);
    lemma_kept_lines_whole(lines_of(text));
    if is_gnome_mime(mime) {
        let rest = lines.drop_first();
        assert forall|i: int| 0 <= i < rest.len() implies {
            let line = #[trigger] rest[i];
            line.len() > 0 && trimmed(line) == line && !line.contains('\n')
        } by {
            assert(rest[i] == lines[i + 1]);
        }
        lemma_listed_files(rest);
    } else {
        lemma_listed_files(lines);
    }
    gnome_files_round_trip(files);
    uri_list_round_trip(files);
}

/// Whether a line has neither a line feed in it nor a carriage return at its end.
pub open spec fn is_plain_line(line: Seq<char>) -> bool {
    !line.contains('\n') && (line.len() > 0 ==> line.last() != '\r')
}

pub(crate) proof fn lemma_plain_lines(parts: Seq<Seq<char>>, end: Seq<char>)
    requires
        forall|i: int| 0 <= i < parts.len() ==> is_plain_line(#[trigger] parts[i]),
        end == seq!['\n'] || end == seq!['\r', '\n'],
    ensures
        lines_of(terminated(parts, end)) == parts,
    decreases parts.len(),
{
    if parts.len() == 0 {
        assert(parts =~= seq![]);
    } else {
        let rest = parts.drop_first();
        assert forall|i: int| 0 <= i < rest.len() implies is_plain_line(#[trigger] rest[i]) by {
            assert(rest[i] == parts[i + 1]);
        }
        lemma_plain_lines(rest, end);
        let line = parts[0];
        let tail = terminated(rest, end);
        let text = line + end + tail;
        let i = line.len() + end.len() - 1;
        assert(is_plain_line(line));
        assert forall|k: int| 0 <= k < i implies text[k] != '\n' by {
            if k < line.len() {
                assert(line[k] == text[k]);
                assert(line.contains(line[k]));
            }
        }
        assert(text[i] == '\n');
        lemma_position_unique(text, '\n', i);
        assert(text.skip(i + 1) =~= tail);
        if end.len() == 1 {
            assert(text.take(i) =~= line);
        } else {
            assert(text.take(i) =~= line.push('\r'));
            assert(line.push('\r').drop_last() =~= line);
        }
        assert(seq![line] + rest =~= parts);
    }
}

/// The files of lines, taken by their direct description.
spec fn described_lines(lines: Seq<Seq<char>>) -> Seq<FileModel> {
    lines.map_values(|line: Seq<char>| trimmed(line)).filter(
        |uri: Seq<char>| uri.len() > 0 && uri[0] != '#' && parsed_file_url(uri) is Some,
    ).map_values(
        |uri: Seq<char>|
            FileModel { uri, path: parsed_file_url(uri)->0, size: None, is_dir: false },
    )
}

proof fn lemma_described_push(lines: Seq<Seq<char>>, line: Seq<char>)
    ensures
        described_lines(lines.push(line)) == described_lines(lines) + listed_files(
            kept_lines(seq![line]),
        ),
{
    reveal(Seq::filter);
    let f = |l: Seq<char>| trimmed(l);
    let g = |uri: Seq<char>| uri.len() > 0 && uri[0] != '#' && parsed_file_url(uri) is Some;
    let h = |uri: Seq<char>|
        FileModel { uri, path: parsed_file_url(uri)->0, size: None, is_dir: false };
    let all = lines.push(line).map_values(f);
    let uri = trimmed(line);
    assert(all =~= lines.map_values(f).push(uri));
    assert(all.drop_last() =~= lines.map_values(f));
    let before = lines.map_values(f).filter(g);
    assert(seq![line].drop_first() =~= seq![]);
    assert(kept_lines(seq![]) =~= seq![]);
    if uri.len() > 0 {
        assert(kept_lines(seq![line]) =~= seq![uri]);
        assert(seq![uri].drop_first() =~= seq![]);
        assert(listed_files(seq![]) =~= seq![]);
        if g(uri) {
            assert(all.filter(g) == before.push(uri));
            assert(before.push(uri).map_values(h) =~= before.map_values(h) + seq![h(uri)]);
            assert(listed_files(seq![uri]) =~= seq![h(uri)]);
        } else {
            assert(all.filter(g) == before);
            assert(listed_files(seq![uri]) =~= seq![]);
        }
    } else {
        assert(kept_lines(seq![line]) =~= seq![]);
        assert(listed_files(seq![]) =~= seq![]);
        assert(all.filter(g) == before);
    }
    assert(described_lines(lines.push(line)) =~= described_lines(lines) + listed_files(
        kept_lines(seq![line]),
    ));
}

proof fn lemma_kept_append(a: Seq<Seq<char>>, b: Seq<Seq<char>>)
    ensures
        kept_lines(a + b) == kept_lines(a) + kept_lines(b),
    decreases a.len(),
{
    if a.len() == 0 {
        assert(a + b =~= b);
        assert(kept_lines(a) + kept_lines(b) =~= kept_lines(b));
    } else {
        lemma_kept_append(a.drop_first(), b);
        assert((a + b).drop_first() =~= a.drop_first() + b);
        assert((a + b)[0] == a[0]);
        assert(kept_lines(a + b) =~= kept_lines(a) + kept_lines(b));
    }
}

proof fn lemma_listed_append(a: Seq<Seq<char>>, b: Seq<Seq<char>>)
    ensures
        listed_files(a + b) == listed_files(a) + listed_files(b),
    decreases a.len(),
{
    if a.len() == 0 {
        assert(a + b =~= b);
        assert(listed_files(a) + listed_files(b) =~= listed_files(b));
    } else {
        lemma_listed_append(a.drop_first(), b);
        assert((a + b).drop_first() =~= a.drop_first() + b);
        assert((a + b)[0] == a[0]);
        assert(listed_files(a + b) =~= listed_files(a) + listed_files(b));
    }
}

proof fn lemma_described_lines(lines: Seq<Seq<char>>)
    ensures
        listed_files(kept_lines(lines)) == described_lines(lines),
    decreases lines.len(),
{
    if lines.len() == 0 {
        reveal(Seq::filter);
        assert(described_lines(lines) =~= seq![]);
        assert(kept_lines(lines) =~= seq![]);
    } else {
        let fewer = lines.drop_last();
        let line = lines.last();
        lemma_described_lines(fewer);
        lemma_described_push(fewer, line);
        lemma_kept_append(fewer, seq![line]);
        lemma_listed_append(kept_lines(fewer), kept_lines(seq![line]));
        assert(fewer + seq![line] =~= lines);
        assert(fewer.push(line) =~= lines);
    }
}

/// A list of files has one file for each of its lines that holds a URI, in their order,
/// however often it comes. Whitespace around a line, empty lines, lines that start with a
/// number sign and lines that are no URIs do not matter. Lines end with a line feed, or with
/// a carriage return before it.
pub proof fn lists_have_the_files_of_their_lines(lines: Seq<Seq<char>>, end: Seq<char>)
    requires
        forall|i: int| 0 <= i < lines.len() ==> is_plain_line(#[trigger] lines[i]),
        end == seq!['\n'] || end == seq!['\r', '\n'],
    ensures
        ({
            let entries = lines.map_values(|line: Seq<char>| trimmed(line)).filter(
                |uri: Seq<char>| uri.len() > 0 && uri[0] != '#' && parsed_file_url(uri) is Some,
            ).map_values(
                |uri: Seq<char>|
                    FileModel { uri, path: parsed_file_url(uri)->0, size: None, is_dir: false },
            );
            &&& decoded_files("text/uri-list"@, encode_utf8(terminated(lines, end))) == (
            if entries.len() == 0 {
                None
            } else {
                Some(FilesModel { entries, operation: FileOperation::Copy })
            })
            &&& decoded_files(
                "x-special/gnome-copied-files"@,
                encode_utf8("copy"@ + end + terminated(lines, end)),
            ) == (if entries.len() == 0 {
                None
            } else {
                Some(FilesModel { entries, operation: FileOperation::Copy })
            })
            &&& decoded_files(
                "x-special/gnome-copied-files"@,
                encode_utf8("cut"@ + end + terminated(lines, end)),
            ) == (if entries.len() == 0 {
                None
            } else {
                Some(FilesModel { entries, operation: FileOperation::Cut })
            })
        }),
{
    reveal_strlit("text/uri-list");
    reveal_strlit("x-special/gnome-copied-files");
    assert("text/uri-list"@.len() != "x-special/gnome-copied-files"@.len());
    let text = terminated(lines, end);
    vstd::utf8::encode_utf8_valid_utf8(text);
    vstd::utf8::encode_utf8_decode_utf8(text);
    lemma_plain_lines(lines, end);
    lemma_described_lines(lines);
    lemma_operation_line("copy"@, lines, end);
    lemma_operation_line("cut"@, lines, end);
    assert("copy"@.len() != "cut"@.len()) by {
        reveal_strlit("copy");
        reveal_strlit("cut");
    }
}

proof fn lemma_operation_line(name: Seq<char>, lines: Seq<Seq<char>>, end: Seq<char>)
    requires
        name == "copy"@ || name == "cut"@,
        forall|i: int| 0 <= i < lines.len() ==> is_plain_line(#[trigger] lines[i]),
        end == seq!['\n'] || end == seq!['\r', '\n'],
    ensures
        ({
            let text = name + end + terminated(lines, end);
            &&& valid_utf8(encode_utf8(text))
            &&& decode_utf8(encode_utf8(text)) == text
            &&& kept_lines(lines_of(text)).len() > 0
            &&& kept_lines(lines_of(text))[0] == name
            &&& listed_files(kept_lines(lines_of(text)).drop_first()) == described_lines(lines)
        }),
{
    reveal_strlit("copy");
    reveal_strlit("cut");
    let all = seq![name] + lines;
    let text = name + end + terminated(lines, end);
    assert(is_plain_line(name));
    assert forall|i: int| 0 <= i < all.len() implies is_plain_line(#[trigger] all[i]) by {
        if i > 0 {
            assert(all[i] == lines[i - 1]);
        }
    }
    assert(all.drop_first() =~= lines);
    assert(terminated(all, end) =~= text);
    lemma_plain_lines(all, end);
    vstd::utf8::encode_utf8_valid_utf8(text);
    vstd::utf8::encode_utf8_decode_utf8(text);
    lemma_trimmed_range(name, 0, name.len() as int);
    assert(name.subrange(0, name.len() as int) =~= name);
    assert(kept_lines(all) == seq![name] + kept_lines(lines));
    assert(kept_lines(all).drop_first() =~= kept_lines(lines));
    lemma_described_lines(lines);
}

/// Lists are written with one URI to a line, in order, each line with its ending; the
/// operation has a line of its own in the format of GNOME's files.
pub proof fn lists_have_a_line_for_each_file(files: FilesModel)
    requires
        files.entries.len() > 0,
    ensures
        ({
            let parts = files.entries.map_values(|entry: FileModel| entry.uri);
            &&& uri_list_text(files) == terminated(parts, seq!['\r', '\n'])
            &&& files.operation == FileOperation::Copy ==> gnome_files_text(files) == "copy"@
                + seq!['\n'] + terminated(parts, seq!['\n'])
            &&& files.operation == FileOperation::Cut ==> gnome_files_text(files) == "cut"@
                + seq!['\n'] + terminated(parts, seq!['\n'])
        }),
{
    reveal_strlit("\r\n");
    reveal_strlit("\n");
    assert("\r\n"@ =~= seq!['\r', '\n']);
    assert("\n"@ =~= seq!['\n']);
    let parts = uris(files.entries);
    lemma_joined_terminated(parts, "\r\n"@);
    lemma_joined_terminated(parts, "\n"@);
    assert(gnome_files_text(files) =~= operation_name(files.operation) + seq!['\n'] + (joined(
        parts,
        "\n"@,
    ) + "\n"@));
}

/// What the file system says of a file goes to that file alone: the length of a regular
/// file, and whether it is a directory. Of a file without a local path it says nothing.
pub proof fn descriptions_go_to_their_files(
    files: FilesModel,
    metadata: Seq<Option<FileMetadata>>,
    i: int,
)
    requires
        0 <= i < files.entries.len(),
    ensures
        ({
            let before = files.entries[i];
            let after = described_files(files, metadata).entries[i];
            let found = before.path is Some && i < metadata.len() && metadata[i] is Some;
            &&& described_files(files, metadata).entries.len() == files.entries.len()
            &&& described_files(files, metadata).operation == files.operation
            &&& after.uri == before.uri
            &&& after.path == before.path
            &&& after.size == (if found && metadata[i]->0.kind == FileKind::Regular {
                Some(metadata[i]->0.len)
            } else {
                None
            })
            &&& after.is_dir == (found && metadata[i]->0.kind == FileKind::Directory)
        }),
{
}

/// The size of a file that is known, or zero.
pub open spec fn known_size(file: FileModel) -> nat {
    match file.size {
        Some(size) => size as nat,
        None => 0,
    }
}

proof fn lemma_total_size_fold(entries: Seq<FileModel>)
    ensures
        total_size(entries) == entries.fold_left(
            0nat,
            |sum: nat, file: FileModel|
                sum + match file.size {
                    Some(size) => size as nat,
                    None => 0,
                },
        ),
    decreases entries.len(),
{
    if entries.len() > 0 {
        lemma_total_size_fold(entries.drop_last());
    }
}

proof fn lemma_directories(entries: Seq<FileModel>)
    ensures
        directory_count(entries) <= entries.len(),
        directory_count(entries) == entries.len() <==> forall|i: int|
            0 <= i < entries.len() ==> (#[trigger] entries[i]).is_dir,
        directory_count(entries) == 0 <==> forall|i: int|
            0 <= i < entries.len() ==> !(#[trigger] entries[i]).is_dir,
    decreases entries.len(),
{
    if entries.len() > 0 {
        let fewer = entries.drop_last();
        lemma_directories(fewer);
        let n = entries.len() - 1;
        assert(entries.last() == entries[n]);
        assert(forall|i: int| 0 <= i < fewer.len() ==> #[trigger] fewer[i] == entries[i]);
        if directory_count(entries) == entries.len() {
            assert forall|i: int| 0 <= i < entries.len() implies (#[trigger] entries[i]).is_dir by {
                if i < n {
                    assert(fewer[i].is_dir);
                }
            }
        } else if forall|i: int| 0 <= i < entries.len() ==> (#[trigger] entries[i]).is_dir {
            assert forall|i: int| 0 <= i < fewer.len() implies (#[trigger] fewer[i]).is_dir by {
                assert(entries[i].is_dir);
            }
            assert(entries[n].is_dir);
        }
        if directory_count(entries) == 0 {
            assert forall|i: int| 0 <= i < entries.len() implies !(
            #[trigger] entries[i]).is_dir by {
                if i < n {
                    assert(!fewer[i].is_dir);
                }
            }
        } else if forall|i: int| 0 <= i < entries.len() ==> !(#[trigger] entries[i]).is_dir {
            assert forall|i: int| 0 <= i < fewer.len() implies !(#[trigger] fewer[i]).is_dir by {
                assert(!entries[i].is_dir);
            }
            assert(!entries[n].is_dir);
        }
    }
}

/// The label of any number of files but one: their number, what they are, and the sum of
/// the sizes that are known, unless that is zero.
pub proof fn labels_count_files_and_sizes(files: FilesModel)
    requires
        files.entries.len() != 1,
    ensures
        ({
            let sum = files.entries.fold_left(
                0nat,
                |sum: nat, file: FileModel|
                    sum + match file.size {
                        Some(size) => size as nat,
                        None => 0,
                    },
            );
            let noun = if forall|i: int|
                0 <= i < files.entries.len() ==> (#[trigger] files.entries[i]).is_dir {
                "folders"@
            } else if forall|i: int|
                0 <= i < files.entries.len() ==> !(#[trigger] files.entries[i]).is_dir {
                "files"@
            } else {
                "items"@
            };
            label_of_files(files) == decimal(files.entries.len()) + " "@ + noun + (if sum > 0 {
                " · "@ + byte_size(sum)
            } else {
                seq![]
            })
        }),
{
    lemma_total_size_fold(files.entries);
    lemma_directories(files.entries);
}

/// The label of a single file: its name, and its size if it is known and not zero.
pub proof fn labels_name_a_single_file(files: FilesModel)
    requires
        files.entries.len() == 1,
    ensures
        label_of_files(files) == name_of_file(files.entries[0]) + (match files.entries[0].size {
            Some(size) => if size > 0 {
                " · "@ + byte_size(size as nat)
            } else {
                seq![]
            },
            None => seq![],
        }),
{
    assert(files.entries.drop_last() =~= seq![]);
    assert(total_size(files.entries.drop_last()) == 0);
    assert(files.entries.last() == files.entries[0]);
}

/// What is shown of several files of one size is their number times that size.
pub proof fn equal_sizes_add_up(files: FilesModel, size: u64)
    requires
        files.entries.len() >= 2,
        size > 0,
        forall|i: int|
            0 <= i < files.entries.len() ==> (#[trigger] files.entries[i]).size == Some(size),
    ensures
        ({
            let text = " · "@ + byte_size(files.entries.len() * size as nat);
            let label = label_of_files(files);
            label.len() >= text.len() && label.skip(label.len() - text.len()) == text
        }),
{
    lemma_equal_sizes(files.entries, size);
    let n = files.entries.len();
    assert(n * size as nat > 0) by (nonlinear_arith)
        requires
            n >= 2,
            size > 0,
    ;
    let text = " · "@ + byte_size(n * size as nat);
    let label = label_of_files(files);
    assert(label.skip(label.len() - text.len()) =~= text);
}

proof fn lemma_equal_sizes(entries: Seq<FileModel>, size: u64)
    requires
        forall|i: int| 0 <= i < entries.len() ==> (#[trigger] entries[i]).size == Some(size),
    ensures
        total_size(entries) == entries.len() * size as nat,
    decreases entries.len(),
{
    if entries.len() > 0 {
        let fewer = entries.drop_last();
        assert forall|i: int| 0 <= i < fewer.len() implies (#[trigger] fewer[i]).size == Some(
            size,
        ) by {
            assert(fewer[i] == entries[i]);
        }
        lemma_equal_sizes(fewer, size);
        assert(entries.last() == entries[entries.len() - 1]);
        let n = entries.len() as int;
        assert((n - 1) * size + size == n * size) by (nonlinear_arith);
    } else {
        assert(0nat * size as nat == 0) by (nonlinear_arith);
    }
}

proof fn lemma_total_size_remove(entries: Seq<FileModel>, i: int)
    requires
        0 <= i < entries.len(),
    ensures
        total_size(entries) == total_size(entries.remove(i)) + known_size(entries[i]),
        directory_count(entries) == directory_count(entries.remove(i)) + (if entries[i].is_dir {
            1nat
        } else {
            0
        }),
    decreases entries.len(),
{
    if i == entries.len() - 1 {
        assert(entries.remove(i) =~= entries.drop_last());
    } else {
        lemma_total_size_remove(entries.drop_last(), i);
        assert(entries.remove(i).drop_last() =~= entries.drop_last().remove(i));
        assert(entries.remove(i).last() == entries.last());
    }
}

/// The label does not depend on the order of several files.
pub proof fn labels_do_not_depend_on_the_order(files: FilesModel, other: FilesModel)
    requires
        files.entries.len() >= 2,
        files.entries.to_multiset() == other.entries.to_multiset(),
    ensures
        label_of_files(files) == label_of_files(other),
{
    lemma_same_totals(files.entries, other.entries);
}

proof fn lemma_same_totals(a: Seq<FileModel>, b: Seq<FileModel>)
    requires
        a.to_multiset() == b.to_multiset(),
    ensures
        a.len() == b.len(),
        total_size(a) == total_size(b),
        directory_count(a) == directory_count(b),
    decreases a.len(),
{
    broadcast use vstd::seq_lib::group_to_multiset_ensures;

    assert(a.len() == a.to_multiset().len());
    assert(b.len() == b.to_multiset().len());
    if a.len() > 0 {
        let n = a.len() - 1;
        let file = a[n];
        assert(a.contains(file));
        assert(a.to_multiset().count(file) > 0);
        assert(b.contains(file));
        let j = choose|j: int| 0 <= j < b.len() && b[j] == file;
        lemma_total_size_remove(a, n);
        lemma_total_size_remove(b, j);
        assert(a.remove(n).to_multiset() =~= a.to_multiset().remove(file));
        assert(b.remove(j).to_multiset() =~= b.to_multiset().remove(file));
        lemma_same_totals(a.remove(n), b.remove(j));
    } else {
        assert(a =~= b);
    }
}

/// When one of several files grows, what is shown grows by as much.
pub proof fn totals_grow_with_each_file(files: FilesModel, i: int, size: u64, larger: u64)
    requires
        files.entries.len() >= 2,
        0 <= i < files.entries.len(),
        files.entries[i].size == Some(size),
        size < larger,
    ensures
        ({
            let grown = FilesModel {
                entries: files.entries.update(
                    i,
                    FileModel { size: Some(larger), ..files.entries[i] },
                ),
                ..files
            };
            let text = " · "@ + byte_size((total_size(files.entries) - size + larger) as nat);
            let label = label_of_files(grown);
            label.len() >= text.len() && label.skip(label.len() - text.len()) == text
        }),
{
    let file = FileModel { size: Some(larger), ..files.entries[i] };
    let entries = files.entries.update(i, file);
    lemma_total_size_remove(files.entries, i);
    lemma_total_size_remove(entries, i);
    assert(entries.remove(i) =~= files.entries.remove(i));
    let grown = FilesModel { entries, ..files };
    let text = " · "@ + byte_size((total_size(files.entries) - size + larger) as nat);
    let label = label_of_files(grown);
    assert(label.skip(label.len() - text.len()) =~= text);
}

/// The name of a file is what comes after the slash before it. Slashes at the end do not
/// matter.
pub proof fn names_come_from_paths(
    file: FileModel,
    directory: Seq<u8>,
    name: Seq<u8>,
    slashes: Seq<u8>,
)
    requires
        file.path == Some(directory.push(0x2f) + name + slashes),
        name.len() > 0,
        valid_utf8(name),
        name != seq![0x2eu8],
        name != seq![0x2eu8, 0x2e],
        forall|i: int| 0 <= i < name.len() ==> #[trigger] name[i] != 0x2f,
        forall|i: int| 0 <= i < slashes.len() ==> #[trigger] slashes[i] == 0x2f,
    ensures
        encode_utf8(name_of_file(file)) == name,
{
    lemma_path_name(directory, name, slashes);
    vstd::utf8::decode_utf8_encode_utf8(name);
    if decode_utf8(name).len() == 0 {
        assert(decode_utf8(name) =~= seq![]);
        assert(encode_utf8(decode_utf8(name)).len() == 0);
    }
}

proof fn lemma_path_name(directory: Seq<u8>, name: Seq<u8>, slashes: Seq<u8>)
    requires
        name.len() > 0,
        name != seq![0x2eu8],
        name != seq![0x2eu8, 0x2e],
        forall|i: int| 0 <= i < name.len() ==> #[trigger] name[i] != 0x2f,
        forall|i: int| 0 <= i < slashes.len() ==> #[trigger] slashes[i] == 0x2f,
    ensures
        path_file_name(directory.push(0x2f) + name + slashes) == Some(name),
    decreases slashes.len(),
{
    let path = directory.push(0x2f) + name + slashes;
    let start = after_last_slash(path);
    lemma_after_last_slash(path);
    if slashes.len() == 0 {
        let n = directory.len() as int;
        assert(path[n] == 0x2f);
        assert(start > n);
        if start > n + 1 {
            assert(path[start - 1] == name[start - 2 - n]);
        }
        assert(path.skip(start) =~= name);
    } else {
        assert(path.last() == slashes[slashes.len() - 1]);
        assert(start == path.len());
        assert(path.skip(start).len() == 0);
        let fewer = slashes.drop_last();
        assert forall|i: int| 0 <= i < fewer.len() implies #[trigger] fewer[i] == 0x2f by {
            assert(fewer[i] == slashes[i]);
        }
        lemma_path_name(directory, name, fewer);
        assert(path.take(start - 1) =~= directory.push(0x2f) + name + fewer);
    }
}

/// A path that ends in two dots has no name.
pub proof fn parents_have_no_name(directory: Seq<u8>)
    ensures
        path_file_name(directory + seq![0x2fu8, 0x2e, 0x2e]) is None,
        path_file_name(seq![0x2eu8, 0x2e]) is None,
        path_file_name(seq![0x2fu8]) is None,
        path_file_name(seq![]) is None,
{
    let up = seq![0x2eu8, 0x2e];
    let path = directory + seq![0x2fu8, 0x2e, 0x2e];
    lemma_after_last_slash(path);
    let start = after_last_slash(path);
    let n = directory.len() as int;
    assert(path[n] == 0x2f && path[n + 1] == 0x2e && path[n + 2] == 0x2e);
    assert(start == n + 1);
    assert(path.skip(start) =~= up);
    lemma_after_last_slash(up);
    assert(up.skip(0) =~= up);
    assert(after_last_slash(up) == 0);
    let root = seq![0x2fu8];
    lemma_after_last_slash(root);
    assert(after_last_slash(root) == 1);
    assert(root.skip(1).len() == 0);
    assert(root.take(0) =~= seq![]);
    assert(after_last_slash(seq![]) == 0);
    assert(Seq::<u8>::empty().skip(0).len() == 0);
    reveal_with_fuel(path_file_name, 2);
}

/// Without a path that has a name, a file goes by the last segment of its URI, and without
/// that by the whole URI.
pub proof fn names_come_from_uris(file: FileModel)
    requires
        file.path matches Some(path) ==> path_file_name(path) is None,
    ensures
        last_path_segment(file.uri) matches Some(segment) ==> segment.len() > 0 ==> name_of_file(
            file,
        ) == segment,
        (last_path_segment(file.uri) matches Some(segment) ==> segment.len() == 0)
            ==> name_of_file(file) == file.uri,
{
}

/// A reference is to one file, under its URI, to be copied; without a URI there is none,
/// and neither where the URI denotes nothing.
pub proof fn references_are_to_one_file(uri: Seq<char>)
    ensures
        reference_to(None) == Err::<FilesModel, _>(FileReferenceError::NotAbsolute),
        reference_to(Some(uri)) is Ok <==> uri.len() > 0 && uri[0] != '#' && parsed_file_url(
            uri,
        ) is Some,
        reference_to(Some(uri)) is Err ==> reference_to(Some(uri)) == Err::<FilesModel, _>(
            FileReferenceError::NoUri,
        ),
        reference_to(Some(uri)) matches Ok(files) ==> {
            &&& files.entries.len() == 1
            &&& files.entries[0].uri == uri
            &&& parsed_file_url(uri) == Some(files.entries[0].path)
            &&& files.entries[0].size is None
            &&& !files.entries[0].is_dir
            &&& files.operation == FileOperation::Copy
        },
{
}

} // verus!

//! Media uploads: which files are audio or video, when a recording is long
//! enough to be cut into segments, and how segment transcripts are joined.
use vstd::prelude::*;
use crate::access::{err_view, ApiError};
use crate::config::{opt_view, or_empty};
use crate::document::{format_named, OutputFormat, pdf_chars};
use crate::text::{
    chars_eq, copy_range, lead_c, starts_with, starts_with_chars, chars_of, extend_chars, join, lemma_join_push, lowercase, push_str, str_eq, strs, to_lowercase,
    string_of,
};

verus! {

broadcast use vstd::string::group_string_axioms;

/// Largest accepted upload, in bytes.
pub const MAX_FILE_BYTES: usize = 104857600;

/// Recordings above this many bytes are transcribed segment by segment.
pub const LONG_AUDIO_BYTES: u64 = 5242880;

/// The extension of a path as `std::path::Path::extension` computes it:
/// the part of the last component after its final `.`, if any.
pub uninterp spec fn path_extension(path: Seq<char>) -> Option<Seq<char>>;

/// `std::path::Path::extension`, read back as text. Trusted: the result is
/// `path_extension` of the path; how std splits a path into components is
/// not restated here.
#[verifier::external_body]
fn extension_of(path: &str) -> (r: Option<String>)
    ensures
        opt_view(r) == path_extension(path@),
{
    std::path::Path::new(path).extension().and_then(|e| e.to_str()).map(|e| e.to_string())
}

/// Extensions of the video containers whose audio track is extracted.
pub open spec fn video_ext(e: Seq<char>) -> bool {
    ||| e == "mp4"@
    ||| e == "mkv"@
    ||| e == "avi"@
    ||| e == "mov"@
    ||| e == "webm"@
}

/// Extensions of the audio and video files an upload may carry.
pub open spec fn media_ext(e: Seq<char>) -> bool {
    ||| e == "mp3"@
    ||| e == "wav"@
    ||| e == "m4a"@
    ||| e == "ogg"@
    ||| e == "flac"@
    ||| e == "aac"@
    ||| e == "wma"@
    ||| e == "alac"@
    ||| e == "aiff"@
    ||| e == "opus"@
    ||| e == "mp4"@
    ||| e == "mkv"@
    ||| e == "avi"@
    ||| e == "mov"@
    ||| e == "webm"@
    ||| e == "flv"@
    ||| e == "wmv"@
    ||| e == "m4v"@
    ||| e == "3gp"@
    ||| e == "ts"@
    ||| e == "mpeg"@
    ||| e == "mpg"@
    ||| e == "rm"@
    ||| e == "rmvb"@
    ||| e == "vob"@
    ||| e == "mts"@
    ||| e == "m2ts"@
    ||| e == "divx"@
}

/// The lowercased extension of a file name, or empty when it has none.
pub open spec fn lower_ext(filename: Seq<char>) -> Seq<char> {
    lowercase(or_empty(path_extension(filename)))
}

/// Whether an (already lowercased) extension names a video container.
pub fn is_video_extension(ext: &str) -> (r: bool)
    ensures
        r == video_ext(ext@),
{
    str_eq(ext, "mp4") || str_eq(ext, "mkv") || str_eq(ext, "avi") || str_eq(ext, "mov")
        || str_eq(ext, "webm")
}

/// The lowercased extension of `filename`, or the empty string.
pub fn file_extension(filename: &str) -> (r: String)
    ensures
        r@ == lower_ext(filename@),
{
    let e = extension_of(filename);
    match e {
        Some(x) => to_lowercase(x.as_str()),
        None => {
            let empty = String::new();
            assert(empty@ == Seq::<char>::empty());
            to_lowercase(empty.as_str())
        },
    }
}

/// Whether the file's extension suggests a video container.
pub fn is_video_file(filename: &str) -> (r: bool)
    ensures
        r == video_ext(lower_ext(filename@)),
{
    let e = file_extension(filename);
    is_video_extension(e.as_str())
}

/// Whether an (already lowercased) extension names an accepted audio or
/// video format.
pub fn is_audio_video(ext: &str) -> (r: bool)
    ensures
        r == media_ext(ext@),
{
    str_eq(ext, "mp3") || str_eq(ext, "wav") || str_eq(ext, "m4a") || str_eq(ext, "ogg")
        || str_eq(ext, "flac") || str_eq(ext, "aac") || str_eq(ext, "wma") || str_eq(ext, "alac")
        || str_eq(ext, "aiff") || str_eq(ext, "opus") || str_eq(ext, "mp4") || str_eq(ext, "mkv")
        || str_eq(ext, "avi") || str_eq(ext, "mov") || str_eq(ext, "webm") || str_eq(ext, "flv")
        || str_eq(ext, "wmv") || str_eq(ext, "m4v") || str_eq(ext, "3gp") || str_eq(ext, "ts")
        || str_eq(ext, "mpeg") || str_eq(ext, "mpg") || str_eq(ext, "rm") || str_eq(ext, "rmvb")
        || str_eq(ext, "vob") || str_eq(ext, "mts") || str_eq(ext, "m2ts") || str_eq(ext, "divx")
}

/// Whether an uploaded file of this name is accepted for transcription.
pub fn is_media_file(filename: &str) -> (r: bool)
    ensures
        r == media_ext(lower_ext(filename@)),
{
    let e = file_extension(filename);
    is_audio_video(e.as_str())
}

/// Whether an upload that has reached `size` bytes is over the limit.
pub fn upload_too_large(size: usize) -> (r: bool)
    ensures
        r == (size > MAX_FILE_BYTES),
{
    size > MAX_FILE_BYTES
}

/// Whether a recording of `len` bytes is cut into segments before it is
/// transcribed.
pub fn needs_segmentation(len: usize) -> (r: bool)
    ensures
        r == (len > LONG_AUDIO_BYTES),
{
    (len as u64) > LONG_AUDIO_BYTES
}

/// The transcript of a segmented recording: the segment transcripts in
/// order, separated by single spaces.
pub fn join_transcripts(parts: &Vec<String>) -> (r: String)
    ensures
        r@ == join(strs(parts@), " "@),
{
    let sp = chars_of(" ");
    let n = parts.len();
    let mut out: Vec<char> = Vec::new();
    for i in 0..n
        invariant
            n == parts@.len(),
            sp@ == " "@,
            out@ == join(strs(parts@).take(i as int), " "@),
    {
        let ghost prefix = strs(parts@).take(i as int);
        proof {
            lemma_join_push(prefix, " "@, parts@[i as int]@);
            assert(strs(parts@).take(i + 1) =~= prefix.push(parts@[i as int]@));
        }
        if i > 0 {
            extend_chars(&mut out, sp.as_slice());
        }
        let pc = chars_of(parts[i].as_str());
        extend_chars(&mut out, pc.as_slice());
    }
    assert(strs(parts@).take(n as int) =~= strs(parts@));
    string_of(out.as_slice())
}

// ───────────────────────────── output files ────────────────────────────────

/// The file stem of a path as `std::path::Path::file_stem` computes it: the
/// last component without its extension.
pub uninterp spec fn path_stem(path: Seq<char>) -> Option<Seq<char>>;

/// `std::path::Path::file_stem`, read back as text. Trusted: the result is
/// `path_stem` of the path; how std splits a path is not restated here.
#[verifier::external_body]
fn stem_of(path: &str) -> (r: Option<String>)
    ensures
        opt_view(r) == path_stem(path@),
{
    std::path::Path::new(path).file_stem().and_then(|e| e.to_str()).map(|e| e.to_string())
}

/// The name of a translated file: the input's stem (or `fallback` when it
/// has none), `_translated.`, and the output extension.
pub open spec fn translated_name(filename: Seq<char>, fallback: Seq<char>, ext: Seq<char>) -> Seq<char> {
    (match path_stem(filename) {
        Some(s) => s,
        None => fallback,
    }) + "_translated."@ + ext
}

/// Names the translated version of `filename` (see `translated_name`).
pub fn translated_filename(filename: &str, fallback: &str, ext: &str) -> (r: String)
    ensures
        r@ == translated_name(filename@, fallback@, ext@),
{
    let mut out: Vec<char> = Vec::new();
    match stem_of(filename) {
        Some(s) => push_str(&mut out, s.as_str()),
        None => push_str(&mut out, fallback),
    }
    push_str(&mut out, "_translated.");
    push_str(&mut out, ext);
    string_of(out.as_slice())
}

/// Standard base64 (RFC 4648 alphabet, with padding) of `bytes`.
pub uninterp spec fn base64_of(bytes: Seq<u8>) -> Seq<char>;

/// `base64::engine::general_purpose::STANDARD.encode`. Trusted: the result
/// is `base64_of` the input; the encoding is not restated here. The input
/// is bounded so that the encoded length fits in `usize` (the crate panics
/// otherwise).
#[verifier::external_body]
pub(crate) fn base64_encode(bytes: &[u8]) -> (r: String)
    requires
        bytes@.len() <= usize::MAX / 2,
    ensures
        r@ == base64_of(bytes@),
{
    base64::Engine::encode(&base64::engine::general_purpose::STANDARD, bytes)
}

/// Largest accepted document upload, in bytes.
pub const MAX_DOC_BYTES: usize = 52428800;

/// Extensions of the documents that can be translated.
pub open spec fn document_ext(e: Seq<char>) -> bool {
    e == "pdf"@ || e == "odt"@ || e == "docx"@
}

/// Checks the (lowercased) extension of an uploaded document: PDF, ODT or
/// DOCX, otherwise HTTP 400 naming the extension.
pub fn check_document_ext(ext: &str) -> (r: Result<(), ApiError>)
    ensures
        r is Ok <==> document_ext(ext@),
        r matches Err(e) ==> err_view(e) == (400u16, "Unsupported file type: ."@ + ext@),
{
    if str_eq(ext, "pdf") || str_eq(ext, "odt") || str_eq(ext, "docx") {
        Ok(())
    } else {
        let mut out: Vec<char> = Vec::new();
        push_str(&mut out, "Unsupported file type: .");
        push_str(&mut out, ext);
        Err(ApiError { status: 400, error: string_of(out.as_slice()) })
    }
}

/// The output format of a document: the requested one when it names a
/// format, the default for the input extension otherwise.
pub open spec fn chosen_format(requested: Option<Seq<char>>, ext: Seq<char>) -> OutputFormat {
    match requested {
        Some(f) => match format_named(f) {
            Some(fmt) => fmt,
            None => if lowercase(ext) == pdf_chars() {
                OutputFormat::Pdf
            } else {
                OutputFormat::Odt
            },
        },
        None => if lowercase(ext) == pdf_chars() {
            OutputFormat::Pdf
        } else {
            OutputFormat::Odt
        },
    }
}

/// Chooses the output format of a document (see `chosen_format`).
pub fn output_format_for(requested: Option<&str>, ext: &str) -> (r: OutputFormat)
    ensures
        r == chosen_format(
            match requested {
                Some(f) => Some(f@),
                None => None,
            },
            ext@,
        ),
{
    match requested {
        Some(f) => match OutputFormat::from_str(f) {
            Some(fmt) => fmt,
            None => OutputFormat::default_for(ext),
        },
        None => OutputFormat::default_for(ext),
    }
}

/// A translated file as returned to the client.
pub struct DocumentFile {
    pub filename: String,
    pub data: String,
    pub mime: String,
}

/// The translated file for `filename`: named after its stem (or
/// `document`), its bytes in base64, and the format's MIME type.
pub fn document_file(filename: &str, fmt: OutputFormat, bytes: &[u8]) -> (r: DocumentFile)
    requires
        bytes@.len() <= usize::MAX / 2,
    ensures
        r.filename@ == translated_name(filename@, "document"@, fmt.ext_view()),
        r.data@ == base64_of(bytes@),
        r.mime@ == fmt.mime_view(),
{
    let name = translated_filename(filename, "document", fmt.ext());
    let data = base64_encode(bytes);
    let mime = string_of(chars_of(fmt.mime()).as_slice());
    DocumentFile { filename: name, data, mime }
}

// ───────────────────────────── web assets ──────────────────────────────────

/// The embedded asset a request path names: leading slashes and one
/// `static/` prefix removed; the empty path and `index.html` name the page.
pub open spec fn asset_path(path: Seq<char>) -> Seq<char> {
    let p1 = path.skip(lead_c(path, '/', 0));
    let p2 = if starts_with(p1, "static/"@) {
        p1.skip(7)
    } else {
        p1
    };
    if p2.len() == 0 || p2 == "index.html"@ {
        "index.html"@
    } else {
        p2
    }
}

/// The embedded asset for a request path (see `asset_path`).
pub fn static_asset_path(path: &str) -> (r: String)
    ensures
        r@ == asset_path(path@),
{
    let v = chars_of(path);
    let mut i: usize = 0;
    while i < v.len() && v[i] == '/'
        invariant
            i <= v@.len(),
            lead_c(v@, '/', i as int) == lead_c(v@, '/', 0),
        decreases v@.len() - i,
    {
        i = i + 1;
    }
    let vl = v.len();
    let p1 = copy_range(v.as_slice(), i, vl);
    let prefix = chars_of("static/");
    proof {
        reveal_strlit("static/");
    }
    let p2 = if starts_with_chars(p1.as_slice(), prefix.as_slice()) {
        let n = p1.len();
        copy_range(p1.as_slice(), 7, n)
    } else {
        p1
    };
    let index = chars_of("index.html");
    if p2.len() == 0 || chars_eq(p2.as_slice(), index.as_slice()) {
        index_html()
    } else {
        string_of(p2.as_slice())
    }
}

fn index_html() -> (r: String)
    ensures
        r@ == "index.html"@,
{
    string_of(chars_of("index.html").as_slice())
}

} // verus!

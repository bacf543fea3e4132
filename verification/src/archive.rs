//! ODT and DOCX files as ZIP archives: reading the document XML out of
//! them, writing a new ODT, and repacking an ODT with a new `content.xml`.
//!
//! The archive format itself is the `zip` crate's: what it reads from bytes
//! and what bytes it writes for a list of entries are named below, not
//! restated.
use vstd::prelude::*;
use vstd::utf8::{decode_utf8, encode_scalar, encode_utf8, valid_utf8};
use std::io::Cursor;
use zip::result::ZipError;
use zip::{ZipArchive, ZipWriter};
use crate::office::{
    all_empty, docx_paragraph_texts, docx_texts, nonblank_texts, odt_content, odt_content_xml,
    odt_paragraph_texts, odt_paras, odt_texts, split_text_paragraphs, text_paragraphs,
    translate_content_xml, translated_content,
};
use crate::text::{chars_of, string_of, strs};

verus! {

broadcast use vstd::string::group_string_axioms;

#[verifier::external_type_specification]
#[verifier::external_body]
#[verifier::reject_recursive_types(T)]
pub struct ExCursor<T>(Cursor<T>);

#[verifier::external_type_specification]
#[verifier::external_body]
#[verifier::reject_recursive_types(R)]
pub struct ExZipArchive<R>(ZipArchive<R>);

/// An archive being written, in memory. (The writer type of `zip` is held
/// in a private field: its declaration, which bounds its parameter by std's
/// I/O traits, is not accepted as an outside type.)
#[verifier::external_body]
pub struct ArchiveWriter {
    inner: ZipWriter<Cursor<Vec<u8>>>,
}

#[verifier::external_type_specification]
#[verifier::external_body]
pub struct ExZipError(ZipError);

/// The entries, in order, that `zip::ZipArchive` finds in `bytes`.
pub uninterp spec fn unzipped(bytes: Seq<u8>) -> Seq<(Seq<char>, Seq<u8>)>;

/// The entries of an open archive, in index order.
pub uninterp spec fn archive_entries(a: ZipArchive<Cursor<Vec<u8>>>) -> Seq<(Seq<char>, Seq<u8>)>;

/// The entries started and written so far on a writer.
pub uninterp spec fn written(w: ArchiveWriter) -> Seq<(Seq<char>, bool, Seq<u8>)>;

/// Whether `zip::ZipArchive::new` accepts `bytes` as an archive.
pub uninterp spec fn zip_readable(bytes: Seq<u8>) -> bool;

/// The bytes an open archive reads its entries from.
pub uninterp spec fn archive_data(a: ZipArchive<Cursor<Vec<u8>>>) -> Seq<u8>;

/// Whether the entry named `name` of the archive `bytes` reads to its end
/// without error.
pub uninterp spec fn entry_reads(bytes: Seq<u8>, name: Seq<char>) -> bool;

/// Whether the entry at index `i` of the archive `bytes` reads to its end
/// without error.
pub uninterp spec fn index_reads(bytes: Seq<u8>, i: int) -> bool;

/// Whether a file has been started on the writer and is open for data.
pub uninterp spec fn writing(w: ArchiveWriter) -> bool;

/// The bytes of the archive `zip::ZipWriter` produces for these entries,
/// with default options otherwise.
pub uninterp spec fn zip_bytes(entries: Seq<(Seq<char>, bool, Seq<u8>)>) -> Seq<u8>;

/// How an entry is stored.
#[derive(Clone, Copy, PartialEq, Eq, Structural, Debug)]
pub enum Compression {
    Stored,
    Deflated,
}

/// No two entries share a name.
pub open spec fn distinct_names(es: Seq<(Seq<char>, Seq<u8>)>) -> bool {
    forall|i: int, j: int| 0 <= i < j < es.len() ==> (#[trigger] es[i]).0 != (#[trigger] es[j]).0
}

/// `zip::ZipArchive::new` over the bytes. Trusted: it succeeds exactly on
/// the bytes it accepts (`zip_readable`, not restated); an opened archive
/// reads from those bytes and holds the entries the reader finds in them
/// (`unzipped`), one per name (the reader keys its entries by name).
#[verifier::external_body]
fn zip_open(bytes: &[u8]) -> (r: Result<ZipArchive<Cursor<Vec<u8>>>, ZipError>)
    ensures
        r is Ok <==> zip_readable(bytes@),
        r matches Ok(a) ==> archive_entries(a) == unzipped(bytes@) && archive_data(a) == bytes@,
        r matches Ok(a) ==> distinct_names(archive_entries(a)),
{
    ZipArchive::new(Cursor::new(bytes.to_vec()))
}

/// `zip::ZipArchive::len`. Trusted: the number of entries.
#[verifier::external_body]
fn zip_len(a: &ZipArchive<Cursor<Vec<u8>>>) -> (r: usize)
    ensures
        r == archive_entries(*a).len(),
{
    a.len()
}

/// Whether some entry has this name.
pub open spec fn has_entry(es: Seq<(Seq<char>, Seq<u8>)>, name: Seq<char>) -> bool {
    exists|i: int| 0 <= i < es.len() && (#[trigger] es[i]).0 == name
}

/// `zip::ZipArchive::by_name`, read to the end. Trusted: reading leaves the
/// entries and the bytes as they were; it succeeds exactly when the entry
/// reads (`entry_reads`; which damaged data fails is not restated); a
/// missing name is an error (`FileNotFound`); what is read is the contents
/// of the entry of that name.
#[verifier::external_body]
fn zip_read_by_name(a: &mut ZipArchive<Cursor<Vec<u8>>>, name: &str) -> (r: Result<Vec<u8>, ZipError>)
    ensures
        archive_entries(*final(a)) == archive_entries(*old(a)),
        archive_data(*final(a)) == archive_data(*old(a)),
        r is Ok <==> entry_reads(archive_data(*old(a)), name@),
        !has_entry(archive_entries(*old(a)), name@) ==> r is Err,
        r matches Ok(d) ==> archive_entries(*old(a)).contains((name@, d@)),
{
    let mut f = a.by_name(name)?;
    let mut buf = Vec::new();
    std::io::Read::read_to_end(&mut f, &mut buf).map_err(ZipError::Io)?;
    Ok(buf)
}

/// `zip::ZipArchive::by_index`, its name and contents read out. Trusted:
/// reading leaves the entries and the bytes as they were; it succeeds
/// exactly when that entry reads (`index_reads`, not restated); what is read
/// is the entry at that index.
#[verifier::external_body]
fn zip_read_index(a: &mut ZipArchive<Cursor<Vec<u8>>>, i: usize) -> (r: Result<(String, Vec<u8>), ZipError>)
    requires
        i < archive_entries(*old(a)).len(),
    ensures
        archive_entries(*final(a)) == archive_entries(*old(a)),
        archive_data(*final(a)) == archive_data(*old(a)),
        r is Ok <==> index_reads(archive_data(*old(a)), i as int),
        r matches Ok(e) ==> (e.0@, e.1@) == archive_entries(*old(a))[i as int],
{
    let mut f = a.by_index(i)?;
    let name = f.name().to_string();
    let mut buf = Vec::new();
    std::io::Read::read_to_end(&mut f, &mut buf).map_err(ZipError::Io)?;
    Ok((name, buf))
}

/// The largest entry, in bytes, that the archives here hold (2 GiB): below
/// it neither an entry nor its compressed form needs ZIP64 sizes.
pub open spec fn entry_limit() -> int {
    0x8000_0000
}

/// Whether some entry has this name.
pub open spec fn has_written(es: Seq<(Seq<char>, bool, Seq<u8>)>, name: Seq<char>) -> bool {
    exists|i: int| 0 <= i < es.len() && (#[trigger] es[i]).0 == name
}

/// Every entry is below `entry_limit`.
pub open spec fn entries_small(es: Seq<(Seq<char>, bool, Seq<u8>)>) -> bool {
    forall|i: int| 0 <= i < es.len() ==> (#[trigger] es[i]).2.len() < entry_limit()
}

/// `zip::ZipWriter::new` over an empty buffer. Trusted: nothing is written yet.
#[verifier::external_body]
fn zip_writer() -> (r: ArchiveWriter)
    ensures
        written(r) == Seq::<(Seq<char>, bool, Seq<u8>)>::empty(),
        !writing(r),
{
    ArchiveWriter { inner: ZipWriter::new(Cursor::new(Vec::new())) }
}

/// `zip::ZipWriter::start_file` with default options and the given
/// compression. Trusted: on success a new, empty entry of that name follows
/// the earlier ones and is open for data; a name not yet written succeeds
/// while the entries written so far are below `entry_limit` (the writer
/// refuses only a duplicate name, entries too large without ZIP64, and
/// errors of the in-memory buffer, which has none). A name of 64 KiB or more
/// makes it panic, so it is left out.
#[verifier::external_body]
fn zip_start_file(w: &mut ArchiveWriter, name: &str, method: Compression) -> (r: Result<
    (),
    ZipError,
>)
    requires
        encode_utf8(name@).len() < 0x10000,
    ensures
        r is Ok ==> written(*final(w)) == written(*old(w)).push((name@, method == Compression::Stored, Seq::empty())),
        r is Ok ==> writing(*final(w)),
        !has_written(written(*old(w)), name@) && entries_small(written(*old(w))) ==> r is Ok,
{
    let m = match method {
        Compression::Stored => zip::CompressionMethod::Stored,
        Compression::Deflated => zip::CompressionMethod::Deflated,
    };
    w.inner.start_file(name, zip::write::SimpleFileOptions::default().compression_method(m))
}

/// The entries with `data` appended to the last one.
pub open spec fn append_last(es: Seq<(Seq<char>, bool, Seq<u8>)>, data: Seq<u8>) -> Seq<(Seq<char>, bool, Seq<u8>)> {
    es.update(es.len() - 1, (es.last().0, es.last().1, es.last().2 + data))
}

/// `Write::write_all` on a `zip::ZipWriter`; `true` when it succeeded.
/// Trusted: writing to an open file appends `data` to it, and succeeds while
/// that file stays below `entry_limit` (the writer refuses data only when no
/// file is open or a file grows past 4 GiB without ZIP64).
#[verifier::external_body]
fn zip_write(w: &mut ArchiveWriter, data: &[u8]) -> (r: bool)
    ensures
        r && writing(*old(w)) ==> written(*old(w)).len() > 0 && written(*final(w)) == append_last(
            written(*old(w)),
            data@,
        ) && writing(*final(w)),
        writing(*old(w)) && written(*old(w)).len() > 0 && written(*old(w)).last().2.len() + data@.len()
            < entry_limit() ==> r,
{
    std::io::Write::write_all(&mut w.inner, data).is_ok()
}

/// The names and contents of entries, in order.
pub open spec fn stored_entries(es: Seq<(Seq<char>, bool, Seq<u8>)>) -> Seq<(Seq<char>, Seq<u8>)> {
    es.map_values(|e: (Seq<char>, bool, Seq<u8>)| (e.0, e.2))
}

/// `zip::ZipWriter::finish`, the buffer taken out. Trusted: the bytes are
/// those of the archive for the written entries (`zip_bytes`), and reading
/// them with `zip::ZipArchive` gives back those entries' names and contents,
/// in the order they were written; with entries below `entry_limit` it
/// succeeds (writing the directory to the in-memory buffer cannot fail).
#[verifier::external_body]
fn zip_finish(w: ArchiveWriter) -> (r: Result<Vec<u8>, ZipError>)
    ensures
        r matches Ok(b) ==> b@ == zip_bytes(written(w)),
        r matches Ok(b) ==> unzipped(b@) == stored_entries(written(w)),
        entries_small(written(w)) ==> r is Ok,
{
    w.inner.finish().map(|c| c.into_inner())
}

/// `String::from_utf8`, as an option. Trusted: it succeeds exactly on valid
/// UTF-8, and then holds the decoded characters.
#[verifier::external_body]
pub(crate) fn utf8_string(bytes: Vec<u8>) -> (r: Option<String>)
    ensures
        r is Some <==> valid_utf8(bytes@),
        r matches Some(s) ==> s@ == decode_utf8(bytes@),
{
    String::from_utf8(bytes).ok()
}

/// Why reading or writing a document archive failed.
pub enum DocError {
    /// The bytes are not a readable ZIP archive.
    Open(ZipError),
    /// The named entry is missing or could not be read.
    Entry(String, ZipError),
    /// The named entry is not valid UTF-8.
    NotUtf8(String),
    /// Writing the new archive failed.
    Write(Option<ZipError>),
}

/// The XML entry of an ODT file.
pub open spec fn odt_main() -> Seq<char> {
    "content.xml"@
}

/// The XML entry of a DOCX file.
pub open spec fn docx_main() -> Seq<char> {
    "word/document.xml"@
}

/// Some entry of `bytes` named `name` holds valid UTF-8 that decodes to `xml`.
pub open spec fn entry_text(bytes: Seq<u8>, name: Seq<char>, xml: Seq<char>) -> bool {
    exists|d: Seq<u8>|
        #![trigger unzipped(bytes).contains((name, d))]
        unzipped(bytes).contains((name, d)) && valid_utf8(d) && decode_utf8(d) == xml
}

/// Some entry of `bytes` named `name` holds valid UTF-8.
pub open spec fn entry_utf8(bytes: Seq<u8>, name: Seq<char>) -> bool {
    exists|d: Seq<u8>|
        #![trigger unzipped(bytes).contains((name, d))]
        unzipped(bytes).contains((name, d)) && valid_utf8(d)
}

/// The archive opens, and its entry `name` reads without error and holds
/// UTF-8 text.
pub open spec fn text_entry_ok(bytes: Seq<u8>, name: Seq<char>) -> bool {
    &&& zip_readable(bytes)
    &&& entry_reads(bytes, name)
    &&& entry_utf8(bytes, name)
}

/// Reads an entry of an archive as UTF-8 text.
fn read_text_entry(bytes: &[u8], name: &str) -> (r: Result<String, DocError>)
    ensures
        r is Ok <==> text_entry_ok(bytes@, name@),
        r matches Ok(xml) ==> entry_text(bytes@, name@, xml@),
        !has_entry(unzipped(bytes@), name@) ==> r is Err,
{
    let mut a = match zip_open(bytes) {
        Ok(a) => a,
        Err(e) => return Err(DocError::Open(e)),
    };
    let ghost es = archive_entries(a);
    let data = match zip_read_by_name(&mut a, name) {
        Ok(d) => d,
        Err(e) => return Err(DocError::Entry(string_of(chars_of(name).as_slice()), e)),
    };
    let ghost d = data@;
    match utf8_string(data) {
        Some(s) => {
            assert(unzipped(bytes@).contains((name@, d)));
            Ok(s)
        },
        None => {
            proof {
                assert(es.contains((name@, d)));
                assert forall|d2: Seq<u8>| #[trigger] es.contains((name@, d2)) implies d2 == d by {
                    let i = choose|i: int| 0 <= i < es.len() && es[i] == (name@, d);
                    let j = choose|j: int| 0 <= j < es.len() && es[j] == (name@, d2);
                    if i < j {
                        assert(es[i].0 != es[j].0);
                    } else if j < i {
                        assert(es[j].0 != es[i].0);
                    }
                }
            }
            Err(DocError::NotUtf8(string_of(chars_of(name).as_slice())))
        },
    }
}

/// The `content.xml` of an ODT file, as text.
pub fn odt_content_of(bytes: &[u8]) -> (r: Result<String, DocError>)
    ensures
        r is Ok <==> text_entry_ok(bytes@, odt_main()),
        r matches Ok(xml) ==> entry_text(bytes@, odt_main(), xml@),
        !has_entry(unzipped(bytes@), odt_main()) ==> r is Err,
{
    read_text_entry(bytes, "content.xml")
}

/// Extracts the text of every paragraph and heading of an ODT file, empty
/// ones included to keep the layout.
pub fn extract_odt_paragraphs(bytes: &[u8]) -> (r: Result<Vec<String>, DocError>)
    ensures
        r is Ok <==> text_entry_ok(bytes@, odt_main()),
        r matches Ok(ts) ==> exists|xml: Seq<char>|
            #![trigger odt_texts(xml)]
            entry_text(bytes@, odt_main(), xml) && strs(ts@) == odt_texts(xml),
        !has_entry(unzipped(bytes@), odt_main()) ==> r is Err,
{
    let xml = odt_content_of(bytes)?;
    let ts = odt_paragraph_texts(xml.as_str());
    assert(entry_text(bytes@, odt_main(), xml@) && strs(ts@) == odt_texts(xml@));
    Ok(ts)
}

/// Extracts the text of every DOCX paragraph that holds more than
/// whitespace.
pub fn extract_docx_paragraphs(bytes: &[u8]) -> (r: Result<Vec<String>, DocError>)
    ensures
        r is Ok <==> text_entry_ok(bytes@, docx_main()),
        r matches Ok(ts) ==> exists|xml: Seq<char>|
            #![trigger docx_texts(xml)]
            entry_text(bytes@, docx_main(), xml) && strs(ts@) == nonblank_texts(docx_texts(xml)),
        !has_entry(unzipped(bytes@), docx_main()) ==> r is Err,
{
    let xml = read_text_entry(bytes, "word/document.xml")?;
    let ts = docx_paragraph_texts(xml.as_str());
    assert(entry_text(bytes@, docx_main(), xml@) && strs(ts@) == nonblank_texts(docx_texts(xml@)));
    Ok(ts)
}

/// The media type of an ODT text document.
pub open spec fn odt_mimetype() -> Seq<char> {
    "application/vnd.oasis.opendocument.text"@
}

/// The manifest of a built ODT.
pub open spec fn odt_manifest() -> Seq<char> {
    "<?xml version=\"1.0\" encoding=\"UTF-8\"?>
<manifest:manifest xmlns:manifest=\"urn:oasis:names:tc:opendocument:xmlns:manifest:1.0\" manifest:version=\"1.3\">
  <manifest:file-entry manifest:full-path=\"/\" manifest:media-type=\"application/vnd.oasis.opendocument.text\"/>
  <manifest:file-entry manifest:full-path=\"mimetype\" manifest:media-type=\"text/plain\"/>
  <manifest:file-entry manifest:full-path=\"META-INF/manifest.xml\" manifest:media-type=\"text/xml\"/>
  <manifest:file-entry manifest:full-path=\"content.xml\" manifest:media-type=\"text/xml\"/>
</manifest:manifest>"@
}

/// The entries of an ODT built from paragraphs: the uncompressed media
/// type first, then the manifest and the content.
pub open spec fn built_odt_entries(ps: Seq<Seq<char>>) -> Seq<(Seq<char>, bool, Seq<u8>)> {
    seq![
        ("mimetype"@, true, encode_utf8(odt_mimetype())),
        ("META-INF/manifest.xml"@, false, encode_utf8(odt_manifest())),
        ("content.xml"@, false, encode_utf8(odt_content(ps))),
    ]
}

/// A text of `n` characters takes at most `4 * n` bytes in UTF-8.
proof fn lemma_encode_len(s: Seq<char>)
    ensures
        encode_utf8(s).len() <= 4 * s.len(),
    decreases s.len(),
{
    if s.len() > 0 {
        lemma_encode_len(s.drop_first());
    }
}

/// The UTF-8 encoding of a text is `bytes` long.
proof fn lemma_encode_bytes(s: Seq<char>)
    ensures
        encode_utf8(s).len() == crate::text::bytes(s),
    decreases s.len(),
{
    if s.len() > 0 {
        lemma_encode_bytes(s.drop_first());
        let c = s[0];
        vstd::utf8::char_is_scalar(c);
        crate::text::lemma_bytes_concat(seq![c], s.drop_first());
        assert(seq![c] + s.drop_first() =~= s);
        assert(seq![c].drop_last() =~= Seq::<char>::empty());
        assert(seq![c].last() == c);
        assert(crate::text::bytes(Seq::<char>::empty()) == 0);
        assert(crate::text::bytes(seq![c]) == crate::text::utf8_len(c));
        assert(encode_scalar(c as u32).len() == crate::text::utf8_len(c));
    }
}

fn add_entry(w: &mut ArchiveWriter, name: &str, method: Compression, data: &str) -> (r: Result<
    (),
    DocError,
>)
    requires
        encode_utf8(name@).len() < 0x10000,
    ensures
        !has_written(written(*old(w)), name@) && entries_small(written(*old(w))) && encode_utf8(data@).len()
            < entry_limit() ==> r is Ok,
        r is Ok ==> written(*final(w)) == written(*old(w)).push(
            (name@, method == Compression::Stored, encode_utf8(data@)),
        ),
{
    match zip_start_file(w, name, method) {
        Ok(()) => {},
        Err(e) => return Err(DocError::Write(Some(e))),
    }
    let ghost started = written(*w);
    if zip_write(w, data.as_bytes()) {
        assert(append_last(started, encode_utf8(data@)) =~= written(*old(w)).push(
            (name@, method == Compression::Stored, encode_utf8(data@)),
        ));
        Ok(())
    } else {
        Err(DocError::Write(None))
    }
}

/// Creates a minimal ODT file whose body is the given paragraphs.
pub fn build_odt_from_paragraphs(paragraphs: &[String]) -> (r: Result<Vec<u8>, DocError>)
    ensures
        encode_utf8(odt_content(strs(paragraphs@))).len() < entry_limit() ==> r is Ok,
        r matches Ok(b) ==> b@ == zip_bytes(built_odt_entries(strs(paragraphs@))),
        r matches Ok(b) ==> unzipped(b@) == stored_entries(built_odt_entries(strs(paragraphs@))),
{
    proof {
        reveal_strlit("mimetype");
        reveal_strlit("META-INF/manifest.xml");
        reveal_strlit("content.xml");
        reveal_strlit("application/vnd.oasis.opendocument.text");
        reveal_strlit("<?xml version=\"1.0\" encoding=\"UTF-8\"?>
<manifest:manifest xmlns:manifest=\"urn:oasis:names:tc:opendocument:xmlns:manifest:1.0\" manifest:version=\"1.3\">
  <manifest:file-entry manifest:full-path=\"/\" manifest:media-type=\"application/vnd.oasis.opendocument.text\"/>
  <manifest:file-entry manifest:full-path=\"mimetype\" manifest:media-type=\"text/plain\"/>
  <manifest:file-entry manifest:full-path=\"META-INF/manifest.xml\" manifest:media-type=\"text/xml\"/>
  <manifest:file-entry manifest:full-path=\"content.xml\" manifest:media-type=\"text/xml\"/>
</manifest:manifest>");
        lemma_encode_len("mimetype"@);
        lemma_encode_len("META-INF/manifest.xml"@);
        lemma_encode_len("content.xml"@);
        lemma_encode_len(odt_mimetype());
        lemma_encode_len(odt_manifest());
    }
    let mut w = zip_writer();
    add_entry(&mut w, "mimetype", Compression::Stored, "application/vnd.oasis.opendocument.text")?;
    let ghost w1 = written(w);
    assert(w1[0].0 != "META-INF/manifest.xml"@);
    assert(w1[0].0 != "content.xml"@);
    add_entry(
        &mut w,
        "META-INF/manifest.xml",
        Compression::Deflated,
        "<?xml version=\"1.0\" encoding=\"UTF-8\"?>
<manifest:manifest xmlns:manifest=\"urn:oasis:names:tc:opendocument:xmlns:manifest:1.0\" manifest:version=\"1.3\">
  <manifest:file-entry manifest:full-path=\"/\" manifest:media-type=\"application/vnd.oasis.opendocument.text\"/>
  <manifest:file-entry manifest:full-path=\"mimetype\" manifest:media-type=\"text/plain\"/>
  <manifest:file-entry manifest:full-path=\"META-INF/manifest.xml\" manifest:media-type=\"text/xml\"/>
  <manifest:file-entry manifest:full-path=\"content.xml\" manifest:media-type=\"text/xml\"/>
</manifest:manifest>",
    )?;
    let ghost w2 = written(w);
    assert(w2[0].0 != "content.xml"@ && w2[1].0 != "content.xml"@);
    let content = odt_content_xml(paragraphs);
    add_entry(&mut w, "content.xml", Compression::Deflated, content.as_str())?;
    assert(written(w) =~= built_odt_entries(strs(paragraphs@)));
    match zip_finish(w) {
        Ok(b) => Ok(b),
        Err(e) => Err(DocError::Write(Some(e))),
    }
}

/// Creates a minimal ODT file from plain text, one paragraph per blank-line
/// separated block (or per line when the text has no blank line).
pub fn build_odt_from_text(text: &str) -> (r: Result<Vec<u8>, DocError>)
    ensures
        encode_utf8(odt_content(text_paragraphs(text@))).len() < entry_limit() ==> r is Ok,
        r matches Ok(b) ==> b@ == zip_bytes(built_odt_entries(text_paragraphs(text@))),
        r matches Ok(b) ==> unzipped(b@) == stored_entries(built_odt_entries(text_paragraphs(text@))),
{
    let ps = split_text_paragraphs(text);
    build_odt_from_paragraphs(ps.as_slice())
}

/// The entries of an archive rewritten with every entry compressed and the
/// contents of the entries named `name` replaced by `data`.
pub open spec fn repacked_entries(es: Seq<(Seq<char>, Seq<u8>)>, name: Seq<char>, data: Seq<u8>) -> Seq<
    (Seq<char>, bool, Seq<u8>),
> {
    es.map_values(
        |e: (Seq<char>, Seq<u8>)|
            (
                e.0,
                false,
                if e.0 == name {
                    data
                } else {
                    e.1
                },
            ),
    )
}

/// When rewriting an archive is owed to succeed: it opens and every entry
/// reads, every name is under 64 KiB in UTF-8, and every entry, the new
/// contents included, is below `entry_limit`.
pub open spec fn repack_owed(original: Seq<u8>, name: Seq<char>, data: Seq<u8>) -> bool {
    let es = unzipped(original);
    &&& zip_readable(original)
    &&& forall|i: int| 0 <= i < es.len() ==> #[trigger] index_reads(original, i)
    &&& forall|i: int|
        0 <= i < es.len() ==> encode_utf8((#[trigger] es[i]).0).len() < 0x10000 && es[i].1.len()
            < entry_limit()
    &&& data.len() < entry_limit()
}

/// Rewrites an archive with the contents of the entry `replace_name`
/// replaced by `new_content`; every other entry keeps its contents. A name
/// of 64 KiB or more, which the writer cannot store, is refused as a write
/// error.
pub fn repack_zip(original: &[u8], replace_name: &str, new_content: &[u8]) -> (r: Result<Vec<u8>, DocError>)
    ensures
        repack_owed(original@, replace_name@, new_content@) ==> r is Ok,
        r matches Ok(b) ==> b@ == zip_bytes(repacked_entries(unzipped(original@), replace_name@, new_content@)),
        r matches Ok(b) ==> unzipped(b@) == stored_entries(
            repacked_entries(unzipped(original@), replace_name@, new_content@),
        ),
{
    let mut a = match zip_open(original) {
        Ok(a) => a,
        Err(e) => return Err(DocError::Open(e)),
    };
    let ghost es = archive_entries(a);
    assert(distinct_names(es));
    let n = zip_len(&a);
    let mut entries: Vec<(String, Vec<u8>)> = Vec::new();
    for i in 0..n
        invariant
            n == es.len(),
            es == unzipped(original@),
            archive_entries(a) == es,
            archive_data(a) == original@,
            entries@.len() == i,
            forall|j: int| 0 <= j < i ==> ((#[trigger] entries@[j]).0@, entries@[j].1@) == es[j],
    {
        match zip_read_index(&mut a, i) {
            Ok(e) => entries.push(e),
            Err(e) => return Err(DocError::Open(e)),
        }
    }
    let ghost want = repacked_entries(es, replace_name@, new_content@);
    let mut w = zip_writer();
    let rn = chars_of(replace_name);
    for i in 0..n
        invariant
            n == es.len() == entries@.len(),
            es == unzipped(original@),
            distinct_names(es),
            want == repacked_entries(es, replace_name@, new_content@),
            rn@ == replace_name@,
            forall|j: int| 0 <= j < n ==> ((#[trigger] entries@[j]).0@, entries@[j].1@) == es[j],
            written(w) == want.take(i as int),
            repack_owed(original@, replace_name@, new_content@) ==> entries_small(want.take(i as int)),
    {
        let name = &entries[i].0;
        let nv = chars_of(name.as_str());
        let nb = crate::text::bytes_range(nv.as_slice(), 0, nv.len());
        proof {
            assert(nv@.subrange(0, nv@.len() as int) =~= nv@);
            lemma_encode_bytes(nv@);
            assert(es[i as int].0 == name@);
        }
        if nb >= 0x10000 {
            return Err(DocError::Write(None));
        }
        proof {
            assert forall|j: int| 0 <= j < want.take(i as int).len() implies (#[trigger] want.take(
                i as int,
            )[j]).0 != name@ by {
                assert(want.take(i as int)[j].0 == es[j].0);
                assert(es[j].0 != es[i as int].0);
            }
        }
        match zip_start_file(&mut w, name.as_str(), Compression::Deflated) {
            Ok(()) => {},
            Err(e) => return Err(DocError::Write(Some(e))),
        }
        let ghost started = written(w);
        let same = crate::text::chars_eq(nv.as_slice(), rn.as_slice());
        let data: &[u8] = if same {
            new_content
        } else {
            entries[i].1.as_slice()
        };
        assert(started.last().2.len() == 0);
        if !zip_write(&mut w, data) {
            return Err(DocError::Write(None));
        }
        assert(want[i as int] == (es[i as int].0, false, data@));
        assert(written(w) =~= want.take(i + 1));
        assert(repack_owed(original@, replace_name@, new_content@) ==> entries_small(want.take(i + 1))) by {
            if repack_owed(original@, replace_name@, new_content@) {
                assert forall|j: int| 0 <= j < want.take(i + 1).len() implies (#[trigger] want.take(
                    i + 1,
                )[j]).2.len() < entry_limit() by {
                    if j < i {
                        assert(want.take(i + 1)[j] == want.take(i as int)[j]);
                    }
                }
            }
        }
    }
    assert(want.take(n as int) =~= want);
    match zip_finish(w) {
        Ok(b) => Ok(b),
        Err(e) => Err(DocError::Write(Some(e))),
    }
}

/// An ODT file with its paragraphs translated: `xml` is its `content.xml`
/// and `translations` holds one translation per paragraph (empty for the
/// paragraphs left as they were). With no translation at all the content is
/// written back unchanged.
pub fn odt_with_translations(bytes: &[u8], xml: &str, translations: &Vec<String>) -> (r: Result<
    Vec<u8>,
    DocError,
>)
    requires
        translations@.len() == odt_paras(xml@).len(),
    ensures
        repack_owed(
            bytes@,
            odt_main(),
            encode_utf8(
                if all_empty(strs(translations@)) {
                    xml@
                } else {
                    translated_content(xml@, strs(translations@))
                },
            ),
        ) ==> r is Ok,
        r matches Ok(b) ==> b@ == zip_bytes(
            repacked_entries(
                unzipped(bytes@),
                odt_main(),
                encode_utf8(
                    if all_empty(strs(translations@)) {
                        xml@
                    } else {
                        translated_content(xml@, strs(translations@))
                    },
                ),
            ),
        ),
        r matches Ok(b) ==> unzipped(b@) == stored_entries(
            repacked_entries(
                unzipped(bytes@),
                odt_main(),
                encode_utf8(
                    if all_empty(strs(translations@)) {
                        xml@
                    } else {
                        translated_content(xml@, strs(translations@))
                    },
                ),
            ),
        ),
{
    let mut any = false;
    let mut k: usize = 0;
    while k < translations.len()
        invariant
            k <= translations@.len(),
            any == exists|j: int| 0 <= j < k && (#[trigger] strs(translations@)[j]).len() > 0,
        decreases translations@.len() - k,
    {
        let tv = chars_of(translations[k].as_str());
        if tv.len() > 0 {
            assert(strs(translations@)[k as int].len() > 0);
            any = true;
        }
        k = k + 1;
    }
    if any {
        let new_xml = translate_content_xml(xml, translations);
        repack_zip(bytes, "content.xml", new_xml.as_str().as_bytes())
    } else {
        repack_zip(bytes, "content.xml", xml.as_bytes())
    }
}

// ───────────────────────────── reading back what was written ─────────────

/// After repacking, every entry of the replaced name holds the new contents,
/// and every other entry is still there with its old contents.
pub proof fn lemma_repacked_entries_read_back(
    original: Seq<u8>,
    repacked: Seq<u8>,
    name: Seq<char>,
    data: Seq<u8>,
)
    requires
        unzipped(repacked) == stored_entries(repacked_entries(unzipped(original), name, data)),
    ensures
        has_entry(unzipped(original), name) ==> has_entry(unzipped(repacked), name),
        forall|d: Seq<u8>| unzipped(repacked).contains((name, d)) ==> d == data,
        forall|n: Seq<char>, d: Seq<u8>|
            n != name && unzipped(original).contains((n, d)) ==> unzipped(repacked).contains((n, d)),
{
    let es = unzipped(original);
    let rs = unzipped(repacked);
    assert(rs.len() == es.len());
    assert forall|k: int| 0 <= k < rs.len() implies (#[trigger] rs[k]) == (
        es[k].0,
        if es[k].0 == name {
            data
        } else {
            es[k].1
        },
    ) by {
        assert(repacked_entries(es, name, data)[k] == (
            es[k].0,
            false,
            if es[k].0 == name {
                data
            } else {
                es[k].1
            },
        ));
    }
    if has_entry(es, name) {
        let i = choose|i: int| 0 <= i < es.len() && (#[trigger] es[i]).0 == name;
        assert(rs[i].0 == name);
    }
    assert forall|d: Seq<u8>| rs.contains((name, d)) implies d == data by {
        let k = choose|k: int| 0 <= k < rs.len() && rs[k] == (name, d);
        assert(rs[k] == (name, d));
    }
    assert forall|n: Seq<char>, d: Seq<u8>| n != name && es.contains((n, d)) implies rs.contains((n, d)) by {
        let k = choose|k: int| 0 <= k < es.len() && es[k] == (n, d);
        assert(rs[k] == (n, d));
    }
}

/// The contents of an ODT built from paragraphs read back as those
/// paragraphs, when none holds an entity of its own (`&lt;`, `&gt;`,
/// `&quot;`, `&apos;`) or surrounding whitespace.
pub proof fn lemma_built_odt_reads_back(ps: Seq<Seq<char>>, bytes: Seq<u8>, xml: Seq<char>)
    requires
        forall|k: int| 0 <= k < ps.len() ==> crate::xml::entity_free(#[trigger] ps[k]) && crate::text::trim(ps[k]) == ps[k],
        unzipped(bytes) == stored_entries(built_odt_entries(ps)),
        entry_text(bytes, odt_main(), xml),
    ensures
        xml == odt_content(ps),
        odt_texts(xml) == ps,
{
    reveal_strlit("mimetype");
    reveal_strlit("META-INF/manifest.xml");
    reveal_strlit("content.xml");
    let es = unzipped(bytes);
    let d = choose|d: Seq<u8>|
        #![trigger unzipped(bytes).contains((odt_main(), d))]
        unzipped(bytes).contains((odt_main(), d)) && valid_utf8(d) && decode_utf8(d) == xml;
    let k = choose|k: int| 0 <= k < es.len() && es[k] == (odt_main(), d);
    assert(es.len() == 3);
    assert(es[0].0 == "mimetype"@);
    assert(es[1].0 == "META-INF/manifest.xml"@);
    assert(es[2] == ("content.xml"@, encode_utf8(odt_content(ps))));
    assert(k == 2);
    vstd::utf8::encode_utf8_decode_utf8(odt_content(ps));
    crate::office::lemma_document_roundtrip(ps);
}

} // verus!

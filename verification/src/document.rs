//! Document translation planning: output formats, conversion routes,
//! batching of paragraphs into translation requests and reassembly of the
//! translated paragraphs.
use vstd::prelude::*;
use crate::text::{
    all_ascii, ascii_lowered, chars_of, dv, extend_chars, join, join_chars, lowercase, split_chars, split_on, str_is,
    string_of, strs, to_lowercase, trim, trim_chars, trim_matches, trim_matches_chars,
};

verus! {

broadcast use vstd::string::group_string_axioms;

/// The output format of a translated document.
#[derive(Clone, Copy, PartialEq, Eq, Structural, Debug)]
pub enum OutputFormat {
    Pdf,
    Odt,
}

pub open spec fn pdf_chars() -> Seq<char> {
    seq!['p', 'd', 'f']
}

pub open spec fn odt_chars() -> Seq<char> {
    seq!['o', 'd', 't']
}

pub open spec fn docx_chars() -> Seq<char> {
    seq!['d', 'o', 'c', 'x']
}

/// The format named by `s` (compared after Unicode lowercasing).
pub open spec fn format_named(s: Seq<char>) -> Option<OutputFormat> {
    let l = lowercase(s);
    if l == pdf_chars() {
        Some(OutputFormat::Pdf)
    } else if l == odt_chars() {
        Some(OutputFormat::Odt)
    } else {
        None
    }
}

impl OutputFormat {
    /// Parse from a string ("pdf" or "odt", any case). Returns None if
    /// unrecognised.
    pub fn from_str(s: &str) -> (r: Option<Self>)
        ensures
            r == format_named(s@),
            forall|f: OutputFormat| s@ == f.ext_view() ==> r == Some(f),
            all_ascii(s@) ==> (r is Some <==> (ascii_lowered(s@) == pdf_chars() || ascii_lowered(s@) == odt_chars())),
    {
        let l = to_lowercase(s);
        let pdf: [char; 3] = ['p', 'd', 'f'];
        let odt: [char; 3] = ['o', 'd', 't'];
        assert(pdf@ =~= pdf_chars());
        assert(odt@ =~= odt_chars());
        proof {
            if s@ == pdf_chars() || s@ == odt_chars() {
                assert(all_ascii(s@));
                assert(ascii_lowered(s@) =~= s@);
            }
        }
        if str_is(l.as_str(), pdf.as_slice()) {
            Some(OutputFormat::Pdf)
        } else if str_is(l.as_str(), odt.as_slice()) {
            Some(OutputFormat::Odt)
        } else {
            None
        }
    }

    /// Default output format for a given input extension: PDF stays PDF,
    /// everything else (ODT, DOCX) becomes ODT.
    pub fn default_for(ext: &str) -> (r: Self)
        ensures
            r == if lowercase(ext@) == pdf_chars() {
                OutputFormat::Pdf
            } else {
                OutputFormat::Odt
            },
            all_ascii(ext@) ==> r == if ascii_lowered(ext@) == pdf_chars() {
                OutputFormat::Pdf
            } else {
                OutputFormat::Odt
            },
    {
        let l = to_lowercase(ext);
        let pdf: [char; 3] = ['p', 'd', 'f'];
        assert(pdf@ =~= pdf_chars());
        if str_is(l.as_str(), pdf.as_slice()) {
            OutputFormat::Pdf
        } else {
            OutputFormat::Odt
        }
    }

    /// The file extension of this format, as characters.
    pub open spec fn ext_view(&self) -> Seq<char> {
        match self {
            OutputFormat::Pdf => pdf_chars(),
            OutputFormat::Odt => odt_chars(),
        }
    }

    /// The MIME type of this format, as characters.
    pub open spec fn mime_view(&self) -> Seq<char> {
        match self {
            OutputFormat::Pdf => "application/pdf"@,
            OutputFormat::Odt => "application/vnd.oasis.opendocument.text"@,
        }
    }

    /// The file extension of this format.
    pub fn ext(&self) -> (r: &'static str)
        ensures
            r@ == match self {
                OutputFormat::Pdf => pdf_chars(),
                OutputFormat::Odt => odt_chars(),
            },
    {
        match self {
            OutputFormat::Pdf => {
                proof {
                    reveal_strlit("pdf");
                }
                assert("pdf"@ =~= pdf_chars());
                "pdf"
            },
            OutputFormat::Odt => {
                proof {
                    reveal_strlit("odt");
                }
                assert("odt"@ =~= odt_chars());
                "odt"
            },
        }
    }

    /// The MIME type of this format.
    pub fn mime(&self) -> (r: &'static str)
        ensures
            r@ == match self {
                OutputFormat::Pdf => "application/pdf"@,
                OutputFormat::Odt => "application/vnd.oasis.opendocument.text"@,
            },
    {
        match self {
            OutputFormat::Pdf => "application/pdf",
            OutputFormat::Odt => "application/vnd.oasis.opendocument.text",
        }
    }
}

/// How a document is converted from its input format to the output format.
#[derive(Clone, Copy, PartialEq, Eq, Structural, Debug)]
pub enum DocumentRoute {
    /// ODT in place: paragraphs are translated inside the original XML.
    OdtToOdt,
    /// PDF text extracted, translated and rendered again (lossy).
    PdfToPdf,
    /// DOCX paragraphs translated into a new ODT.
    DocxToOdt,
    /// DOCX paragraphs translated into a new PDF.
    DocxToPdf,
    /// ODT paragraphs translated into a new PDF.
    OdtToPdf,
    /// PDF text translated into a new ODT.
    PdfToOdt,
}

/// The conversion route for an input extension (compared after Unicode
/// lowercasing) and an output format; `None` for an unsupported input.
pub open spec fn route_for(input_ext: Seq<char>, fmt: OutputFormat) -> Option<DocumentRoute> {
    let l = lowercase(input_ext);
    if l == odt_chars() {
        Some(
            match fmt {
                OutputFormat::Odt => DocumentRoute::OdtToOdt,
                OutputFormat::Pdf => DocumentRoute::OdtToPdf,
            },
        )
    } else if l == pdf_chars() {
        Some(
            match fmt {
                OutputFormat::Pdf => DocumentRoute::PdfToPdf,
                OutputFormat::Odt => DocumentRoute::PdfToOdt,
            },
        )
    } else if l == docx_chars() {
        Some(
            match fmt {
                OutputFormat::Odt => DocumentRoute::DocxToOdt,
                OutputFormat::Pdf => DocumentRoute::DocxToPdf,
            },
        )
    } else {
        None
    }
}

/// The format a route reads.
pub open spec fn route_input(r: DocumentRoute) -> Seq<char> {
    match r {
        DocumentRoute::OdtToOdt | DocumentRoute::OdtToPdf => odt_chars(),
        DocumentRoute::PdfToPdf | DocumentRoute::PdfToOdt => pdf_chars(),
        DocumentRoute::DocxToOdt | DocumentRoute::DocxToPdf => docx_chars(),
    }
}

/// The format a route writes.
pub open spec fn route_output(r: DocumentRoute) -> OutputFormat {
    match r {
        DocumentRoute::OdtToOdt | DocumentRoute::PdfToOdt | DocumentRoute::DocxToOdt => OutputFormat::Odt,
        DocumentRoute::PdfToPdf | DocumentRoute::OdtToPdf | DocumentRoute::DocxToPdf => OutputFormat::Pdf,
    }
}

/// A route exists exactly for ODT, PDF and DOCX input (any case), and the
/// route chosen reads that input and writes the requested format.
pub proof fn lemma_route_formats(input_ext: Seq<char>, fmt: OutputFormat)
    ensures
        route_for(input_ext, fmt) is Some <==> (lowercase(input_ext) == odt_chars() || lowercase(input_ext)
            == pdf_chars() || lowercase(input_ext) == docx_chars()),
        route_for(input_ext, fmt) matches Some(r) ==> route_output(r) == fmt && route_input(r) == lowercase(
            input_ext,
        ),
{
}

/// Chooses how to convert a document (`translate_document`'s dispatch);
/// `None` means "unsupported input format".
pub fn document_route(input_ext: &str, fmt: OutputFormat) -> (r: Option<DocumentRoute>)
    ensures
        r == route_for(input_ext@, fmt),
{
    let l = to_lowercase(input_ext);
    let pdf: [char; 3] = ['p', 'd', 'f'];
    let odt: [char; 3] = ['o', 'd', 't'];
    let docx: [char; 4] = ['d', 'o', 'c', 'x'];
    assert(pdf@ =~= pdf_chars());
    assert(odt@ =~= odt_chars());
    assert(docx@ =~= docx_chars());
    if str_is(l.as_str(), odt.as_slice()) {
        Some(
            match fmt {
                OutputFormat::Odt => DocumentRoute::OdtToOdt,
                OutputFormat::Pdf => DocumentRoute::OdtToPdf,
            },
        )
    } else if str_is(l.as_str(), pdf.as_slice()) {
        Some(
            match fmt {
                OutputFormat::Pdf => DocumentRoute::PdfToPdf,
                OutputFormat::Odt => DocumentRoute::PdfToOdt,
            },
        )
    } else if str_is(l.as_str(), docx.as_slice()) {
        Some(
            match fmt {
                OutputFormat::Odt => DocumentRoute::DocxToOdt,
                OutputFormat::Pdf => DocumentRoute::DocxToPdf,
            },
        )
    } else {
        None
    }
}

// ───────────────────────────── sparse paragraphs ───────────────────────────

/// Indices, among the first `k` paragraphs, of those with non-whitespace text.
pub open spec fn nonblank_indices(ps: Seq<Seq<char>>, k: int) -> Seq<int>
    decreases k,
{
    if k <= 0 {
        Seq::empty()
    } else {
        nonblank_indices(ps, k - 1) + if trim(ps[k - 1]).len() > 0 {
            seq![k - 1]
        } else {
            Seq::empty()
        }
    }
}

pub proof fn lemma_nonblank_indices(ps: Seq<Seq<char>>, k: int)
    requires
        0 <= k <= ps.len(),
    ensures
        forall|a: int, b: int|
            0 <= a < b < nonblank_indices(ps, k).len() ==> nonblank_indices(ps, k)[a]
                < nonblank_indices(ps, k)[b],
        forall|a: int|
            0 <= a < nonblank_indices(ps, k).len() ==> 0 <= #[trigger] nonblank_indices(ps, k)[a]
                < k,
        forall|i: int|
            0 <= i < k ==> (trim(#[trigger] ps[i]).len() > 0 <==> nonblank_indices(
                ps,
                k,
            ).contains(i)),
    decreases k,
{
    if k > 0 {
        lemma_nonblank_indices(ps, k - 1);
        let prev = nonblank_indices(ps, k - 1);
        let cur = nonblank_indices(ps, k);
        assert forall|i: int| 0 <= i < k implies (trim(#[trigger] ps[i]).len() > 0 <==> cur.contains(
            i,
        )) by {
            if i < k - 1 {
                if prev.contains(i) {
                    let a = choose|a: int| 0 <= a < prev.len() && prev[a] == i;
                    assert(cur[a] == i);
                }
                if cur.contains(i) {
                    let a = choose|a: int| 0 <= a < cur.len() && cur[a] == i;
                    if a < prev.len() {
                        assert(prev[a] == i);
                    }
                }
            } else {
                if trim(ps[k - 1]).len() > 0 {
                    assert(cur[prev.len() as int] == k - 1);
                } else {
                    assert(cur =~= prev);
                }
            }
        }
    }
}

/// Indices of the paragraphs that hold non-whitespace text, in order.
pub fn nonblank_paragraph_indices(paragraphs: &Vec<String>) -> (r: Vec<usize>)
    ensures
        r@.len() == nonblank_indices(strs(paragraphs@), paragraphs@.len() as int).len(),
        forall|j: int|
            0 <= j < r@.len() ==> #[trigger] r@[j] as int == nonblank_indices(
                strs(paragraphs@),
                paragraphs@.len() as int,
            )[j],
{
    let ghost ps = strs(paragraphs@);
    let mut r: Vec<usize> = Vec::new();
    for k in 0..paragraphs.len()
        invariant
            ps == strs(paragraphs@),
            r@.len() == nonblank_indices(ps, k as int).len(),
            forall|j: int|
                0 <= j < r@.len() ==> #[trigger] r@[j] as int == nonblank_indices(ps, k as int)[j],
    {
        let t = trim_chars(chars_of(paragraphs[k].as_str()).as_slice());
        assert(ps[k as int] == paragraphs@[k as int]@);
        if t.len() > 0 {
            r.push(k);
        }
    }
    r
}

/// Places `translated[j]` at position `indices[j]` of a list of `n` strings
/// whose other positions are empty (as translations of blank paragraphs).
pub fn scatter_translations(n: usize, indices: &Vec<usize>, translated: &Vec<String>) -> (r: Vec<
    String,
>)
    requires
        indices@.len() == translated@.len(),
        forall|j: int| 0 <= j < indices@.len() ==> #[trigger] indices@[j] < n,
        forall|a: int, b: int| 0 <= a < b < indices@.len() ==> indices@[a] != indices@[b],
    ensures
        r@.len() == n,
        forall|j: int| 0 <= j < indices@.len() ==> r@[#[trigger] indices@[j] as int]@ == translated@[j]@,
        forall|k: int|
            0 <= k < n && !indices@.contains(k as usize) ==> (#[trigger] r@[k])@.len() == 0,
{
    let mut r: Vec<String> = Vec::new();
    for k in 0..n
        invariant
            r@.len() == k,
            forall|i: int| 0 <= i < k ==> (#[trigger] r@[i])@.len() == 0,
    {
        r.push(String::new());
    }
    for j in 0..indices.len()
        invariant
            r@.len() == n,
            indices@.len() == translated@.len(),
            forall|a: int| 0 <= a < indices@.len() ==> #[trigger] indices@[a] < n,
            forall|a: int, b: int| 0 <= a < b < indices@.len() ==> indices@[a] != indices@[b],
            forall|a: int| 0 <= a < j ==> r@[#[trigger] indices@[a] as int]@ == translated@[a]@,
            forall|k: int|
                0 <= k < n && !indices@.take(j as int).contains(k as usize) ==> (
                #[trigger] r@[k])@.len() == 0,
    {
        let idx = indices[j];
        let ghost old_r = r@;
        r.set(idx, translated[j].clone());
        assert forall|a: int| 0 <= a < j + 1 implies r@[#[trigger] indices@[a] as int]@
            == translated@[a]@ by {
            if a < j {
                assert(indices@[a] != indices@[j as int]);
            }
        }
        assert forall|k: int|
            0 <= k < n && !indices@.take(j + 1).contains(k as usize) implies (
            #[trigger] r@[k])@.len() == 0 by {
            assert(indices@.take(j + 1)[j as int] == idx);
            if indices@.take(j as int).contains(k as usize) {
                let a = choose|a: int| 0 <= a < j && indices@.take(j as int)[a] == k as usize;
                assert(indices@.take(j + 1)[a] == k as usize);
            }
        }
    }
    assert(indices@.take(indices@.len() as int) =~= indices@);
    r
}

// ───────────────────────────── batching ────────────────────────────────────

/// Separator placed between paragraphs of a batch; chosen to be highly
/// unlikely in real text (null bytes are often stripped by LLM APIs).
pub open spec fn para_sep() -> Seq<char> {
    seq![
        '[', '-', '-', '-', 'P', 'A', 'R', 'A', 'G', 'R', 'A', 'P', 'H', '_', 'S', 'E', 'P', 'A',
        'R', 'A', 'T', 'O', 'R', '-', '-', '-', ']'
    ]
}

/// The separator with the blank lines around it: `"\n\n" + SEP + "\n\n"`.
pub open spec fn para_sep_full() -> Seq<char> {
    seq!['\n', '\n'] + para_sep() + seq!['\n', '\n']
}

/// Characters the full separator adds between two paragraphs.
pub const SEP_FULL_CHARS: usize = 31;

fn para_sep_chars() -> (r: Vec<char>)
    ensures
        r@ == para_sep(),
{
    let r = vec![
        '[', '-', '-', '-', 'P', 'A', 'R', 'A', 'G', 'R', 'A', 'P', 'H', '_', 'S', 'E', 'P', 'A',
        'R', 'A', 'T', 'O', 'R', '-', '-', '-', ']'
    ];
    assert(r@ =~= para_sep());
    r
}

fn para_sep_full_chars() -> (r: Vec<char>)
    ensures
        r@ == para_sep_full(),
        r@.len() == SEP_FULL_CHARS,
{
    let mut r: Vec<char> = Vec::new();
    r.push('\n');
    r.push('\n');
    let s = para_sep_chars();
    extend_chars(&mut r, s.as_slice());
    r.push('\n');
    r.push('\n');
    assert(r@ =~= para_sep_full());
    r
}

/// Characters that joining the paragraphs listed in `b` takes.
pub open spec fn joined_len(counts: Seq<int>, b: Seq<int>) -> int
    decreases b.len(),
{
    if b.len() == 0 {
        0
    } else if b.len() == 1 {
        counts[b[0]]
    } else {
        joined_len(counts, b.drop_last()) + SEP_FULL_CHARS + counts[b.last()]
    }
}

/// Batches so far, the batch being filled, and its joined length.
pub type BatchState = (Seq<Seq<int>>, Seq<int>, int);

/// Adding paragraph `i`: it joins the current batch unless that would take
/// the batch past `max_chars`, in which case it starts a new one.
pub open spec fn batch_step(counts: Seq<int>, max_chars: int, st: BatchState, i: int) -> BatchState {
    let (bs, cur, len) = st;
    let c = counts[i];
    let cost = if cur.len() == 0 {
        c
    } else {
        SEP_FULL_CHARS + c
    };
    if cur.len() > 0 && len + cost > max_chars {
        (bs.push(cur), seq![i], c)
    } else {
        (bs, cur.push(i), len + cost)
    }
}

pub open spec fn batch_state(counts: Seq<int>, max_chars: int, k: int) -> BatchState
    decreases k,
{
    if k <= 0 {
        (Seq::empty(), Seq::empty(), 0)
    } else {
        batch_step(counts, max_chars, batch_state(counts, max_chars, k - 1), k - 1)
    }
}

/// Batches of paragraph indices, filled greedily in order.
pub open spec fn batches(counts: Seq<int>, max_chars: int) -> Seq<Seq<int>> {
    let (bs, cur, _) = batch_state(counts, max_chars, counts.len() as int);
    if cur.len() > 0 {
        bs.push(cur)
    } else {
        bs
    }
}

/// Character counts of the paragraphs.
pub open spec fn char_counts(ps: Seq<Seq<char>>) -> Seq<int> {
    ps.map_values(|p: Seq<char>| p.len() as int)
}

pub open spec fn usize_seq_view(v: Seq<Vec<usize>>) -> Seq<Seq<int>> {
    v.map_values(|b: Vec<usize>| b@.map_values(|i: usize| i as int))
}

/// Groups the paragraphs into batches whose joined text (with the full
/// separator between paragraphs) fits within `max_chars` characters; a
/// paragraph too long on its own gets a batch of its own.
pub fn plan_batches(paragraphs: &Vec<String>, max_chars: usize) -> (r: Vec<Vec<usize>>)
    ensures
        usize_seq_view(r@) == batches(char_counts(strs(paragraphs@)), max_chars as int),
{
    let ghost counts = char_counts(strs(paragraphs@));
    let mut bs: Vec<Vec<usize>> = Vec::new();
    let mut cur: Vec<usize> = Vec::new();
    let mut cur_len: usize = 0;
    for i in 0..paragraphs.len()
        invariant
            counts == char_counts(strs(paragraphs@)),
            batch_state(counts, max_chars as int, i as int) == (
                usize_seq_view(bs@),
                cur@.map_values(|x: usize| x as int),
                cur_len as int,
            ),
    {
        let c = chars_of(paragraphs[i].as_str()).len();
        assert(c == counts[i as int]);
        let cost: u128 = if cur.len() == 0 {
            c as u128
        } else {
            SEP_FULL_CHARS as u128 + c as u128
        };
        let ghost old_bs = usize_seq_view(bs@);
        let ghost old_cur = cur@.map_values(|x: usize| x as int);
        if cur.len() > 0 && cur_len as u128 + cost > max_chars as u128 {
            let full = cur;
            bs.push(full);
            assert(usize_seq_view(bs@) =~= old_bs.push(old_cur));
            cur = Vec::new();
            cur.push(i);
            assert(cur@.map_values(|x: usize| x as int) =~= seq![i as int]);
            cur_len = c;
        } else {
            cur.push(i);
            assert(cur@.map_values(|x: usize| x as int) =~= old_cur.push(i as int));
            cur_len = (cur_len as u128 + cost) as usize;
        }
    }
    if cur.len() > 0 {
        let ghost old_bs = usize_seq_view(bs@);
        let ghost old_cur = cur@.map_values(|x: usize| x as int);
        bs.push(cur);
        assert(usize_seq_view(bs@) =~= old_bs.push(old_cur));
    }
    bs
}

/// The text sent for one batch: its paragraphs joined by the full separator.
pub open spec fn batch_text(ps: Seq<Seq<char>>, b: Seq<int>) -> Seq<char> {
    join(b.map_values(|i: int| ps[i]), para_sep_full())
}

/// Joins the paragraphs listed in `batch` with the full separator.
pub fn join_batch(paragraphs: &Vec<String>, batch: &Vec<usize>) -> (r: String)
    requires
        forall|j: int| 0 <= j < batch@.len() ==> #[trigger] batch@[j] < paragraphs@.len(),
    ensures
        r@ == batch_text(strs(paragraphs@), batch@.map_values(|i: usize| i as int)),
{
    let mut parts: Vec<Vec<char>> = Vec::new();
    for j in 0..batch.len()
        invariant
            forall|k: int| 0 <= k < batch@.len() ==> #[trigger] batch@[k] < paragraphs@.len(),
            dv(parts@) == batch@.map_values(|i: usize| i as int).map_values(
                |i: int| strs(paragraphs@)[i],
            ).take(j as int),
    {
        let ghost old = dv(parts@);
        let pc = chars_of(paragraphs[batch[j]].as_str());
        let ghost pcv = pc@;
        assert(pcv == strs(paragraphs@)[batch@[j as int] as int]);
        parts.push(pc);
        assert(dv(parts@) =~= old.push(pcv));
        assert(dv(parts@) =~= batch@.map_values(|i: usize| i as int).map_values(
            |i: int| strs(paragraphs@)[i],
        ).take(j + 1));
    }
    assert(batch@.map_values(|i: usize| i as int).map_values(|i: int| strs(paragraphs@)[i]).take(
        batch@.len() as int,
    ) =~= batch@.map_values(|i: usize| i as int).map_values(|i: int| strs(paragraphs@)[i]));
    let sep = para_sep_full_chars();
    let joined = join_chars(&parts, sep.as_slice());
    string_of(joined.as_slice())
}

/// The translations recovered from the reply to a batch of `count`
/// paragraphs: the reply split at the separator, each piece without its
/// surrounding line breaks; missing pieces are empty.
pub open spec fn batch_reply(reply: Seq<char>, count: int) -> Seq<Seq<char>> {
    let parts = split_on(reply, para_sep());
    Seq::new(
        count as nat,
        |j: int|
            if j < parts.len() {
                trim_matches(parts[j], '\n')
            } else {
                Seq::empty()
            },
    )
}

/// Splits the translated reply for a batch of `count` paragraphs.
pub fn split_batch_reply(reply: &str, count: usize) -> (r: Vec<String>)
    ensures
        strs(r@) == batch_reply(reply@, count as int),
{
    let v = chars_of(reply);
    let sep = para_sep_chars();
    let parts = split_chars(v.as_slice(), sep.as_slice());
    let mut r: Vec<String> = Vec::new();
    for j in 0..count
        invariant
            dv(parts@) == split_on(reply@, para_sep()),
            strs(r@) == batch_reply(reply@, count as int).take(j as int),
    {
        let piece = if j < parts.len() {
            trim_matches_chars(parts[j].as_slice(), '\n')
        } else {
            Vec::new()
        };
        let ghost old = strs(r@);
        let s = string_of(piece.as_slice());
        r.push(s);
        assert(strs(r@) =~= old.push(s@));
        assert(batch_reply(reply@, count as int).take(j + 1) =~= batch_reply(
            reply@,
            count as int,
        ).take(j as int).push(piece@));
    }
    assert(batch_reply(reply@, count as int).take(count as int) =~= batch_reply(
        reply@,
        count as int,
    ));
    r
}

proof fn lemma_batch_state(counts: Seq<int>, max_chars: int, k: int)
    requires
        0 <= k <= counts.len(),
    ensures
        ({
            let (bs, cur, len) = batch_state(counts, max_chars, k);
            &&& (k == 0 <==> cur.len() == 0)
            &&& bs.flatten() + cur == Seq::new(k as nat, |i: int| i)
            &&& len == joined_len(counts, cur)
            &&& forall|j: int|
                0 <= j < bs.len() ==> (#[trigger] bs[j]).len() > 0 && (bs[j].len() > 1
                    ==> joined_len(counts, bs[j]) <= max_chars)
            &&& cur.len() > 1 ==> len <= max_chars
        }),
    decreases k,
{
    if k > 0 {
        lemma_batch_state(counts, max_chars, k - 1);
        let (bs, cur, len) = batch_state(counts, max_chars, k - 1);
        let i = k - 1;
        let c = counts[i];
        let cost = if cur.len() == 0 {
            c
        } else {
            SEP_FULL_CHARS + c
        };
        if cur.len() > 0 && len + cost > max_chars {
            bs.lemma_flatten_push(cur);
            assert(bs.push(cur).flatten() + seq![i] =~= Seq::new(k as nat, |x: int| x));
            assert(joined_len(counts, seq![i]) == c);
            let nb = bs.push(cur);
            assert forall|j: int| 0 <= j < nb.len() implies (#[trigger] nb[j]).len() > 0 && (
            nb[j].len() > 1 ==> joined_len(counts, nb[j]) <= max_chars) by {
                if j < bs.len() {
                    assert(nb[j] == bs[j]);
                }
            }
        } else {
            assert(bs.flatten() + cur.push(i) =~= (bs.flatten() + cur).push(i));
            assert(Seq::new((k - 1) as nat, |x: int| x).push(i) =~= Seq::new(k as nat, |x: int| x));
            assert(cur.push(i).drop_last() =~= cur);
            if cur.len() == 0 {
                assert(joined_len(counts, cur.push(i)) == c);
            }
        }
    }
}

/// Every paragraph lands in exactly one batch, in order; no batch is empty;
/// and a batch of several paragraphs fits within `max_chars` once joined,
/// so the separator itself is never cut by the chunker.
pub proof fn lemma_batches_partition(counts: Seq<int>, max_chars: int)
    ensures
        batches(counts, max_chars).flatten() == Seq::new(counts.len(), |i: int| i),
        forall|j: int|
            0 <= j < batches(counts, max_chars).len() ==> (#[trigger] batches(
                counts,
                max_chars,
            )[j]).len() > 0,
        forall|j: int|
            0 <= j < batches(counts, max_chars).len() && batches(counts, max_chars)[j].len() > 1
                ==> joined_len(counts, #[trigger] batches(counts, max_chars)[j]) <= max_chars,
{
    let n = counts.len() as int;
    lemma_batch_state(counts, max_chars, n);
    let (bs, cur, len) = batch_state(counts, max_chars, n);
    if cur.len() > 0 {
        bs.lemma_flatten_push(cur);
        let nb = bs.push(cur);
        assert forall|j: int| 0 <= j < nb.len() implies (#[trigger] nb[j]).len() > 0 && (
        nb[j].len() > 1 ==> joined_len(counts, nb[j]) <= max_chars) by {
            if j < bs.len() {
                assert(nb[j] == bs[j]);
            }
        }
    } else {
        assert(bs.flatten() + cur =~= bs.flatten());
    }
}

/// The joined text of a batch is `joined_len` characters long.
pub proof fn lemma_batch_text_len(ps: Seq<Seq<char>>, b: Seq<int>)
    requires
        forall|j: int| 0 <= j < b.len() ==> 0 <= #[trigger] b[j] < ps.len(),
    ensures
        batch_text(ps, b).len() == joined_len(char_counts(ps), b),
    decreases b.len(),
{
    if b.len() > 1 {
        let m = b.map_values(|i: int| ps[i]);
        lemma_batch_text_len(ps, b.drop_last());
        assert(b.drop_last().map_values(|i: int| ps[i]) =~= m.drop_last());
        crate::text::lemma_join_push(m.drop_last(), para_sep_full(), ps[b.last()]);
        assert(m.drop_last().push(ps[b.last()]) =~= m);
    }
}

} // verus!

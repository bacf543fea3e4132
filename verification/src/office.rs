//! Office documents as XML text: the paragraphs of ODT and DOCX bodies,
//! their plain text, writing a translation back into an ODT paragraph, and
//! the body of a freshly built ODT.
use vstd::prelude::*;
use crate::text::{
    chars_of, contains, contains_chars, copy_range, dv, extend_chars, join, lemma_join_push,
    occurs_at, push_str, replace, replace_chars, split_chars, split_on, string_of, strs, trim,
    trim_chars,
};
use crate::xml;
use crate::xml::{
    element_at, elements, elements_from, escaped, find_elements, lemma_elements_ordered, next_gt, ordered_from, unescaped,
    xml_escape, xml_unescape_chars,
};

verus! {

broadcast use vstd::string::group_string_axioms;

// ───────────────────────────── element names ───────────────────────────────

/// ODT paragraphs and headings.
pub open spec fn odt_para_opens() -> Seq<Seq<char>> {
    seq!["<text:p"@, "<text:h"@]
}

pub open spec fn odt_para_closes() -> Seq<Seq<char>> {
    seq!["</text:p>"@, "</text:h>"@]
}

/// ODT inline spans.
pub open spec fn span_opens() -> Seq<Seq<char>> {
    seq!["<text:span"@]
}

pub open spec fn span_closes() -> Seq<Seq<char>> {
    seq!["</text:span>"@]
}

/// DOCX paragraphs.
pub open spec fn docx_para_opens() -> Seq<Seq<char>> {
    seq!["<w:p"@]
}

pub open spec fn docx_para_closes() -> Seq<Seq<char>> {
    seq!["</w:p>"@]
}

/// DOCX text runs.
pub open spec fn docx_text_opens() -> Seq<Seq<char>> {
    seq!["<w:t"@]
}

pub open spec fn docx_text_closes() -> Seq<Seq<char>> {
    seq!["</w:t>"@]
}

fn names1(a: &str) -> (r: Vec<Vec<char>>)
    ensures
        dv(r@) == seq![a@],
{
    let mut r: Vec<Vec<char>> = Vec::new();
    r.push(chars_of(a));
    assert(dv(r@) =~= seq![a@]);
    r
}

fn names2(a: &str, b: &str) -> (r: Vec<Vec<char>>)
    ensures
        dv(r@) == seq![a@, b@],
{
    let mut r: Vec<Vec<char>> = Vec::new();
    r.push(chars_of(a));
    r.push(chars_of(b));
    assert(dv(r@) =~= seq![a@, b@]);
    r
}

proof fn lemma_opens_nonempty()
    ensures
        forall|k: int| 0 <= k < odt_para_opens().len() ==> (#[trigger] odt_para_opens()[k]).len() > 0,
        forall|k: int| 0 <= k < span_opens().len() ==> (#[trigger] span_opens()[k]).len() > 0,
        forall|k: int| 0 <= k < docx_para_opens().len() ==> (#[trigger] docx_para_opens()[k]).len() > 0,
        forall|k: int| 0 <= k < docx_text_opens().len() ==> (#[trigger] docx_text_opens()[k]).len() > 0,
{
    reveal_strlit("<text:p");
    reveal_strlit("<text:h");
    reveal_strlit("<text:span");
    reveal_strlit("<w:p");
    reveal_strlit("<w:t");
}

// ───────────────────────────── reading text ────────────────────────────────

/// `s[i..]` with every tag (`<`, at least one character other than `>`,
/// then `>`) removed.
pub open spec fn strip_tags_from(s: Seq<char>, i: int) -> Seq<char>
    decreases s.len() - i,
{
    if i < 0 || i >= s.len() {
        Seq::empty()
    } else if s[i] == '<' && i + 2 <= next_gt(s, i + 1) < s.len() {
        strip_tags_from(s, next_gt(s, i + 1) + 1)
    } else {
        seq![s[i]] + strip_tags_from(s, i + 1)
    }
}

/// The text of an ODT paragraph: its tags removed, trimmed, entities read.
pub open spec fn odt_para_text(p: Seq<char>) -> Seq<char> {
    unescaped(trim(strip_tags_from(p, 0)))
}

/// The elements' (start, end) ranges.
pub open spec fn ranges(ms: Seq<(int, int, int, int)>) -> Seq<(int, int)> {
    ms.map_values(|m: (int, int, int, int)| (m.0, m.3))
}

/// The ODT paragraphs and headings of a `content.xml`, in order.
pub open spec fn odt_paras(xml: Seq<char>) -> Seq<(int, int, int, int)> {
    elements(xml, odt_para_opens(), odt_para_closes(), true)
}

/// The text of every ODT paragraph and heading, empty ones included.
pub open spec fn odt_texts(xml: Seq<char>) -> Seq<Seq<char>> {
    odt_paras(xml).map_values(|m: (int, int, int, int)| odt_para_text(xml.subrange(m.0, m.3)))
}

fn strip_tags(v: &[char]) -> (r: Vec<char>)
    ensures
        r@ == strip_tags_from(v@, 0),
{
    let n = v.len();
    let mut out: Vec<char> = Vec::new();
    let mut i: usize = 0;
    while i < n
        invariant
            n == v@.len(),
            i <= n,
            out@ + strip_tags_from(v@, i as int) == strip_tags_from(v@, 0),
        decreases n - i,
    {
        let ghost before = out@;
        if v[i] == '<' {
            let g = crate::xml::next_gt_exec(v, i + 1);
            if g >= 2 && i <= g - 2 && g < n {
                i = g + 1;
                continue;
            }
        }
        out.push(v[i]);
        assert(out@ + strip_tags_from(v@, i + 1) =~= before + strip_tags_from(v@, i as int));
        i = i + 1;
    }
    out
}

/// The text of one ODT paragraph element (see `odt_para_text`).
pub fn odt_paragraph_text(p: &[char]) -> (r: String)
    ensures
        r@ == odt_para_text(p@),
{
    let s = strip_tags(p);
    let t = trim_chars(s.as_slice());
    let u = xml_unescape_chars(t.as_slice());
    string_of(u.as_slice())
}

/// The elements found in `v`, as ranges known to be ordered and in bounds.
fn element_ranges(v: &[char], opens: &Vec<Vec<char>>, closes: &Vec<Vec<char>>, empty_tags: bool) -> (r: Vec<
    (usize, usize, usize, usize),
>)
    requires
        forall|k: int| 0 <= k < opens@.len() ==> (#[trigger] opens@[k])@.len() > 0,
    ensures
        r@.len() == elements(v@, dv(opens@), dv(closes@), empty_tags).len(),
        forall|k: int|
            0 <= k < r@.len() ==> {
                let m = elements(v@, dv(opens@), dv(closes@), empty_tags)[k];
                (#[trigger] r@[k]).0 as int == m.0 && r@[k].1 as int == m.1 && r@[k].2 as int == m.2
                    && r@[k].3 as int == m.3
            },
        ordered_from(elements(v@, dv(opens@), dv(closes@), empty_tags), 0, v@.len() as int),
{
    let r = find_elements(v, opens, closes, empty_tags);
    proof {
        assert forall|k: int| 0 <= k < dv(opens@).len() implies (#[trigger] dv(opens@)[k]).len() > 0 by {
            assert(dv(opens@)[k] == opens@[k]@);
        }
        lemma_elements_ordered(v@, 0, dv(opens@), dv(closes@), empty_tags);
    }
    r
}

/// The text of every paragraph and heading of an ODT `content.xml`, empty
/// ones included, in document order.
pub fn odt_paragraph_texts(xml: &str) -> (r: Vec<String>)
    ensures
        strs(r@) == odt_texts(xml@),
{
    let v = chars_of(xml);
    let opens = names2("<text:p", "<text:h");
    let closes = names2("</text:p>", "</text:h>");
    proof {
        lemma_opens_nonempty();
    }
    let ms = element_ranges(v.as_slice(), &opens, &closes, true);
    let ghost es = odt_paras(xml@);
    let mut out: Vec<String> = Vec::new();
    for k in 0..ms.len()
        invariant
            v@ == xml@,
            es == odt_paras(xml@),
            ms@.len() == es.len(),
            forall|j: int|
                0 <= j < ms@.len() ==> (#[trigger] ms@[j]).0 as int == es[j].0 && ms@[j].3 as int
                    == es[j].3,
            ordered_from(es, 0, v@.len() as int),
            strs(out@) == odt_texts(xml@).take(k as int),
    {
        let m = ms[k];
        assert(es[k as int].0 < es[k as int].3 <= v@.len());
        let p = copy_range(v.as_slice(), m.0, m.3);
        let t = odt_paragraph_text(p.as_slice());
        assert(p@ == xml@.subrange(es[k as int].0, es[k as int].3));
        assert(odt_texts(xml@)[k as int] == t@);
        let ghost before = strs(out@);
        out.push(t);
        assert(strs(out@) =~= before.push(t@));
        assert(strs(out@) =~= odt_texts(xml@).take(k + 1));
    }
    assert(odt_texts(xml@).take(ms@.len() as int) =~= odt_texts(xml@));
    out
}

/// The DOCX paragraphs of a `word/document.xml`, in order.
pub open spec fn docx_paras(xml: Seq<char>) -> Seq<(int, int, int, int)> {
    elements(xml, docx_para_opens(), docx_para_closes(), true)
}

/// The bodies of the text runs of a DOCX paragraph, entities read.
pub open spec fn docx_run_texts(p: Seq<char>) -> Seq<Seq<char>> {
    elements(p, docx_text_opens(), docx_text_closes(), false).map_values(
        |m: (int, int, int, int)| unescaped(p.subrange(m.1, m.2)),
    )
}

/// The text of a DOCX paragraph: its text runs joined without separator.
pub open spec fn docx_para_text(p: Seq<char>) -> Seq<char> {
    join(docx_run_texts(p), Seq::empty())
}

/// The texts that hold more than whitespace, in order.
pub open spec fn nonblank_texts(ts: Seq<Seq<char>>) -> Seq<Seq<char>>
    decreases ts.len(),
{
    if ts.len() == 0 {
        ts
    } else if trim(ts.last()).len() > 0 {
        nonblank_texts(ts.drop_last()).push(ts.last())
    } else {
        nonblank_texts(ts.drop_last())
    }
}

/// The text of every DOCX paragraph, in order.
pub open spec fn docx_texts(xml: Seq<char>) -> Seq<Seq<char>> {
    docx_paras(xml).map_values(|m: (int, int, int, int)| docx_para_text(xml.subrange(m.0, m.3)))
}

/// The text of one DOCX paragraph element (see `docx_para_text`).
pub fn docx_paragraph_text(p: &[char]) -> (r: String)
    ensures
        r@ == docx_para_text(p@),
{
    let opens = names1("<w:t");
    let closes = names1("</w:t>");
    proof {
        lemma_opens_nonempty();
    }
    let ms = element_ranges(p, &opens, &closes, false);
    let ghost es = elements(p@, docx_text_opens(), docx_text_closes(), false);
    let ghost parts = docx_run_texts(p@);
    let mut out: Vec<char> = Vec::new();
    assert forall|j: int| 0 <= j < es.len() implies #[trigger] parts[j] == unescaped(p@.subrange(es[j].1, es[j].2)) by {}
    for k in 0..ms.len()
        invariant
            es == elements(p@, docx_text_opens(), docx_text_closes(), false),
            parts == docx_run_texts(p@),
            parts.len() == es.len(),
            forall|j: int| 0 <= j < es.len() ==> #[trigger] parts[j] == unescaped(p@.subrange(es[j].1, es[j].2)),
            ms@.len() == es.len(),
            forall|j: int|
                0 <= j < ms@.len() ==> (#[trigger] ms@[j]).1 as int == es[j].1 && ms@[j].2 as int
                    == es[j].2,
            ordered_from(es, 0, p@.len() as int),
            out@ == join(parts.take(k as int), Seq::empty()),
    {
        let m = ms[k];
        assert(es[k as int].1 <= es[k as int].2 <= p@.len());
        let body = copy_range(p, m.1, m.2);
        let u = xml_unescape_chars(body.as_slice());
        assert(body@ == p@.subrange(es[k as int].1, es[k as int].2));
        proof {
            lemma_join_push(parts.take(k as int), Seq::empty(), u@);
            assert(parts.take(k + 1) =~= parts.take(k as int).push(u@));
        }
        assert(parts[k as int] == u@);
        let ghost before = out@;
        extend_chars(&mut out, u.as_slice());
        assert(out@ =~= join(parts.take(k + 1), Seq::empty()));
    }
    assert(parts.take(ms@.len() as int) =~= parts);
    string_of(out.as_slice())
}

/// The text of every DOCX paragraph that holds more than whitespace, in
/// document order.
pub fn docx_paragraph_texts(xml: &str) -> (r: Vec<String>)
    ensures
        strs(r@) == nonblank_texts(docx_texts(xml@)),
{
    let v = chars_of(xml);
    let opens = names1("<w:p");
    let closes = names1("</w:p>");
    proof {
        lemma_opens_nonempty();
    }
    let ms = element_ranges(v.as_slice(), &opens, &closes, true);
    let ghost es = docx_paras(xml@);
    let ghost ts = docx_texts(xml@);
    let mut out: Vec<String> = Vec::new();
    for k in 0..ms.len()
        invariant
            v@ == xml@,
            es == docx_paras(xml@),
            ts == docx_texts(xml@),
            ms@.len() == es.len(),
            forall|j: int|
                0 <= j < ms@.len() ==> (#[trigger] ms@[j]).0 as int == es[j].0 && ms@[j].3 as int
                    == es[j].3,
            ordered_from(es, 0, v@.len() as int),
            strs(out@) == nonblank_texts(ts.take(k as int)),
    {
        let m = ms[k];
        assert(es[k as int].0 < es[k as int].3 <= v@.len());
        let p = copy_range(v.as_slice(), m.0, m.3);
        let t = docx_paragraph_text(p.as_slice());
        assert(p@ == xml@.subrange(es[k as int].0, es[k as int].3));
        assert(ts[k as int] == t@);
        assert(ts.take(k + 1).drop_last() =~= ts.take(k as int));
        let tt = trim_chars(chars_of(t.as_str()).as_slice());
        let ghost before = strs(out@);
        if tt.len() > 0 {
            out.push(t);
            assert(strs(out@) =~= before.push(ts[k as int]));
        }
    }
    assert(ts.take(ms@.len() as int) =~= ts);
    out
}

// ───────────────────────────── writing text back ───────────────────────────

/// End of the previous range before range `k` (0 for the first).
pub open spec fn prev_end(rs: Seq<(int, int)>, k: int) -> int {
    if k <= 0 {
        0
    } else {
        rs[k - 1].1
    }
}

/// Ranges in order, not overlapping, within a text of length `n`.
pub open spec fn ranges_ok(rs: Seq<(int, int)>, n: int) -> bool {
    forall|k: int| 0 <= k < rs.len() ==> 0 <= prev_end(rs, k) <= (#[trigger] rs[k]).0 <= rs[k].1 <= n
}

/// The text up to the end of range `k - 1` with the first `k` ranges
/// replaced by their pieces.
pub open spec fn splice_prefix(s: Seq<char>, rs: Seq<(int, int)>, ps: Seq<Seq<char>>, k: int) -> Seq<char>
    decreases k,
{
    if k <= 0 {
        Seq::empty()
    } else {
        splice_prefix(s, rs, ps, k - 1) + s.subrange(prev_end(rs, k - 1), rs[k - 1].0) + ps[k - 1]
    }
}

/// `s` with every range replaced by its piece.
pub open spec fn splice(s: Seq<char>, rs: Seq<(int, int)>, ps: Seq<Seq<char>>) -> Seq<char> {
    splice_prefix(s, rs, ps, rs.len() as int) + s.subrange(prev_end(rs, rs.len() as int), s.len() as int)
}

proof fn lemma_ranges_ok(ms: Seq<(int, int, int, int)>, n: int)
    requires
        ordered_from(ms, 0, n),
    ensures
        ranges_ok(ranges(ms), n),
{
    let rs = ranges(ms);
    assert forall|k: int| 0 <= k < rs.len() implies 0 <= prev_end(rs, k) <= (#[trigger] rs[k]).0 <= rs[k].1 <= n by {
        assert(rs[k] == (ms[k].0, ms[k].3));
        if k > 0 {
            assert(rs[k - 1] == (ms[k - 1].0, ms[k - 1].3));
            assert(ms[k - 1].3 <= ms[k].0);
        }
    }
}

/// Replaces each range of `v` by the matching piece.
fn splice_exec(v: &[char], rs: &Vec<(usize, usize)>, ps: &Vec<Vec<char>>) -> (r: Vec<char>)
    requires
        rs@.len() == ps@.len(),
        ranges_ok(rs@.map_values(|x: (usize, usize)| (x.0 as int, x.1 as int)), v@.len() as int),
    ensures
        r@ == splice(v@, rs@.map_values(|x: (usize, usize)| (x.0 as int, x.1 as int)), dv(ps@)),
{
    let ghost rr = rs@.map_values(|x: (usize, usize)| (x.0 as int, x.1 as int));
    let ghost pp = dv(ps@);
    let mut out: Vec<char> = Vec::new();
    let mut pos: usize = 0;
    let n = rs.len();
    for k in 0..n
        invariant
            n == rs@.len() == ps@.len(),
            rr == rs@.map_values(|x: (usize, usize)| (x.0 as int, x.1 as int)),
            pp == dv(ps@),
            ranges_ok(rr, v@.len() as int),
            pos as int == prev_end(rr, k as int),
            out@ == splice_prefix(v@, rr, pp, k as int),
    {
        let r = rs[k];
        assert(rr[k as int] == (r.0 as int, r.1 as int));
        assert(prev_end(rr, k as int) <= rr[k as int].0 <= rr[k as int].1 <= v@.len());
        let gap = copy_range(v, pos, r.0);
        extend_chars(&mut out, gap.as_slice());
        extend_chars(&mut out, ps[k].as_slice());
        assert(pp[k as int] == ps@[k as int]@);
        assert(out@ =~= splice_prefix(v@, rr, pp, k + 1));
        pos = r.1;
    }
    let vl = v.len();
    if n > 0 {
        assert(prev_end(rr, (n - 1) as int) <= rr[n - 1].0 <= rr[n - 1].1 <= v@.len());
    }
    let tail = copy_range(v, pos, vl);
    extend_chars(&mut out, tail.as_slice());
    out
}

/// Where the opening tag of a span ends: after its first `>`.
pub open spec fn span_open_end(p: Seq<char>, m: (int, int, int, int)) -> int {
    if next_gt(p, m.0) < m.3 {
        next_gt(p, m.0) + 1
    } else {
        m.3
    }
}

/// A span rewritten: its opening tag kept, then the translation (first span
/// only), then the closing tag.
pub open spec fn span_piece(p: Seq<char>, m: (int, int, int, int), esc: Seq<char>, first: bool) -> Seq<char> {
    p.subrange(m.0, span_open_end(p, m)) + (if first {
        esc
    } else {
        Seq::empty()
    }) + "</text:span>"@
}

/// The spans of an ODT paragraph.
pub open spec fn spans(p: Seq<char>) -> Seq<(int, int, int, int)> {
    elements(p, span_opens(), span_closes(), false)
}

/// An ODT paragraph with its text replaced by `translation` (escaped).
/// With spans, the first span receives the whole translation and the others
/// are emptied, each keeping its opening tag; without spans, the content
/// after the opening tag is replaced and the paragraph (or heading) closed.
pub open spec fn replaced_para(p: Seq<char>, translation: Seq<char>) -> Seq<char> {
    let esc = escaped(translation);
    let sp = spans(p);
    if sp.len() > 0 {
        splice(p, ranges(sp), Seq::new(sp.len(), |k: int| span_piece(p, sp[k], esc, k == 0)))
    } else if contains(p, "</text:p>"@) {
        if next_gt(p, 0) < p.len() {
            p.take(next_gt(p, 0) + 1) + esc + "</text:p>"@
        } else {
            p
        }
    } else if contains(p, "</text:h>"@) {
        if next_gt(p, 0) < p.len() {
            p.take(next_gt(p, 0) + 1) + esc + "</text:h>"@
        } else {
            p
        }
    } else {
        p
    }
}

fn usize_ranges(ms: &Vec<(usize, usize, usize, usize)>) -> (r: Vec<(usize, usize)>)
    ensures
        r@.map_values(|x: (usize, usize)| (x.0 as int, x.1 as int)) == ms@.map_values(
            |m: (usize, usize, usize, usize)| (m.0 as int, m.3 as int),
        ),
{
    let mut r: Vec<(usize, usize)> = Vec::new();
    for k in 0..ms.len()
        invariant
            r@.len() == k,
            forall|j: int| 0 <= j < k ==> (#[trigger] r@[j]).0 == ms@[j].0 && r@[j].1 == ms@[j].3,
    {
        r.push((ms[k].0, ms[k].3));
    }
    assert(r@.map_values(|x: (usize, usize)| (x.0 as int, x.1 as int)) =~= ms@.map_values(
        |m: (usize, usize, usize, usize)| (m.0 as int, m.3 as int),
    ));
    r
}

/// The spans of `p` rewritten around the escaped translation `esc`.
fn rewrite_spans(p: &[char], esc: &[char], ms: &Vec<(usize, usize, usize, usize)>) -> (r: Vec<char>)
    requires
        ms@.len() == spans(p@).len(),
        forall|j: int|
            0 <= j < ms@.len() ==> (#[trigger] ms@[j]).0 as int == spans(p@)[j].0 && ms@[j].1 as int
                == spans(p@)[j].1 && ms@[j].2 as int == spans(p@)[j].2 && ms@[j].3 as int == spans(p@)[j].3,
        ordered_from(spans(p@), 0, p@.len() as int),
    ensures
        r@ == splice(
            p@,
            ranges(spans(p@)),
            Seq::new(spans(p@).len(), |k: int| span_piece(p@, spans(p@)[k], esc@, k == 0)),
        ),
{
    let ghost sp = spans(p@);
    let rs = usize_ranges(&ms);
    let ghost rr = rs@.map_values(|x: (usize, usize)| (x.0 as int, x.1 as int));
    assert(rr =~= ranges(sp));
    proof {
        lemma_ranges_ok(sp, p@.len() as int);
    }
    let ghost want = Seq::new(sp.len(), |k: int| span_piece(p@, sp[k], esc@, k == 0));
    let mut pieces: Vec<Vec<char>> = Vec::new();
    for k in 0..ms.len()
        invariant
            sp == spans(p@),
            want == Seq::new(sp.len(), |k: int| span_piece(p@, sp[k], esc@, k == 0)),
            ms@.len() == sp.len(),
            forall|j: int|
                0 <= j < ms@.len() ==> (#[trigger] ms@[j]).0 as int == sp[j].0 && ms@[j].1 as int
                    == sp[j].1 && ms@[j].2 as int == sp[j].2 && ms@[j].3 as int == sp[j].3,
            ordered_from(sp, 0, p@.len() as int),
            dv(pieces@) == want.take(k as int),
    {
        let m = ms[k];
        assert(sp[k as int].0 < sp[k as int].3 <= p@.len());
        let g = crate::xml::next_gt_exec(p, m.0);
        proof {
            crate::xml::lemma_next_gt(p@, m.0 as int);
        }
        let oe = if g < m.3 {
            g + 1
        } else {
            m.3
        };
        let mut piece = copy_range(p, m.0, oe);
        if k == 0 {
            extend_chars(&mut piece, esc);
        }
        push_str(&mut piece, "</text:span>");
        assert(piece@ =~= want[k as int]);
        let ghost before = dv(pieces@);
        pieces.push(piece);
        assert(dv(pieces@) =~= before.push(want[k as int]));
        assert(want.take(k + 1) =~= want.take(k as int).push(want[k as int]));
    }
    assert(want.take(ms@.len() as int) =~= want);
    splice_exec(p, &rs, &pieces)
}

/// Replaces the text of an ODT paragraph element (see `replaced_para`).
pub fn replace_para_content(p: &[char], translation: &str) -> (r: Vec<char>)
    ensures
        r@ == replaced_para(p@, translation@),
{
    let esc_s = xml_escape(translation);
    let esc = chars_of(esc_s.as_str());
    let opens = names1("<text:span");
    let closes = names1("</text:span>");
    proof {
        lemma_opens_nonempty();
    }
    let ms = element_ranges(p, &opens, &closes, false);
    if ms.len() > 0 {
        rewrite_spans(p, esc.as_slice(), &ms)
    } else {
        let pc = chars_of("</text:p>");
        let hc = chars_of("</text:h>");
        let close = if contains_chars(p, pc.as_slice()) {
            pc
        } else if contains_chars(p, hc.as_slice()) {
            hc
        } else {
            return copy_range(p, 0, p.len());
        };
        let g = crate::xml::next_gt_exec(p, 0);
        if g < p.len() {
            let mut out = copy_range(p, 0, g + 1);
            extend_chars(&mut out, esc.as_slice());
            extend_chars(&mut out, close.as_slice());
            out
        } else {
            copy_range(p, 0, p.len())
        }
    }
}

/// One paragraph of a translated `content.xml`: rewritten when its
/// translation is non-empty, kept as it was otherwise.
pub open spec fn odt_piece(xml: Seq<char>, m: (int, int, int, int), t: Seq<char>) -> Seq<char> {
    if t.len() > 0 {
        replaced_para(xml.subrange(m.0, m.3), t)
    } else {
        xml.subrange(m.0, m.3)
    }
}

/// `content.xml` with the `k`-th paragraph's text replaced by `ts[k]`.
pub open spec fn translated_content(xml: Seq<char>, ts: Seq<Seq<char>>) -> Seq<char> {
    let ps = odt_paras(xml);
    splice(xml, ranges(ps), Seq::new(ps.len(), |k: int| odt_piece(xml, ps[k], ts[k])))
}

/// Whether every translation is empty.
pub open spec fn all_empty(ts: Seq<Seq<char>>) -> bool {
    forall|k: int| 0 <= k < ts.len() ==> (#[trigger] ts[k]).len() == 0
}

proof fn lemma_splice_prefix_identity(s: Seq<char>, rs: Seq<(int, int)>, ps: Seq<Seq<char>>, k: int)
    requires
        ranges_ok(rs, s.len() as int),
        0 <= k <= rs.len(),
        ps.len() == rs.len(),
        forall|j: int| 0 <= j < rs.len() ==> #[trigger] ps[j] == s.subrange(rs[j].0, rs[j].1),
    ensures
        splice_prefix(s, rs, ps, k) == s.take(prev_end(rs, k)),
    decreases k,
{
    if k > 0 {
        lemma_splice_prefix_identity(s, rs, ps, k - 1);
        let r = rs[k - 1];
        assert(0 <= prev_end(rs, k - 1) <= r.0 <= r.1 <= s.len());
        assert(ps[k - 1] == s.subrange(r.0, r.1));
        assert(s.take(prev_end(rs, k - 1)) + s.subrange(prev_end(rs, k - 1), r.0) + s.subrange(r.0, r.1)
            =~= s.take(r.1));
    }
}

/// Replacing every range by the text it already holds gives the text back.
proof fn lemma_splice_identity(s: Seq<char>, rs: Seq<(int, int)>, ps: Seq<Seq<char>>)
    requires
        ranges_ok(rs, s.len() as int),
        ps.len() == rs.len(),
        forall|j: int| 0 <= j < rs.len() ==> #[trigger] ps[j] == s.subrange(rs[j].0, rs[j].1),
    ensures
        splice(s, rs, ps) == s,
{
    lemma_splice_prefix_identity(s, rs, ps, rs.len() as int);
    if rs.len() > 0 {
        assert(0 <= prev_end(rs, rs.len() - 1) <= rs[rs.len() - 1].0 <= rs[rs.len() - 1].1 <= s.len());
    }
    assert(s.take(prev_end(rs, rs.len() as int)) + s.subrange(prev_end(rs, rs.len() as int), s.len() as int)
        =~= s);
}

/// A `content.xml` written back with no translation at all is unchanged:
/// every paragraph keeps its text and everything between paragraphs is kept.
pub proof fn lemma_untranslated_content(xml: Seq<char>, ts: Seq<Seq<char>>)
    requires
        ts.len() == odt_paras(xml).len(),
        all_empty(ts),
    ensures
        translated_content(xml, ts) == xml,
{
    let es = odt_paras(xml);
    lemma_opens_nonempty();
    lemma_elements_ordered(xml, 0, odt_para_opens(), odt_para_closes(), true);
    lemma_ranges_ok(es, xml.len() as int);
    let rs = ranges(es);
    let ps = Seq::new(es.len(), |k: int| odt_piece(xml, es[k], ts[k]));
    assert forall|j: int| 0 <= j < rs.len() implies #[trigger] ps[j] == xml.subrange(rs[j].0, rs[j].1) by {
        assert(ts[j].len() == 0);
        assert(rs[j] == (es[j].0, es[j].3));
    }
    lemma_splice_identity(xml, rs, ps);
}

/// Writes one translation per paragraph into an ODT `content.xml`; an
/// empty translation leaves its paragraph as it was.
pub fn translate_content_xml(xml: &str, translations: &Vec<String>) -> (r: String)
    requires
        translations@.len() == odt_paras(xml@).len(),
    ensures
        r@ == translated_content(xml@, strs(translations@)),
{
    let v = chars_of(xml);
    let opens = names2("<text:p", "<text:h");
    let closes = names2("</text:p>", "</text:h>");
    proof {
        lemma_opens_nonempty();
    }
    let ms = element_ranges(v.as_slice(), &opens, &closes, true);
    let ghost es = odt_paras(xml@);
    let ghost ts = strs(translations@);
    let ghost want = Seq::new(es.len(), |k: int| odt_piece(xml@, es[k], ts[k]));
    let mut pieces: Vec<Vec<char>> = Vec::new();
    for k in 0..ms.len()
        invariant
            v@ == xml@,
            es == odt_paras(xml@),
            ts == strs(translations@),
            ts.len() == es.len(),
            want == Seq::new(es.len(), |k: int| odt_piece(xml@, es[k], ts[k])),
            ms@.len() == es.len(),
            forall|j: int|
                0 <= j < ms@.len() ==> (#[trigger] ms@[j]).0 as int == es[j].0 && ms@[j].3 as int
                    == es[j].3,
            ordered_from(es, 0, v@.len() as int),
            dv(pieces@) == want.take(k as int),
    {
        let m = ms[k];
        assert(es[k as int].0 < es[k as int].3 <= v@.len());
        let p = copy_range(v.as_slice(), m.0, m.3);
        let t = &translations[k];
        assert(ts[k as int] == t@);
        let tv = chars_of(t.as_str());
        let piece = if tv.len() > 0 {
            replace_para_content(p.as_slice(), t.as_str())
        } else {
            p
        };
        assert(piece@ == want[k as int]);
        let ghost before = dv(pieces@);
        pieces.push(piece);
        assert(dv(pieces@) =~= before.push(want[k as int]));
        assert(want.take(k + 1) =~= want.take(k as int).push(want[k as int]));
    }
    assert(want.take(ms@.len() as int) =~= want);
    let rs = usize_ranges(&ms);
    assert(rs@.map_values(|x: (usize, usize)| (x.0 as int, x.1 as int)) =~= ranges(es));
    proof {
        lemma_ranges_ok(es, v@.len() as int);
    }
    let out = splice_exec(v.as_slice(), &rs, &pieces);
    string_of(out.as_slice())
}

// ───────────────────────────── plain text to paragraphs ────────────────────

/// Line breaks normalised: `\r\n` and lone `\r` become `\n`.
pub open spec fn normalized_newlines(s: Seq<char>) -> Seq<char> {
    replace(replace(s, "\r\n"@, "\n"@), "\r"@, "\n"@)
}

/// `n` empty paragraphs.
pub open spec fn blank_paras(n: nat) -> Seq<Seq<char>> {
    Seq::new(n, |i: int| Seq::<char>::empty())
}

/// Applies a run of `pending` newlines to (finished paragraphs, current
/// paragraph): one newline stays inside the paragraph; a longer run ends it
/// and adds one empty paragraph per further pair of newlines, counting a
/// leftover odd newline as a pair.
pub open spec fn flush(done: Seq<Seq<char>>, cur: Seq<char>, pending: nat) -> (Seq<Seq<char>>, Seq<char>) {
    if pending == 0 {
        (done, cur)
    } else if pending == 1 {
        (done, cur.push('\n'))
    } else {
        (done.push(cur) + blank_paras(((pending + 1) / 2 - 1) as nat), Seq::empty())
    }
}

/// (finished paragraphs, current paragraph, newlines pending) after reading `s`.
pub open spec fn para_scan(s: Seq<char>) -> (Seq<Seq<char>>, Seq<char>, nat)
    decreases s.len(),
{
    if s.len() == 0 {
        (Seq::empty(), Seq::empty(), 0)
    } else {
        let st = para_scan(s.drop_last());
        if s.last() == '\n' {
            (st.0, st.1, st.2 + 1)
        } else {
            let f = flush(st.0, st.1, st.2);
            (f.0, f.1.push(s.last()), 0)
        }
    }
}

/// The paragraphs of a text whose paragraphs are separated by blank lines.
pub open spec fn blank_line_paragraphs(s: Seq<char>) -> Seq<Seq<char>> {
    let st = para_scan(s);
    let f = flush(st.0, st.1, st.2);
    f.0.push(f.1)
}

/// The paragraphs of a plain text: separated by blank lines when it has
/// any, by single line breaks otherwise.
pub open spec fn text_paragraphs(text: Seq<char>) -> Seq<Seq<char>> {
    let n = normalized_newlines(text);
    if contains(n, "\n\n"@) {
        blank_line_paragraphs(n)
    } else {
        split_on(n, "\n"@)
    }
}

fn flush_exec(done: &mut Vec<String>, cur: &mut Vec<char>, pending: usize)
    ensures
        flush(strs(old(done)@), old(cur)@, pending as nat) == (strs(final(done)@), final(cur)@),
{
    if pending == 1 {
        cur.push('\n');
    } else if pending >= 2 {
        let c = string_of(cur.as_slice());
        let ghost before = strs(done@);
        done.push(c);
        let extra = pending / 2 + pending % 2 - 1;
        let mut k: usize = 0;
        assert(strs(done@) =~= before.push(old(cur)@) + blank_paras(0));
        while k < extra
            invariant
                k <= extra,
                extra == (pending + 1) / 2 - 1,
                pending >= 2,
                strs(done@) == before.push(old(cur)@) + blank_paras(k as nat),
            decreases extra - k,
        {
            let ghost prev = strs(done@);
            done.push(String::new());
            assert(strs(done@) =~= prev.push(Seq::empty()));
            assert(blank_paras((k + 1) as nat) =~= blank_paras(k as nat).push(Seq::empty()));
            k = k + 1;
            assert(strs(done@) =~= before.push(old(cur)@) + blank_paras(k as nat));
        }
        *cur = Vec::new();
    }
}

/// Splits a normalised text at its blank lines (see `blank_line_paragraphs`).
fn blank_line_split(v: &[char]) -> (r: Vec<String>)
    ensures
        strs(r@) == blank_line_paragraphs(v@),
{
    let mut done: Vec<String> = Vec::new();
    let mut cur: Vec<char> = Vec::new();
    let mut pending: usize = 0;
    let n = v.len();
    for i in 0..n
        invariant
            n == v@.len(),
            pending <= i,
            para_scan(v@.take(i as int)) == (strs(done@), cur@, pending as nat),
    {
        assert(v@.take(i + 1).drop_last() =~= v@.take(i as int));
        if v[i] == '\n' {
            pending = pending + 1;
        } else {
            flush_exec(&mut done, &mut cur, pending);
            cur.push(v[i]);
            pending = 0;
        }
    }
    assert(v@.take(n as int) =~= v@);
    flush_exec(&mut done, &mut cur, pending);
    let last = string_of(cur.as_slice());
    let ghost before = strs(done@);
    done.push(last);
    assert(strs(done@) =~= before.push(cur@));
    done
}

/// Splits a plain text into paragraphs (see `text_paragraphs`).
pub fn split_text_paragraphs(text: &str) -> (r: Vec<String>)
    ensures
        strs(r@) == text_paragraphs(text@),
{
    let v = chars_of(text);
    let crlf = chars_of("\r\n");
    let cr = chars_of("\r");
    let lf = chars_of("\n");
    proof {
        reveal_strlit("\r\n");
        reveal_strlit("\r");
        reveal_strlit("\n");
    }
    let a = replace_chars(v.as_slice(), crlf.as_slice(), lf.as_slice());
    let b = replace_chars(a.as_slice(), cr.as_slice(), lf.as_slice());
    let dbl = chars_of("\n\n");
    if contains_chars(b.as_slice(), dbl.as_slice()) {
        blank_line_split(b.as_slice())
    } else {
        proof {
            reveal_strlit("\n\n");
        }
        let parts = split_chars(b.as_slice(), lf.as_slice());
        let mut out: Vec<String> = Vec::new();
        for k in 0..parts.len()
            invariant
                dv(parts@) == split_on(b@, "\n"@),
                strs(out@) == dv(parts@).take(k as int),
        {
            let ghost before = strs(out@);
            let piece = string_of(parts[k].as_slice());
            assert(piece@ == dv(parts@)[k as int]);
            out.push(piece);
            assert(strs(out@) =~= before.push(dv(parts@)[k as int]));
            assert(dv(parts@).take(k + 1) =~= dv(parts@).take(k as int).push(dv(parts@)[k as int]));
        }
        assert(dv(parts@).take(parts@.len() as int) =~= dv(parts@));
        out
    }
}

// ───────────────────────────── building a document body ────────────────────

/// The start of a built `content.xml`, up to the opening of the text body.
pub open spec fn content_head() -> Seq<char> {
    "<?xml version=\"1.0\" encoding=\"UTF-8\"?>\n\
     <office:document-content \
       xmlns:office=\"urn:oasis:names:tc:opendocument:xmlns:office:1.0\" \
       xmlns:text=\"urn:oasis:names:tc:opendocument:xmlns:text:1.0\" \
       office:version=\"1.3\">\
     <office:automatic-styles/>\
     <office:body><office:text>"@
}

/// The end of a built `content.xml`.
pub open spec fn content_tail() -> Seq<char> {
    "</office:text></office:body></office:document-content>"@
}

/// One paragraph of a built document, in the default paragraph style.
pub open spec fn para_element(p: Seq<char>) -> Seq<char> {
    "<text:p text:style-name=\"Standard\">"@ + escaped(p) + "</text:p>"@
}

/// The paragraph elements of a built document, in order.
pub open spec fn para_elements(ps: Seq<Seq<char>>) -> Seq<char>
    decreases ps.len(),
{
    if ps.len() == 0 {
        Seq::empty()
    } else {
        para_elements(ps.drop_last()) + para_element(ps.last())
    }
}

/// The `content.xml` of a document made of the given paragraphs.
pub open spec fn odt_content(ps: Seq<Seq<char>>) -> Seq<char> {
    content_head() + para_elements(ps) + content_tail()
}

proof fn lemma_escaped_no_brackets(p: Seq<char>)
    ensures
        forall|i: int| 0 <= i < escaped(p).len() ==> #[trigger] escaped(p)[i] != '<' && escaped(p)[i] != '>',
    decreases p.len(),
{
    crate::xml::lemma_entity_chars();
    if p.len() > 0 {
        lemma_escaped_no_brackets(p.drop_last());
        let a = escaped(p.drop_last());
        let c = crate::xml::esc_char(p.last());
        assert forall|i: int| 0 <= i < (a + c).len() implies #[trigger] (a + c)[i] != '<' && (a + c)[i] != '>' by {
            if i >= a.len() {
                assert((a + c)[i] == c[i - a.len()]);
            }
        }
    }
}

/// Text with no `<` in `s[i..j]` is kept by tag stripping.
proof fn lemma_strip_plain(s: Seq<char>, i: int, j: int)
    requires
        0 <= i <= j <= s.len(),
        forall|k: int| i <= k < j ==> #[trigger] s[k] != '<',
    ensures
        strip_tags_from(s, i) == s.subrange(i, j) + strip_tags_from(s, j),
    decreases j - i,
{
    if i < j {
        lemma_strip_plain(s, i + 1, j);
        assert(s.subrange(i, j) =~= seq![s[i]] + s.subrange(i + 1, j));
    } else {
        assert(s.subrange(i, j) =~= Seq::<char>::empty());
    }
}

/// A tag `s[i..=g]` whose only `>` is its last character is stripped whole.
proof fn lemma_strip_tag(s: Seq<char>, i: int, g: int)
    requires
        0 <= i,
        i + 2 <= g < s.len(),
        s[i] == '<',
        s[g] == '>',
        forall|k: int| i < k < g ==> #[trigger] s[k] != '>',
    ensures
        strip_tags_from(s, i) == strip_tags_from(s, g + 1),
{
    lemma_next_gt_at(s, i + 1, g);
}

proof fn lemma_next_gt_at(s: Seq<char>, i: int, g: int)
    requires
        0 <= i <= g < s.len(),
        s[g] == '>',
        forall|k: int| i <= k < g ==> #[trigger] s[k] != '>',
    ensures
        next_gt(s, i) == g,
    decreases g - i,
{
    if i < g {
        lemma_next_gt_at(s, i + 1, g);
    }
}

/// The opening tag of a written paragraph.
pub open spec fn para_open() -> Seq<char> {
    "<text:p text:style-name=\"Standard\">"@
}

proof fn lemma_para_tags()
    ensures
        para_open() == seq![
            '<', 't', 'e', 'x', 't', ':', 'p', ' ', 't', 'e', 'x', 't', ':', 's', 't', 'y', 'l',
            'e', '-', 'n', 'a', 'm', 'e', '=', '"', 'S', 't', 'a', 'n', 'd', 'a', 'r', 'd', '"', '>'
        ],
        "</text:p>"@ == seq!['<', '/', 't', 'e', 'x', 't', ':', 'p', '>'],
{
    reveal_strlit("<text:p text:style-name=\"Standard\">");
    reveal_strlit("</text:p>");
    assert(para_open() =~= seq![
        '<', 't', 'e', 'x', 't', ':', 'p', ' ', 't', 'e', 'x', 't', ':', 's', 't', 'y', 'l',
        'e', '-', 'n', 'a', 'm', 'e', '=', '"', 'S', 't', 'a', 'n', 'd', 'a', 'r', 'd', '"', '>'
    ]);
    assert("</text:p>"@ =~= seq!['<', '/', 't', 'e', 'x', 't', ':', 'p', '>']);
}

proof fn lemma_trim_id(x: Seq<char>)
    requires
        x.len() == 0 || (!crate::text::is_ws(x[0]) && !crate::text::is_ws(x.last())),
    ensures
        trim(x) == x,
{
    assert(crate::text::lead_ws(x, 0) == 0);
    assert(x.skip(0) =~= x);
    if x.len() > 0 {
        assert(crate::text::trail_end(x, x.len() as int) == x.len());
    }
    assert(x.take(x.len() as int) =~= x);
}

/// A paragraph written by the builder reads back as itself, when it holds
/// no entity of its own (`&lt;`, `&gt;`, `&quot;`, `&apos;`) and no
/// surrounding whitespace.
pub proof fn lemma_paragraph_roundtrip(p: Seq<char>)
    requires
        crate::xml::entity_free(p),
        trim(p) == p,
    ensures
        odt_para_text(para_element(p)) == p,
{
    lemma_para_tags();
    let open = para_open();
    let close = "</text:p>"@;
    let e = escaped(p);
    let s = para_element(p);
    assert(s == open + e + close);
    lemma_escaped_no_brackets(p);
    // The opening tag is stripped whole.
    assert forall|k: int| 0 < k < open.len() - 1 implies #[trigger] s[k] != '>' by {
        assert(s[k] == open[k]);
    }
    lemma_strip_tag(s, 0, open.len() - 1);
    // The escaped text is kept.
    let j: int = (open.len() + e.len()) as int;
    assert forall|k: int| open.len() <= k < j implies #[trigger] s[k] != '<' by {
        assert(s[k] == e[k - open.len()]);
    }
    lemma_strip_plain(s, open.len() as int, j);
    assert(s.subrange(open.len() as int, j) =~= e);
    // The closing tag is stripped whole.
    assert forall|k: int| j < k < s.len() - 1 implies #[trigger] s[k] != '>' by {
        assert(s[k] == close[k - j]);
    }
    assert(s[j] == '<');
    assert(s[s.len() - 1] == '>');
    lemma_strip_tag(s, j, s.len() - 1);
    assert(strip_tags_from(s, s.len() as int) == Seq::<char>::empty());
    assert(strip_tags_from(s, 0) =~= e);
    // Escaping keeps the edges free of whitespace.
    if p.len() > 0 {
        crate::text::lemma_trim_edges(p);
        crate::xml::lemma_escaped_concat(seq![p[0]], p.skip(1));
        assert(seq![p[0]] + p.skip(1) =~= p);
        assert(escaped(seq![p[0]]) =~= crate::xml::esc_char(p[0])) by {
            assert(seq![p[0]].drop_last() =~= Seq::<char>::empty());
            assert(seq![p[0]].last() == p[0]);
            assert(escaped(Seq::<char>::empty()) == Seq::<char>::empty());
        }
        crate::xml::lemma_escaped_concat(p.drop_last(), seq![p.last()]);
        assert(p.drop_last() + seq![p.last()] =~= p);
        assert(escaped(seq![p.last()]) =~= crate::xml::esc_char(p.last())) by {
            assert(seq![p.last()].drop_last() =~= Seq::<char>::empty());
            assert(seq![p.last()].last() == p.last());
            assert(escaped(Seq::<char>::empty()) == Seq::<char>::empty());
        }
        crate::xml::lemma_entity_chars();
        assert(e[0] == crate::xml::esc_char(p[0])[0]);
        let lc = crate::xml::esc_char(p.last());
        assert(e.last() == lc[lc.len() - 1]);
    }
    lemma_trim_id(e);
    crate::xml::lemma_escape_roundtrip(p);
}

/// Builds the `content.xml` of a document made of `paragraphs`.
pub fn odt_content_xml(paragraphs: &[String]) -> (r: String)
    ensures
        r@ == odt_content(strs(paragraphs@)),
{
    let mut out: Vec<char> = Vec::new();
    push_str(
        &mut out,
        "<?xml version=\"1.0\" encoding=\"UTF-8\"?>\n\
         <office:document-content \
           xmlns:office=\"urn:oasis:names:tc:opendocument:xmlns:office:1.0\" \
           xmlns:text=\"urn:oasis:names:tc:opendocument:xmlns:text:1.0\" \
           office:version=\"1.3\">\
         <office:automatic-styles/>\
         <office:body><office:text>",
    );
    let ghost ps = strs(paragraphs@);
    for k in 0..paragraphs.len()
        invariant
            ps == strs(paragraphs@),
            out@ == content_head() + para_elements(ps.take(k as int)),
    {
        assert(ps.take(k + 1).drop_last() =~= ps.take(k as int));
        assert(ps[k as int] == paragraphs@[k as int]@);
        push_str(&mut out, "<text:p text:style-name=\"Standard\">");
        let e = xml_escape(paragraphs[k].as_str());
        push_str(&mut out, e.as_str());
        push_str(&mut out, "</text:p>");
        assert(out@ =~= content_head() + para_elements(ps.take(k + 1)));
    }
    assert(ps.take(paragraphs@.len() as int) =~= ps);
    push_str(&mut out, "</office:text></office:body></office:document-content>");
    string_of(out.as_slice())
}


// ───────────────────────────── reading a built body back ───────────────────

/// Whether an ODT paragraph or heading tag (`<t…`) could start at `k`.
pub open spec fn text_tag_at(s: Seq<char>, k: int) -> bool {
    s[k] == '<' && k + 1 < s.len() && s[k + 1] == 't'
}

/// No `<` in `s` is followed by `t`.
pub open spec fn text_tag_free(s: Seq<char>) -> bool {
    forall|k: int| 0 <= k < s.len() && #[trigger] s[k] == '<' ==> k + 1 < s.len() && s[k + 1] != 't'
}

proof fn lemma_frame_free()
    ensures
        text_tag_free(content_head()),
        text_tag_free(content_tail()),
{
    reveal_strlit("<?xml version=\"1.0\" encoding=\"UTF-8\"?>\n\
     <office:document-content \
       xmlns:office=\"urn:oasis:names:tc:opendocument:xmlns:office:1.0\" \
       xmlns:text=\"urn:oasis:names:tc:opendocument:xmlns:text:1.0\" \
       office:version=\"1.3\">\
     <office:automatic-styles/>\
     <office:body><office:text>");
    reveal_strlit("</office:text></office:body></office:document-content>");
}

proof fn lemma_odt_names()
    ensures
        "<text:p"@ == seq!['<', 't', 'e', 'x', 't', ':', 'p'],
        "<text:h"@ == seq!['<', 't', 'e', 'x', 't', ':', 'h'],
        "</text:p>"@ == seq!['<', '/', 't', 'e', 'x', 't', ':', 'p', '>'],
        "</text:h>"@ == seq!['<', '/', 't', 'e', 'x', 't', ':', 'h', '>'],
{
    reveal_strlit("<text:p");
    reveal_strlit("<text:h");
    reveal_strlit("</text:p>");
    reveal_strlit("</text:h>");
    assert("<text:p"@ =~= seq!['<', 't', 'e', 'x', 't', ':', 'p']);
    assert("<text:h"@ =~= seq!['<', 't', 'e', 'x', 't', ':', 'h']);
    assert("</text:p>"@ =~= seq!['<', '/', 't', 'e', 'x', 't', ':', 'p', '>']);
    assert("</text:h>"@ =~= seq!['<', '/', 't', 'e', 'x', 't', ':', 'h', '>']);
}

/// No paragraph or heading starts where no tag `<t…` does.
proof fn lemma_no_para_at(s: Seq<char>, i: int)
    requires
        0 <= i < s.len(),
        !text_tag_at(s, i),
    ensures
        element_at(s, i, odt_para_opens(), odt_para_closes(), true) is None,
{
    lemma_odt_names();
    let opens = odt_para_opens();
    let tail1 = opens.drop_first();
    let tail2 = tail1.drop_first();
    assert(opens[0] == seq!['<', 't', 'e', 'x', 't', ':', 'p']);
    assert(tail1[0] == seq!['<', 't', 'e', 'x', 't', ':', 'h']);
    assert(tail2.len() == 0);
    if occurs_at(s, opens[0], i) {
        assert(s.subrange(i, i + 7)[0] == '<');
        assert(s.subrange(i, i + 7)[1] == 't');
        assert(s[i] == s.subrange(i, i + 7)[0]);
        assert(s[i + 1] == s.subrange(i, i + 7)[1]);
        assert(false);
    }
    if occurs_at(s, tail1[0], i) {
        assert(s.subrange(i, i + 7)[0] == '<');
        assert(s.subrange(i, i + 7)[1] == 't');
        assert(s[i] == s.subrange(i, i + 7)[0]);
        assert(s[i + 1] == s.subrange(i, i + 7)[1]);
        assert(false);
    }
    assert(xml::name_end(s, i, tail2) is None);
    assert(xml::name_end(s, i, tail1) is None);
    assert(xml::name_end(s, i, opens) is None);
}

/// Scanning over a stretch with no tag `<t…` finds nothing in it.
proof fn lemma_skip_plain_stretch(s: Seq<char>, i: int, j: int)
    requires
        0 <= i <= j <= s.len(),
        forall|k: int| i <= k < j ==> !#[trigger] text_tag_at(s, k),
    ensures
        elements_from(s, i, odt_para_opens(), odt_para_closes(), true) == elements_from(
            s,
            j,
            odt_para_opens(),
            odt_para_closes(),
            true,
        ),
    decreases j - i,
{
    if i < j {
        assert(!text_tag_at(s, i));
        lemma_no_para_at(s, i);
        lemma_skip_plain_stretch(s, i + 1, j);
    }
}

/// The first closing tag is not before a stretch with no `<`.
proof fn lemma_first_close_skip(s: Seq<char>, i: int, j: int)
    requires
        0 <= i <= j < s.len(),
        forall|k: int| i <= k < j ==> #[trigger] s[k] != '<',
    ensures
        xml::first_close(s, i, odt_para_closes()) == xml::first_close(s, j, odt_para_closes()),
    decreases j - i,
{
    if i < j {
        lemma_odt_names();
        let closes = odt_para_closes();
        let tail1 = closes.drop_first();
        let tail2 = tail1.drop_first();
        assert(closes[0] == seq!['<', '/', 't', 'e', 'x', 't', ':', 'p', '>']);
        assert(tail1[0] == seq!['<', '/', 't', 'e', 'x', 't', ':', 'h', '>']);
        assert(tail2.len() == 0);
        if occurs_at(s, closes[0], i) {
            assert(s.subrange(i, i + 9)[0] == '<');
            assert(s[i] == s.subrange(i, i + 9)[0]);
            assert(false);
        }
        if occurs_at(s, tail1[0], i) {
            assert(s.subrange(i, i + 9)[0] == '<');
            assert(s[i] == s.subrange(i, i + 9)[0]);
            assert(false);
        }
        assert(xml::close_len(s, i, tail2) is None);
        assert(xml::close_len(s, i, tail1) is None);
        assert(xml::close_len(s, i, closes) is None);
        lemma_first_close_skip(s, i + 1, j);
    }
}

/// A built paragraph element is found whole where it stands.
proof fn lemma_para_found(s: Seq<char>, i: int, p: Seq<char>)
    requires
        0 <= i,
        i + para_element(p).len() <= s.len(),
        s.subrange(i, i + para_element(p).len()) == para_element(p),
    ensures
        element_at(s, i, odt_para_opens(), odt_para_closes(), true) == Some(
            (
                i + para_open().len(),
                i + para_open().len() + escaped(p).len(),
                i + para_element(p).len(),
            ),
        ),
{
    lemma_para_tags();
    lemma_odt_names();
    lemma_escaped_no_brackets(p);
    let open = para_open();
    let e = escaped(p);
    let n = para_element(p).len() as int;
    let o = i + open.len();
    let c = o + e.len();
    assert(para_element(p) == open + e + "</text:p>"@);
    assert forall|k: int| 0 <= k < n implies #[trigger] s[i + k] == para_element(p)[k] by {
        assert(s.subrange(i, i + n)[k] == s[i + k]);
    }
    // The name.
    let opens = odt_para_opens();
    assert forall|k: int| 0 <= k < 7 implies #[trigger] s.subrange(i, i + 7)[k] == opens[0][k] by {
        assert(s[i + k] == para_element(p)[k]);
        assert(para_element(p)[k] == open[k]);
    }
    assert(s.subrange(i, i + 7) =~= opens[0]);
    assert(xml::name_end(s, i, opens) == Some(i + 7));
    // The opening tag's attributes, up to its `>`.
    assert(s[i + 7] == open[7]);
    assert forall|k: int| i + 8 <= k < o - 1 implies #[trigger] s[k] != '>' by {
        assert(s[i + (k - i)] == para_element(p)[k - i]);
        assert(para_element(p)[k - i] == open[k - i]);
    }
    assert(s[o - 1] == para_element(p)[open.len() - 1]);
    lemma_next_gt_at(s, i + 8, o - 1);
    assert(xml::open_end(s, i + 7) == Some(o));
    // The text, then the closing tag.
    assert forall|k: int| o <= k < c implies #[trigger] s[k] != '<' by {
        assert(s[i + (k - i)] == para_element(p)[k - i]);
        assert(para_element(p)[k - i] == e[k - o]);
    }
    lemma_first_close_skip(s, o, c);
    let closes = odt_para_closes();
    assert forall|k: int| 0 <= k < 9 implies #[trigger] s.subrange(c, c + 9)[k] == closes[0][k] by {
        assert(s[i + (c + k - i)] == para_element(p)[c + k - i]);
        assert(para_element(p)[c + k - i] == "</text:p>"@[k]);
    }
    assert(s.subrange(c, c + 9) =~= closes[0]);
    assert(xml::close_len(s, c, closes) == Some(9int));
    assert(xml::first_close(s, c, closes) == Some((c, c + 9)));
    assert(xml::paired_at(s, i, opens, closes) == Some((o, c, c + 9)));
}

proof fn lemma_para_elements_concat(a: Seq<Seq<char>>, b: Seq<Seq<char>>)
    ensures
        para_elements(a + b) == para_elements(a) + para_elements(b),
    decreases b.len(),
{
    if b.len() == 0 {
        assert(a + b =~= a);
        assert(para_elements(a) + para_elements(b) =~= para_elements(a));
    } else {
        lemma_para_elements_concat(a, b.drop_last());
        assert((a + b).drop_last() =~= a + b.drop_last());
        assert((a + b).last() == b.last());
    }
}

/// Where the `k`-th paragraph of a built body starts.
pub open spec fn para_offset(ps: Seq<Seq<char>>, k: int) -> int {
    (content_head().len() + para_elements(ps.take(k)).len()) as int
}

proof fn lemma_para_slot(ps: Seq<Seq<char>>, k: int)
    requires
        0 <= k < ps.len(),
    ensures
        para_offset(ps, k + 1) == para_offset(ps, k) + para_element(ps[k]).len(),
        para_offset(ps, k + 1) <= para_offset(ps, ps.len() as int),
        odt_content(ps).subrange(para_offset(ps, k), para_offset(ps, k + 1)) == para_element(ps[k]),
        para_offset(ps, ps.len() as int) + content_tail().len() == odt_content(ps).len(),
{
    let s = odt_content(ps);
    assert(ps.take(k + 1).drop_last() =~= ps.take(k));
    assert(ps.take(k + 1).last() == ps[k]);
    assert(ps =~= ps.take(k + 1) + ps.skip(k + 1));
    assert(ps.take(ps.len() as int) =~= ps);
    lemma_para_elements_concat(ps.take(k + 1), ps.skip(k + 1));
    let pre = content_head() + para_elements(ps.take(k));
    assert(s =~= pre + para_element(ps[k]) + (para_elements(ps.skip(k + 1)) + content_tail()));
    assert(s.subrange(pre.len() as int, (pre.len() + para_element(ps[k]).len()) as int) =~= para_element(ps[k]));
}

/// From the `k`-th paragraph on, a built body yields exactly its paragraphs.
proof fn lemma_paras_from(ps: Seq<Seq<char>>, k: int)
    requires
        0 <= k <= ps.len(),
    ensures
        ({
            let ms = elements_from(odt_content(ps), para_offset(ps, k), odt_para_opens(), odt_para_closes(), true);
            &&& ms.len() == ps.len() - k
            &&& forall|j: int|
                0 <= j < ms.len() ==> (#[trigger] ms[j]).0 == para_offset(ps, k + j) && ms[j].3
                    == para_offset(ps, k + j + 1)
        }),
    decreases ps.len() - k,
{
    let s = odt_content(ps);
    let opens = odt_para_opens();
    let closes = odt_para_closes();
    if k == ps.len() {
        // Only the closing frame is left.
        lemma_frame_free();
        let t = content_tail();
        let start = para_offset(ps, k);
        assert(ps.take(k) =~= ps);
        assert(s =~= (content_head() + para_elements(ps)) + t);
        assert forall|q: int| start <= q < s.len() implies !#[trigger] text_tag_at(s, q) by {
            assert(s[q] == t[q - start]);
            if s[q] == '<' {
                assert(s[q + 1] == t[q + 1 - start]);
            }
        }
        lemma_skip_plain_stretch(s, start, s.len() as int);
    } else {
        lemma_para_slot(ps, k);
        let i = para_offset(ps, k);
        let p = ps[k];
        lemma_para_found(s, i, p);
        lemma_paras_from(ps, k + 1);
        let rest = elements_from(s, para_offset(ps, k + 1), opens, closes, true);
        let ms = elements_from(s, i, opens, closes, true);
        lemma_para_tags();
        assert(para_element(p).len() > 0);
        assert(i + para_element(p).len() == para_offset(ps, k + 1));
        assert(i < s.len());
        let m = element_at(s, i, opens, closes, true).unwrap();
        assert(i < m.2 <= s.len());
        assert(ms == seq![(i, m.0, m.1, m.2)] + elements_from(s, m.2, opens, closes, true));
        assert(ms == seq![(i, i + para_open().len(), i + para_open().len() + escaped(p).len(), i + para_element(p).len())] + rest);
        assert forall|j: int| 0 <= j < ms.len() implies (#[trigger] ms[j]).0 == para_offset(ps, k + j) && ms[j].3
            == para_offset(ps, k + j + 1) by {
            if j > 0 {
                assert(ms[j] == rest[j - 1]);
                assert(k + 1 + (j - 1) == k + j);
            }
        }
    }
}

/// A document built from paragraphs reads back as those paragraphs, when
/// none holds an entity of its own (`&lt;`, `&gt;`, `&quot;`, `&apos;`) or
/// surrounding whitespace.
pub proof fn lemma_document_roundtrip(ps: Seq<Seq<char>>)
    requires
        forall|k: int| 0 <= k < ps.len() ==> crate::xml::entity_free(#[trigger] ps[k]) && trim(ps[k]) == ps[k],
    ensures
        odt_texts(odt_content(ps)) == ps,
{
    let s = odt_content(ps);
    let opens = odt_para_opens();
    let closes = odt_para_closes();
    // The opening frame holds no paragraph.
    lemma_frame_free();
    let h = content_head();
    assert(ps.take(0) =~= Seq::<Seq<char>>::empty());
    assert(para_offset(ps, 0) == h.len());
    assert(s =~= h + (para_elements(ps) + content_tail()));
    assert(s.len() > h.len()) by {
        lemma_para_tags();
        reveal_strlit("</office:text></office:body></office:document-content>");
    }
    assert forall|q: int| 0 <= q < h.len() implies !#[trigger] text_tag_at(s, q) by {
        assert(s[q] == h[q]);
        if s[q] == '<' {
            assert(s[q + 1] == h[q + 1]);
        }
    }
    lemma_skip_plain_stretch(s, 0, h.len() as int);
    lemma_paras_from(ps, 0);
    let ms = odt_paras(s);
    assert forall|j: int| 0 <= j < ps.len() implies #[trigger] odt_texts(s)[j] == ps[j] by {
        lemma_para_slot(ps, j);
        assert(ms[j].0 == para_offset(ps, j));
        assert(ms[j].3 == para_offset(ps, j + 1));
        lemma_paragraph_roundtrip(ps[j]);
    }
    assert(odt_texts(s) =~= ps);
}

} // verus!

//! Token budgeting helpers and splitting of long texts into translatable chunks.
//!
//! The floating-point parts of token budgeting (chars-per-token blending and
//! ratio scaling) are not here; this module holds the integer logic they rest on.
use vstd::prelude::*;
use crate::text::{chars_of, copy_range, string_of};

verus! {

broadcast use vstd::string::group_string_axioms;

/// Tokens reserved for the system prompt and chat-format special tokens.
pub const OVERHEAD_TOKENS: usize = 500;

/// Number of leading characters sampled to estimate the script profile.
pub const SAMPLE_CHARS: usize = 1000;

/// A single source-text segment to be translated.
pub struct Chunk {
    pub text: String,
}

// ───────────────────────────── script detection ────────────────────────────

/// CJK unified ideographs, extension blocks, and kana/hangul.
pub open spec fn cjk(c: char) -> bool {
    ||| ('\u{3040}' <= c && c <= '\u{30FF}')
    ||| ('\u{3400}' <= c && c <= '\u{4DBF}')
    ||| ('\u{4E00}' <= c && c <= '\u{9FFF}')
    ||| ('\u{AC00}' <= c && c <= '\u{D7AF}')
    ||| ('\u{F900}' <= c && c <= '\u{FAFF}')
}

/// Returns true for CJK unified ideographs, extension blocks, and kana/hangul.
pub fn is_cjk(c: char) -> (r: bool)
    ensures
        r == cjk(c),
{
    ('\u{3040}' <= c && c <= '\u{30FF}') || ('\u{3400}' <= c && c <= '\u{4DBF}') || ('\u{4E00}'
        <= c && c <= '\u{9FFF}') || ('\u{AC00}' <= c && c <= '\u{D7AF}') || ('\u{F900}' <= c && c
        <= '\u{FAFF}')
}

/// Number of CJK characters in `s`.
pub open spec fn count_cjk(s: Seq<char>) -> nat
    decreases s.len(),
{
    if s.len() == 0 {
        0
    } else {
        count_cjk(s.drop_last()) + if cjk(s.last()) {
            1nat
        } else {
            0nat
        }
    }
}

/// The sample used to estimate the chars-per-token ratio of `text`:
/// returns `(cjk_count, sample_len)` for the first 1000 characters.
pub fn cjk_sample_counts(text: &str) -> (r: (usize, usize))
    ensures
        r.1 == if text@.len() < SAMPLE_CHARS {
            text@.len()
        } else {
            SAMPLE_CHARS as nat
        },
        r.0 == count_cjk(text@.take(r.1 as int)),
        r.0 <= r.1,
{
    let v = chars_of(text);
    let n = if v.len() < SAMPLE_CHARS {
        v.len()
    } else {
        SAMPLE_CHARS
    };
    let mut count: usize = 0;
    let mut i: usize = 0;
    while i < n
        invariant
            n <= v@.len(),
            i <= n,
            v@ == text@,
            count == count_cjk(v@.take(i as int)),
            count <= i,
        decreases n - i,
    {
        assert(v@.take(i + 1).drop_last() =~= v@.take(i as int));
        if is_cjk(v[i]) {
            count = count + 1;
        }
        i = i + 1;
    }
    (count, n)
}

// ───────────────────────────── context sizes ───────────────────────────────

/// Value of a character `'0'..='9'`.
pub open spec fn digit_val(c: char) -> nat {
    ((c as int) - ('0' as int)) as nat
}

pub open spec fn is_digit(c: char) -> bool {
    '0' <= c && c <= '9'
}

/// Decimal value of a string of ASCII digits.
pub open spec fn dec_val(s: Seq<char>) -> nat
    decreases s.len(),
{
    if s.len() == 0 {
        0
    } else {
        dec_val(s.drop_last()) * 10 + digit_val(s.last())
    }
}

pub open spec fn all_digits(s: Seq<char>) -> bool {
    forall|i: int| 0 <= i < s.len() ==> is_digit(#[trigger] s[i])
}

/// `s.parse::<usize>()`: an optional `'+'`, then one or more ASCII digits
/// whose value fits in a `usize`.
pub open spec fn parse_usize(s: Seq<char>) -> Option<usize> {
    let d = if s.len() > 0 && s[0] == '+' {
        s.drop_first()
    } else {
        s
    };
    if d.len() > 0 && all_digits(d) && dec_val(d) <= usize::MAX {
        Some(dec_val(d) as usize)
    } else {
        None
    }
}

/// Parses the digits `v[lo..hi]` (no sign) as a `usize`.
fn parse_digits(v: &[char], lo: usize, hi: usize) -> (r: Option<usize>)
    requires
        lo <= hi <= v@.len(),
    ensures
        ({
            let d = v@.subrange(lo as int, hi as int);
            r == if d.len() > 0 && all_digits(d) && dec_val(d) <= usize::MAX {
                Some(dec_val(d) as usize)
            } else {
                None::<usize>
            }
        }),
{
    let ghost d = v@.subrange(lo as int, hi as int);
    if lo == hi {
        return None;
    }
    let mut val: usize = 0;
    let mut overflow = false;
    let mut i = lo;
    while i < hi
        invariant
            lo <= i <= hi <= v@.len(),
            d == v@.subrange(lo as int, hi as int),
            all_digits(v@.subrange(lo as int, i as int)),
            !overflow ==> val == dec_val(v@.subrange(lo as int, i as int)),
            overflow ==> dec_val(v@.subrange(lo as int, i as int)) > usize::MAX,
        decreases hi - i,
    {
        let c = v[i];
        let ghost pre = v@.subrange(lo as int, i as int);
        let ghost nxt = v@.subrange(lo as int, i + 1);
        assert(nxt.drop_last() =~= pre);
        if !('0' <= c && c <= '9') {
            assert(!is_digit(d[i - lo]));
            return None;
        }
        assert(all_digits(nxt)) by {
            assert forall|k: int| 0 <= k < nxt.len() implies is_digit(#[trigger] nxt[k]) by {
                if k < pre.len() {
                    assert(nxt[k] == pre[k]);
                }
            }
        }
        let dg = (c as u32 - '0' as u32) as usize;
        assert(dg == digit_val(c));
        if overflow {
            assert(dec_val(nxt) >= dec_val(pre)) by (nonlinear_arith)
                requires
                    dec_val(nxt) == dec_val(pre) * 10 + digit_val(c),
            ;
        } else if val > (usize::MAX - dg) / 10 {
            overflow = true;
            assert(dec_val(nxt) > usize::MAX) by (nonlinear_arith)
                requires
                    dec_val(nxt) == val * 10 + dg,
                    val > (usize::MAX - dg) / 10,
                    dg <= 9,
            ;
        } else {
            assert(val * 10 + dg <= usize::MAX) by (nonlinear_arith)
                requires
                    val <= (usize::MAX - dg) / 10,
                    dg <= 9,
            ;
            val = val * 10 + dg;
        }
        i = i + 1;
    }
    if overflow {
        None
    } else {
        Some(val)
    }
}

/// Parses `s` as `str::parse::<usize>` does.
pub fn parse_usize_chars(v: &[char]) -> (r: Option<usize>)
    ensures
        r == parse_usize(v@),
{
    if v.len() > 0 && v[0] == '+' {
        let r = parse_digits(v, 1, v.len());
        assert(v@.subrange(1, v@.len() as int) =~= v@.drop_first());
        r
    } else {
        let r = parse_digits(v, 0, v.len());
        assert(v@.subrange(0, v@.len() as int) =~= v@);
        r
    }
}

/// Index of the first non-digit in `s` at or after `i`, or -1.
pub open spec fn first_non_digit(s: Seq<char>, i: int) -> int
    decreases s.len() + 1 - i,
{
    if i < 0 || i >= s.len() {
        -1
    } else if !is_digit(s[i]) {
        i
    } else {
        first_non_digit(s, i + 1)
    }
}

pub proof fn lemma_first_non_digit(s: Seq<char>, i: int)
    requires
        0 <= i,
    ensures
        first_non_digit(s, i) == -1 || (i <= first_non_digit(s, i) < s.len() && !is_digit(
            s[first_non_digit(s, i)],
        )),
        forall|k: int|
            i <= k < s.len() && (first_non_digit(s, i) == -1 || k < first_non_digit(s, i))
                ==> is_digit(#[trigger] s[k]),
    decreases s.len() + 1 - i,
{
    if i < s.len() && is_digit(s[i]) {
        lemma_first_non_digit(s, i + 1);
    }
}

/// `s.split(|c| !c.is_ascii_digit())`.
#[verifier::opaque]
pub open spec fn digit_pieces(s: Seq<char>) -> Seq<Seq<char>>
    decreases s.len(),
{
    let i = first_non_digit(s, 0);
    if i < 0 {
        seq![s]
    } else {
        proof {
            lemma_first_non_digit(s, 0);
        }
        seq![s.take(i)] + digit_pieces(s.skip(i + 1))
    }
}

/// The last piece that parses to a size of at least 1024 tokens.
pub open spec fn last_context_size(pieces: Seq<Seq<char>>) -> Option<usize>
    decreases pieces.len(),
{
    if pieces.len() == 0 {
        None
    } else {
        match parse_usize(pieces.last()) {
            Some(n) if n >= 1024 => Some(n),
            _ => last_context_size(pieces.drop_last()),
        }
    }
}

/// Context size encoded in a model ID, or the default.
pub open spec fn model_context_size(model_id: Seq<char>, default_context_size: usize) -> usize {
    match last_context_size(digit_pieces(model_id)) {
        Some(n) => n,
        None => default_context_size,
    }
}

fn first_non_digit_from(v: &[char], from: usize) -> (r: Option<usize>)
    requires
        from <= v@.len(),
    ensures
        match r {
            Some(k) => first_non_digit(v@, from as int) == k,
            None => first_non_digit(v@, from as int) == -1,
        },
{
    let mut i = from;
    while i < v.len()
        invariant
            from <= i <= v@.len(),
            first_non_digit(v@, i as int) == first_non_digit(v@, from as int),
        decreases v@.len() - i,
    {
        if !('0' <= v[i] && v[i] <= '9') {
            return Some(i);
        }
        i = i + 1;
    }
    None
}

pub proof fn lemma_first_non_digit_skip(s: Seq<char>, st: int, i: int)
    requires
        0 <= st <= s.len(),
        0 <= i,
    ensures
        first_non_digit(s.skip(st), i) == if first_non_digit(s, st + i) == -1 {
            -1
        } else {
            first_non_digit(s, st + i) - st
        },
    decreases s.len() + 1 - st - i,
{
    let t = s.skip(st);
    if i < t.len() {
        assert(t[i] == s[st + i]);
        if is_digit(t[i]) {
            lemma_first_non_digit_skip(s, st, i + 1);
        }
    }
}

/// The pieces of `s` delimited by the index pairs in `b`.
pub open spec fn pieces_of(s: Seq<char>, b: Seq<(usize, usize)>) -> Seq<Seq<char>> {
    Seq::new(b.len(), |k: int| s.subrange(b[k].0 as int, b[k].1 as int))
}

/// Bounds of the pieces of `v` between non-digit characters.
fn digit_run_bounds(v: &[char]) -> (b: Vec<(usize, usize)>)
    ensures
        forall|k: int| 0 <= k < b@.len() ==> #[trigger] b@[k].0 <= b@[k].1 <= v@.len(),
        forall|k: int| 0 <= k < b@.len() ==> all_digits(#[trigger] pieces_of(v@, b@)[k]),
        pieces_of(v@, b@) == digit_pieces(v@),
{
    reveal(digit_pieces);
    let n = v.len();
    let mut b: Vec<(usize, usize)> = Vec::new();
    let mut st: usize = 0;
    assert(v@.skip(0) =~= v@);
    assert(pieces_of(v@, b@) =~= Seq::<Seq<char>>::empty());
    loop
        invariant_except_break
            n == v@.len(),
            st <= n,
            forall|k: int| 0 <= k < b@.len() ==> #[trigger] b@[k].0 <= b@[k].1 <= n,
            forall|k: int| 0 <= k < b@.len() ==> all_digits(#[trigger] pieces_of(v@, b@)[k]),
            pieces_of(v@, b@) + digit_pieces(v@.skip(st as int)) == digit_pieces(v@),
        ensures
            forall|k: int| 0 <= k < b@.len() ==> #[trigger] b@[k].0 <= b@[k].1 <= n,
            forall|k: int| 0 <= k < b@.len() ==> all_digits(#[trigger] pieces_of(v@, b@)[k]),
            pieces_of(v@, b@) == digit_pieces(v@),
        decreases n - st,
    {
        let ghost t = v@.skip(st as int);
        let ghost old_pieces = pieces_of(v@, b@);
        proof {
            reveal(digit_pieces);
            lemma_first_non_digit_skip(v@, st as int, 0);
            lemma_first_non_digit(v@, st as int);
        }
        let (end, last) = match first_non_digit_from(v, st) {
            None => (n, true),
            Some(k) => (k, false),
        };
        assert(st <= end <= n);
        let ghost piece = v@.subrange(st as int, end as int);
        assert(all_digits(piece)) by {
            assert forall|i: int| 0 <= i < piece.len() implies is_digit(#[trigger] piece[i]) by {
                assert(piece[i] == v@[st + i]);
            }
        }
        let ghost old_b = b@;
        b.push((st, end));
        assert(b@ == old_b.push((st, end)));
        assert(forall|k: int| 0 <= k < old_b.len() ==> #[trigger] b@[k] == old_b[k]);
        assert forall|k: int| 0 <= k < b@.len() implies #[trigger] b@[k].0 <= b@[k].1 <= n by {
            if k < old_b.len() {
                assert(b@[k] == old_b[k]);
            } else {
                assert(b@[k] == (st, end));
            }
        }
        assert(pieces_of(v@, b@) =~= old_pieces + seq![piece]);
        if last {
            assert(piece =~= t);
            assert(digit_pieces(t) == seq![t]);
            break ;
        }
        assert(piece =~= t.take(end - st));
        assert(t.skip(end - st + 1) =~= v@.skip(end + 1));
        st = end + 1;
    }
    b
}

/// Parse the context window size from a model ID that encodes it as a
/// number, e.g. "gpgpu/qwen3:14b-q5_k_m-32768" → 32768: the last run of
/// ASCII digits whose value is at least 1024. Falls back to
/// `default_context_size` if there is none.
pub fn context_size_from_model_id(model_id: &str, default_context_size: usize) -> (r: usize)
    ensures
        r == model_context_size(model_id@, default_context_size),
{
    let v = chars_of(model_id);
    let b = digit_run_bounds(v.as_slice());
    let ghost pieces = pieces_of(v@, b@);
    let mut j = b.len();
    assert(pieces.take(j as int) =~= pieces);
    while j > 0
        invariant
            j <= b@.len(),
            forall|k: int| 0 <= k < b@.len() ==> #[trigger] b@[k].0 <= b@[k].1 <= v@.len(),
            forall|k: int| 0 <= k < b@.len() ==> all_digits(#[trigger] pieces_of(v@, b@)[k]),
            pieces == pieces_of(v@, b@),
            pieces == digit_pieces(model_id@),
            last_context_size(pieces.take(j as int)) == last_context_size(pieces),
        decreases j,
    {
        let ghost pj = pieces.take(j as int);
        let (lo, hi) = b[j - 1];
        let p = parse_digits(v.as_slice(), lo, hi);
        proof {
            let d = pj.last();
            assert(d == pieces[j - 1]);
            assert(all_digits(pieces[j - 1]));
            if d.len() > 0 {
                assert(is_digit(d[0]));
            }
            assert(parse_usize(d) == p);
        }
        if let Some(val) = p {
            if val >= 1024 {
                assert(last_context_size(pj) == Some(val));
                return val;
            }
        }
        assert(pj.drop_last() =~= pieces.take(j - 1));
        j = j - 1;
    }
    default_context_size
}

/// The token budget left after the fixed overhead, if the context window is
/// larger than the overhead. Callers fall back to 1024 tokens otherwise.
pub fn tokens_after_overhead(context_size: usize) -> (r: Option<usize>)
    ensures
        r == if context_size > OVERHEAD_TOKENS {
            Some((context_size - OVERHEAD_TOKENS) as usize)
        } else {
            None::<usize>
        },
{
    if context_size > OVERHEAD_TOKENS {
        Some(context_size - OVERHEAD_TOKENS)
    } else {
        None
    }
}

// ───────────────────────────── chunking ────────────────────────────────────

/// A paragraph break `"\n\n"` ends at `e` within `c`.
pub open spec fn para_end(c: Seq<char>, e: int) -> bool {
    2 <= e <= c.len() && c[e - 2] == '\n' && c[e - 1] == '\n'
}

/// One of the sentence delimiters `". "`, `".\n"`, `"! "`, `"? "`, `"。"`,
/// `"！"`, `"？"` ends at `e` within `c`.
pub open spec fn sentence_end(c: Seq<char>, e: int) -> bool {
    &&& 1 <= e <= c.len()
    &&& {
        ||| (e >= 2 && c[e - 2] == '.' && (c[e - 1] == ' ' || c[e - 1] == '\n'))
        ||| (e >= 2 && (c[e - 2] == '!' || c[e - 2] == '?') && c[e - 1] == ' ')
        ||| c[e - 1] == '\u{3002}'
        ||| c[e - 1] == '\u{FF01}'
        ||| c[e - 1] == '\u{FF1F}'
    }
}

/// A space ends at `e` within `c`.
pub open spec fn word_end(c: Seq<char>, e: int) -> bool {
    1 <= e <= c.len() && c[e - 1] == ' '
}

/// A boundary of the given kind (0 paragraph, 1 sentence, 2 word) ends at `e`.
pub open spec fn boundary_end(c: Seq<char>, kind: int, e: int) -> bool {
    if kind == 0 {
        para_end(c, e)
    } else if kind == 1 {
        sentence_end(c, e)
    } else {
        word_end(c, e)
    }
}

/// The largest `e' <= e` at which a boundary of `kind` ends, or 0.
pub open spec fn last_end(c: Seq<char>, kind: int, e: int) -> int
    decreases e,
{
    if e <= 0 {
        0
    } else if boundary_end(c, kind, e) {
        e
    } else {
        last_end(c, kind, e - 1)
    }
}

/// Where to cut the candidate prefix `c`: after its last paragraph break,
/// else after its last sentence delimiter, else after its last space, else
/// at its end.
pub open spec fn split_point(c: Seq<char>) -> int {
    let p = last_end(c, 0, c.len() as int);
    let q = last_end(c, 1, c.len() as int);
    let w = last_end(c, 2, c.len() as int);
    if p > 0 {
        p
    } else if q > 0 {
        q
    } else if w > 0 {
        w
    } else {
        c.len() as int
    }
}

pub proof fn lemma_last_end_bounds(c: Seq<char>, kind: int, e: int)
    ensures
        0 <= last_end(c, kind, e),
        e >= 0 ==> last_end(c, kind, e) <= e,
    decreases e,
{
    if e > 0 && !boundary_end(c, kind, e) {
        lemma_last_end_bounds(c, kind, e - 1);
    }
}

pub proof fn lemma_split_point_bounds(c: Seq<char>)
    requires
        c.len() > 0,
    ensures
        0 < split_point(c) <= c.len(),
{
    lemma_last_end_bounds(c, 0, c.len() as int);
    lemma_last_end_bounds(c, 1, c.len() as int);
    lemma_last_end_bounds(c, 2, c.len() as int);
}

/// Segments of `t` of at most `max` characters, cut at the preferred
/// boundaries (`split_at_boundaries`).
pub open spec fn boundary_split(t: Seq<char>, max: int) -> Seq<Seq<char>>
    decreases t.len(),
{
    if t.len() == 0 || max <= 0 {
        Seq::empty()
    } else if t.len() <= max {
        seq![t]
    } else {
        let p = split_point(t.take(max));
        proof {
            lemma_split_point_bounds(t.take(max));
        }
        seq![t.take(p)] + boundary_split(t.skip(p), max)
    }
}

/// The per-chunk budget once 10% is reserved for the overlap prefix.
pub open spec fn chunk_budget(max_chars: int) -> int {
    (max_chars * 9) / 10
}

/// The chunk texts `split_into_chunks` produces.
pub open spec fn chunk_texts(t: Seq<char>, max_chars: int) -> Seq<Seq<char>> {
    if t.len() <= max_chars {
        seq![t]
    } else {
        boundary_split(t, chunk_budget(max_chars))
    }
}

/// The views of the chunk texts.
pub open spec fn chunks_view(cs: Seq<Chunk>) -> Seq<Seq<char>> {
    cs.map_values(|c: Chunk| c.text@)
}

fn boundary_at(v: &[char], lo: usize, len: usize, kind: u8, e: usize) -> (r: bool)
    requires
        lo + len <= v@.len(),
        1 <= e <= len,
    ensures
        r == boundary_end(v@.subrange(lo as int, lo + len), kind as int, e as int),
{
    let ghost c = v@.subrange(lo as int, lo + len);
    let _vlen = v.len();
    let last = v[lo + (e - 1)];
    assert(last == c[e - 1]);
    if kind == 0 {
        e >= 2 && v[lo + (e - 2)] == '\n' && last == '\n'
    } else if kind == 1 {
        (e >= 2 && v[lo + (e - 2)] == '.' && (last == ' ' || last == '\n')) || (e >= 2 && (v[lo
            + (e - 2)] == '!' || v[lo + (e - 2)] == '?') && last == ' ') || last == '\u{3002}' || last
            == '\u{FF01}' || last == '\u{FF1F}'
    } else {
        last == ' '
    }
}

fn last_boundary(v: &[char], lo: usize, len: usize, kind: u8) -> (r: usize)
    requires
        lo + len <= v@.len(),
    ensures
        r == last_end(v@.subrange(lo as int, lo + len), kind as int, len as int),
{
    let ghost c = v@.subrange(lo as int, lo + len);
    let mut e = len;
    while e > 0
        invariant
            lo + len <= v@.len(),
            e <= len,
            c == v@.subrange(lo as int, lo + len),
            last_end(c, kind as int, e as int) == last_end(c, kind as int, len as int),
        decreases e,
    {
        if boundary_at(v, lo, len, kind, e) {
            return e;
        }
        e = e - 1;
    }
    0
}

/// Find the best place to split `v[lo..]`, within its first `max_chars`
/// characters. Prefers paragraph boundaries > sentence boundaries > word
/// boundaries > hard cut.
fn find_split_point(v: &[char], lo: usize, max_chars: usize) -> (r: usize)
    requires
        lo + max_chars <= v@.len(),
    ensures
        r == split_point(v@.subrange(lo as int, lo + max_chars)),
{
    let p = last_boundary(v, lo, max_chars, 0);
    if p > 0 {
        return p;
    }
    let q = last_boundary(v, lo, max_chars, 1);
    if q > 0 {
        return q;
    }
    let w = last_boundary(v, lo, max_chars, 2);
    if w > 0 {
        return w;
    }
    max_chars
}

/// Split `v` into segments of at most `max_chars` characters, preferring
/// splits at paragraph boundaries, then sentence boundaries, then word
/// boundaries.
fn split_at_boundaries(v: &[char], max_chars: usize) -> (r: Vec<Chunk>)
    requires
        max_chars > 0,
    ensures
        chunks_view(r@) == boundary_split(v@, max_chars as int),
{
    let n = v.len();
    let mut result: Vec<Chunk> = Vec::new();
    let mut st: usize = 0;
    assert(v@.skip(0) =~= v@);
    while st < n
        invariant
            n == v@.len(),
            st <= n,
            max_chars > 0,
            chunks_view(result@) + boundary_split(v@.skip(st as int), max_chars as int)
                == boundary_split(v@, max_chars as int),
        decreases n - st,
    {
        let ghost t = v@.skip(st as int);
        let ghost old_view = chunks_view(result@);
        if n - st <= max_chars {
            let rest = copy_range(v, st, n);
            assert(rest@ =~= t);
            result.push(Chunk { text: string_of(rest.as_slice()) });
            assert(chunks_view(result@) =~= old_view + seq![t]);
            assert(v@.skip(n as int) =~= Seq::<char>::empty());
            assert(chunks_view(result@) + boundary_split(v@.skip(n as int), max_chars as int)
                =~= chunks_view(result@));
            return result;
        }
        let p = find_split_point(v, st, max_chars);
        proof {
            assert(t.take(max_chars as int) =~= v@.subrange(st as int, st + max_chars));
            lemma_split_point_bounds(t.take(max_chars as int));
        }
        let piece = copy_range(v, st, st + p);
        assert(piece@ =~= t.take(p as int));
        result.push(Chunk { text: string_of(piece.as_slice()) });
        assert(chunks_view(result@) =~= old_view + seq![t.take(p as int)]);
        assert(t.skip(p as int) =~= v@.skip(st + p));
        st = st + p;
    }
    assert(v@.skip(st as int) =~= Seq::<char>::empty());
    assert(chunks_view(result@) + boundary_split(v@.skip(st as int), max_chars as int)
        =~= chunks_view(result@));
    result
}

/// Split `text` into chunks that fit within `max_chars` characters.
/// A text that already fits stays one chunk; otherwise 10% of the budget is
/// reserved for the translated-overlap prefix added by the caller.
/// (With a budget below 2 characters a longer text cannot be split.)
pub fn split_into_chunks(text: &str, max_chars: usize) -> (r: Vec<Chunk>)
    requires
        text@.len() <= max_chars || max_chars >= 2,
    ensures
        chunks_view(r@) == chunk_texts(text@, max_chars as int),
{
    let v = chars_of(text);
    if v.len() <= max_chars {
        let mut r: Vec<Chunk> = Vec::new();
        r.push(Chunk { text: string_of(v.as_slice()) });
        assert(chunks_view(r@) =~= seq![text@]);
        return r;
    }
    // floor(9 * max_chars / 10), computed without overflow.
    let chunk_budget = (max_chars / 10) * 9 + ((max_chars % 10) * 9) / 10;
    assert(chunk_budget == (max_chars * 9) / 10) by (nonlinear_arith)
        requires
            chunk_budget == (max_chars / 10) * 9 + ((max_chars % 10) * 9) / 10,
    ;
    assert(chunk_budget >= 1) by (nonlinear_arith)
        requires
            chunk_budget == (max_chars * 9) / 10,
            max_chars >= 2,
    ;
    split_at_boundaries(v.as_slice(), chunk_budget)
}

/// Every chunk of `boundary_split` is non-empty and at most `max` long,
/// and the chunks concatenate back to the text.
pub proof fn lemma_boundary_split(t: Seq<char>, max: int)
    requires
        max > 0,
    ensures
        boundary_split(t, max).flatten() == t,
        forall|i: int|
            0 <= i < boundary_split(t, max).len() ==> 0 < (#[trigger] boundary_split(t, max)[i]).len()
                <= max,
    decreases t.len(),
{
    if t.len() == 0 {
    } else if t.len() <= max {
        assert(seq![t].flatten() =~= t) by {
            seq![t].lemma_flatten_one_element();
        }
    } else {
        let p = split_point(t.take(max));
        lemma_split_point_bounds(t.take(max));
        lemma_boundary_split(t.skip(p), max);
        let rest = boundary_split(t.skip(p), max);
        assert(boundary_split(t, max) == seq![t.take(p)] + rest);
        assert((seq![t.take(p)] + rest).drop_first() =~= rest);
        assert((seq![t.take(p)] + rest).flatten() =~= t.take(p) + rest.flatten());
        assert(t.take(p) + t.skip(p) =~= t);
        assert forall|i: int| 0 <= i < boundary_split(t, max).len() implies 0 < (
        #[trigger] boundary_split(t, max)[i]).len() <= max by {
            if i > 0 {
                assert(boundary_split(t, max)[i] == rest[i - 1]);
            }
        }
    }
}

/// Where a chunk cut from the window `w` may end: after the last paragraph
/// break of `w` if it has one; else after its last sentence delimiter; else
/// after its last space; else at the end of `w` (a cut inside a word only
/// when `w` holds no space at all).
pub open spec fn preferred_cut(w: Seq<char>, p: int) -> bool {
    if exists|e: int| #[trigger] para_end(w, e) {
        para_end(w, p) && forall|e: int| p < e ==> !#[trigger] para_end(w, e)
    } else if exists|e: int| #[trigger] sentence_end(w, e) {
        sentence_end(w, p) && forall|e: int| p < e ==> !#[trigger] sentence_end(w, e)
    } else if exists|e: int| #[trigger] word_end(w, e) {
        word_end(w, p) && forall|e: int| p < e ==> !#[trigger] word_end(w, e)
    } else {
        p == w.len()
    }
}

proof fn lemma_last_end_props(c: Seq<char>, kind: int, e: int)
    requires
        e <= c.len(),
    ensures
        last_end(c, kind, e) > 0 ==> boundary_end(c, kind, last_end(c, kind, e)),
        forall|x: int| last_end(c, kind, e) < x <= e ==> !#[trigger] boundary_end(c, kind, x),
    decreases e,
{
    if e > 0 && !boundary_end(c, kind, e) {
        lemma_last_end_props(c, kind, e - 1);
    }
}

/// The cut `split_point` picks is the preferred one.
proof fn lemma_split_point_preferred(c: Seq<char>)
    requires
        c.len() > 0,
    ensures
        preferred_cut(c, split_point(c)),
{
    let n = c.len() as int;
    lemma_last_end_props(c, 0, n);
    lemma_last_end_props(c, 1, n);
    lemma_last_end_props(c, 2, n);
    lemma_last_end_bounds(c, 0, n);
    lemma_last_end_bounds(c, 1, n);
    lemma_last_end_bounds(c, 2, n);
    let p = last_end(c, 0, n);
    let q = last_end(c, 1, n);
    let w = last_end(c, 2, n);
    assert forall|x: int| p < x implies !#[trigger] para_end(c, x) by {
        if x <= n {
            assert(!boundary_end(c, 0, x));
        }
    }
    assert forall|x: int| q < x implies !#[trigger] sentence_end(c, x) by {
        if x <= n {
            assert(!boundary_end(c, 1, x));
        }
    }
    assert forall|x: int| w < x implies !#[trigger] word_end(c, x) by {
        if x <= n {
            assert(!boundary_end(c, 2, x));
        }
    }
    if p > 0 {
        assert(para_end(c, p));
    } else if q > 0 {
        assert(sentence_end(c, q));
    } else if w > 0 {
        assert(word_end(c, w));
    }
}

/// Where chunk `i` starts: the length of the chunks before it.
pub open spec fn chunk_start(cs: Seq<Seq<char>>, i: int) -> int {
    cs.take(i).flatten().len() as int
}

/// Every chunk but the last is the start of the text that remains, cut
/// where `preferred_cut` says within the next `max` characters.
proof fn lemma_boundary_cuts(t: Seq<char>, max: int)
    requires
        max > 0,
    ensures
        forall|i: int|
            0 <= i < boundary_split(t, max).len() - 1 ==> {
                let w = t.skip(chunk_start(boundary_split(t, max), i)).take(max);
                &&& preferred_cut(w, (#[trigger] boundary_split(t, max)[i]).len() as int)
                &&& boundary_split(t, max)[i] == w.take(boundary_split(t, max)[i].len() as int)
            },
    decreases t.len(),
{
    let bs = boundary_split(t, max);
    if t.len() > max {
        let c = t.take(max);
        let p = split_point(c);
        lemma_split_point_bounds(c);
        lemma_split_point_preferred(c);
        let r = t.skip(p);
        lemma_boundary_cuts(r, max);
        let rest = boundary_split(r, max);
        assert(bs == seq![t.take(p)] + rest);
        assert forall|i: int| 0 <= i < bs.len() - 1 implies {
            let w = t.skip(chunk_start(bs, i)).take(max);
            &&& preferred_cut(w, (#[trigger] bs[i]).len() as int)
            &&& bs[i] == w.take(bs[i].len() as int)
        } by {
            if i == 0 {
                assert(bs.take(0) =~= Seq::<Seq<char>>::empty());
                assert(t.skip(0) =~= t);
                assert(bs[0] == t.take(p));
                assert(c.take(p) =~= t.take(p));
            } else {
                assert(bs[i] == rest[i - 1]);
                assert(bs.take(i) =~= seq![t.take(p)] + rest.take(i - 1));
                vstd::seq_lib::lemma_flatten_concat(seq![t.take(p)], rest.take(i - 1));
                seq![t.take(p)].lemma_flatten_one_element();
                assert(chunk_start(bs, i) == p + chunk_start(rest, i - 1));
                lemma_boundary_split(r, max);
                assert(rest =~= rest.take(i - 1) + rest.skip(i - 1));
                vstd::seq_lib::lemma_flatten_concat(rest.take(i - 1), rest.skip(i - 1));
                assert(chunk_start(rest, i - 1) <= r.len());
                assert(t.skip(chunk_start(bs, i)) =~= r.skip(chunk_start(rest, i - 1)));
            }
        }
    }
}

/// Each chunk but the last is the start of the remaining text, cut after the
/// last paragraph break within the chunk budget if there is one, else after
/// the last sentence delimiter, else after the last space, else at the full
/// budget.
pub proof fn lemma_chunk_cuts(text: Seq<char>, max_chars: int)
    requires
        text.len() <= max_chars || max_chars >= 2,
    ensures
        forall|i: int|
            0 <= i < chunk_texts(text, max_chars).len() - 1 ==> {
                let w = text.skip(chunk_start(chunk_texts(text, max_chars), i)).take(chunk_budget(max_chars));
                &&& preferred_cut(w, (#[trigger] chunk_texts(text, max_chars)[i]).len() as int)
                &&& chunk_texts(text, max_chars)[i] == w.take(chunk_texts(text, max_chars)[i].len() as int)
            },
{
    if text.len() > max_chars {
        assert(chunk_budget(max_chars) >= 1) by (nonlinear_arith)
            requires
                max_chars >= 2,
        ;
        lemma_boundary_cuts(text, chunk_budget(max_chars));
    }
}

/// Chunking is lossless: the chunks of `text` concatenate back to `text`.
pub proof fn lemma_chunks_lossless(text: Seq<char>, max_chars: int)
    requires
        text.len() <= max_chars || max_chars >= 2,
    ensures
        chunk_texts(text, max_chars).flatten() == text,
{
    if text.len() <= max_chars {
        seq![text].lemma_flatten_one_element();
    } else {
        assert(chunk_budget(max_chars) >= 1) by (nonlinear_arith)
            requires
                max_chars >= 2,
        ;
        lemma_boundary_split(text, chunk_budget(max_chars));
    }
}

/// Every chunk fits within `max_chars` characters, and a text that needs
/// splitting yields only non-empty chunks.
pub proof fn lemma_chunks_fit(text: Seq<char>, max_chars: int)
    requires
        text.len() <= max_chars || max_chars >= 2,
    ensures
        forall|i: int|
            0 <= i < chunk_texts(text, max_chars).len() ==> (#[trigger] chunk_texts(
                text,
                max_chars,
            )[i]).len() <= max_chars,
        text.len() > max_chars ==> chunk_texts(text, max_chars).len() > 1,
        text.len() > max_chars ==> forall|i: int|
            0 <= i < chunk_texts(text, max_chars).len() ==> (#[trigger] chunk_texts(
                text,
                max_chars,
            )[i]).len() > 0,
{
    if text.len() > max_chars {
        let b = chunk_budget(max_chars);
        assert(1 <= b <= max_chars) by (nonlinear_arith)
            requires
                max_chars >= 2,
                b == (max_chars * 9) / 10,
        ;
        lemma_boundary_split(text, b);
        let cs = boundary_split(text, b);
        assert(cs.len() > 1) by {
            lemma_split_point_bounds(text.take(b));
            let p = split_point(text.take(b));
            assert(cs == seq![text.take(p)] + boundary_split(text.skip(p), b));
            assert(text.skip(p).len() > 0);
        }
    }
}

// ───────────────────────────── sentence overlap ────────────────────────────

/// The sentence end contributed by the character at `j`: after an ASCII
/// `.`/`!`/`?` that is followed by a space, the end lies after the space;
/// after a CJK `。`/`！`/`？` with more text following, right after it.
pub open spec fn end_after(s: Seq<char>, j: int) -> Seq<int> {
    let c = s[j];
    if (c == '.' || c == '!' || c == '?') && j + 1 < s.len() && s[j + 1] == ' ' {
        seq![j + 2]
    } else if (c == '\u{3002}' || c == '\u{FF01}' || c == '\u{FF1F}') && j + 1 < s.len() {
        seq![j + 1]
    } else {
        Seq::empty()
    }
}

/// Sentence ends found among the first `k` characters of `s`.
pub open spec fn sentence_ends(s: Seq<char>, k: int) -> Seq<int>
    decreases k,
{
    if k <= 0 {
        Seq::empty()
    } else {
        sentence_ends(s, k - 1) + end_after(s, k - 1)
    }
}

/// What `last_sentences(text, n)` returns.
pub open spec fn last_sentences_spec(s: Seq<char>, n: int) -> Seq<char> {
    let ends = sentence_ends(s, s.len() as int);
    if ends.len() == 0 {
        if s.len() >= 200 {
            s.skip(s.len() - 200)
        } else {
            s
        }
    } else if ends.len() >= n {
        s.skip(ends[ends.len() - n])
    } else {
        s
    }
}

pub proof fn lemma_sentence_ends_bounds(s: Seq<char>, k: int)
    requires
        0 <= k <= s.len(),
    ensures
        forall|i: int|
            0 <= i < sentence_ends(s, k).len() ==> 0 < #[trigger] sentence_ends(s, k)[i]
                <= s.len(),
    decreases k,
{
    if k > 0 {
        lemma_sentence_ends_bounds(s, k - 1);
        let a = sentence_ends(s, k - 1);
        let b = end_after(s, k - 1);
        assert forall|i: int|
            0 <= i < sentence_ends(s, k).len() implies 0 < #[trigger] sentence_ends(s, k)[i]
            <= s.len() by {
            if i < a.len() {
                assert(sentence_ends(s, k)[i] == a[i]);
            } else {
                assert(sentence_ends(s, k)[i] == b[i - a.len()]);
            }
        }
    }
}

/// A sentence ends at `e` in `s`: right after an ASCII `.`, `!` or `?` and
/// the space that follows it, or right after a CJK `。`, `！` or `？` that
/// more text follows.
pub open spec fn sentence_end_at(s: Seq<char>, e: int) -> bool {
    ||| (2 <= e <= s.len() && (s[e - 2] == '.' || s[e - 2] == '!' || s[e - 2] == '?') && s[e - 1] == ' ')
    ||| (1 <= e < s.len() && (s[e - 1] == '\u{3002}' || s[e - 1] == '\u{FF01}' || s[e - 1] == '\u{FF1F}'))
}

/// The sentence ends found among the first `k` characters are sentence ends,
/// in increasing order, none past `k + 1`; one at `k + 1` follows an ASCII
/// mark at `k - 1`.
proof fn lemma_sentence_ends_sorted(s: Seq<char>, k: int)
    requires
        0 <= k <= s.len(),
    ensures
        forall|i: int|
            0 <= i < sentence_ends(s, k).len() ==> sentence_end_at(s, #[trigger] sentence_ends(s, k)[i])
                && sentence_ends(s, k)[i] <= k + 1 && (sentence_ends(s, k)[i] == k + 1 ==> ((s[k - 1] == '.'
                || s[k - 1] == '!' || s[k - 1] == '?') && s[k] == ' ')),
        forall|i: int, j: int|
            0 <= i < j < sentence_ends(s, k).len() ==> #[trigger] sentence_ends(s, k)[i] < #[trigger] sentence_ends(
                s,
                k,
            )[j],
    decreases k,
{
    if k > 0 {
        lemma_sentence_ends_sorted(s, k - 1);
        let a = sentence_ends(s, k - 1);
        let b = end_after(s, k - 1);
        let all = sentence_ends(s, k);
        assert(all == a + b);
        assert forall|i: int| 0 <= i < all.len() implies sentence_end_at(s, #[trigger] all[i]) && all[i] <= k + 1
            && (all[i] == k + 1 ==> ((s[k - 1] == '.' || s[k - 1] == '!' || s[k - 1] == '?') && s[k] == ' ')) by {
            if i < a.len() {
                assert(all[i] == a[i]);
            } else {
                assert(all[i] == b[i - a.len()]);
            }
        }
        assert forall|i: int, j: int| 0 <= i < j < all.len() implies #[trigger] all[i] < #[trigger] all[j] by {
            if j < a.len() {
                assert(all[i] == a[i] && all[j] == a[j]);
            } else {
                assert(all[j] == b[j - a.len()]);
                assert(all[i] == a[i]);
                assert(b.len() == 1);
                assert(a[i] <= k);
                if a[i] == k {
                    assert(s[k - 1] == ' ');
                }
            }
        }
    }
}

/// Sentence ends shifted by `d`.
pub open spec fn shifted(xs: Seq<int>, d: int) -> Seq<int> {
    xs.map_values(|x: int| x + d)
}

/// The sentence ends of `s` are those before `st`, then those of the text
/// from `st`, shifted.
proof fn lemma_sentence_ends_split(s: Seq<char>, st: int, k: int)
    requires
        0 <= st <= k <= s.len(),
    ensures
        sentence_ends(s, k) == sentence_ends(s, st) + shifted(sentence_ends(s.skip(st), k - st), st),
    decreases k,
{
    let t = s.skip(st);
    if k == st {
        assert(sentence_ends(t, 0) =~= Seq::<int>::empty());
        assert(shifted(Seq::<int>::empty(), st) =~= Seq::<int>::empty());
        assert(sentence_ends(s, st) + Seq::<int>::empty() =~= sentence_ends(s, st));
    } else {
        lemma_sentence_ends_split(s, st, k - 1);
        let j = k - 1;
        assert(t[j - st] == s[j]);
        if j + 1 < s.len() {
            assert(t[j - st + 1] == s[j + 1]);
        }
        assert(shifted(end_after(t, j - st), st) =~= end_after(s, j));
        let x = sentence_ends(t, k - 1 - st);
        assert(sentence_ends(t, k - st) == x + end_after(t, j - st));
        assert(shifted(x + end_after(t, j - st), st) =~= shifted(x, st) + shifted(end_after(t, j - st), st));
        assert(sentence_ends(s, k) =~= sentence_ends(s, st) + shifted(sentence_ends(t, k - st), st));
    }
}

proof fn lemma_sentence_ends_reach(s: Seq<char>, k: int, j: int, e: int)
    requires
        0 <= j < k <= s.len(),
        end_after(s, j) == seq![e],
    ensures
        sentence_ends(s, k).contains(e),
    decreases k,
{
    let a = sentence_ends(s, k - 1);
    let b = end_after(s, k - 1);
    assert(sentence_ends(s, k) == a + b);
    if j == k - 1 {
        assert((a + b)[a.len() as int] == e);
    } else {
        lemma_sentence_ends_reach(s, k - 1, j, e);
        let x = choose|x: int| 0 <= x < a.len() && a[x] == e;
        assert((a + b)[x] == e);
    }
}

/// The sentence ends that the overlap logic finds in `s` are exactly the
/// positions `e` in `1..=s.len()` where a sentence ends, listed once each in
/// increasing order.
pub proof fn lemma_sentence_ends_exact(s: Seq<char>)
    ensures
        forall|i: int|
            0 <= i < sentence_ends(s, s.len() as int).len() ==> 0 < #[trigger] sentence_ends(
                s,
                s.len() as int,
            )[i] <= s.len() && sentence_end_at(s, sentence_ends(s, s.len() as int)[i]),
        forall|i: int, j: int|
            0 <= i < j < sentence_ends(s, s.len() as int).len() ==> #[trigger] sentence_ends(
                s,
                s.len() as int,
            )[i] < #[trigger] sentence_ends(s, s.len() as int)[j],
        forall|e: int|
            0 < e <= s.len() && #[trigger] sentence_end_at(s, e) ==> sentence_ends(
                s,
                s.len() as int,
            ).contains(e),
{
    let len = s.len() as int;
    lemma_sentence_ends_sorted(s, len);
    lemma_sentence_ends_bounds(s, len);
    assert forall|e: int| 0 < e <= s.len() && #[trigger] sentence_end_at(s, e) implies sentence_ends(
        s,
        len,
    ).contains(e) by {
        if 2 <= e <= s.len() && (s[e - 2] == '.' || s[e - 2] == '!' || s[e - 2] == '?') && s[e - 1] == ' ' {
            assert(end_after(s, e - 2) == seq![e]);
            lemma_sentence_ends_reach(s, len, e - 2, e);
        } else {
            assert(end_after(s, e - 1) == seq![e]);
            lemma_sentence_ends_reach(s, len, e - 1, e);
        }
    }
}

/// With at least `n >= 1` sentence ends, the result is the text from one of
/// its sentence ends on, holding exactly `n - 1` sentence ends: the last `n`
/// sentences, no more and no fewer.
pub proof fn lemma_last_sentences_tail(s: Seq<char>, n: int)
    requires
        n >= 1,
        sentence_ends(s, s.len() as int).len() >= n,
    ensures
        exists|st: int| 0 < st <= s.len() && sentence_end_at(s, st) && last_sentences_spec(s, n) == s.skip(st),
        sentence_ends(last_sentences_spec(s, n), last_sentences_spec(s, n).len() as int).len() == n - 1,
        exists|st: int, later: Seq<int>|
            0 < st <= s.len() && sentence_end_at(s, st) && last_sentences_spec(s, n) == s.skip(st)
                && later.len() == n - 1 && (forall|i: int|
                0 <= i < later.len() ==> st < #[trigger] later[i] <= s.len() && sentence_end_at(
                    s,
                    later[i],
                )) && (forall|i: int, j: int|
                0 <= i < j < later.len() ==> #[trigger] later[i] < #[trigger] later[j]) && (forall|
                e: int,
            |
                st < e <= s.len() && #[trigger] sentence_end_at(s, e) ==> later.contains(e)),
{
    let len = s.len() as int;
    let f = sentence_ends(s, len);
    let l = f.len() as int;
    lemma_sentence_ends_sorted(s, len);
    lemma_sentence_ends_bounds(s, len);
    let st = f[l - n];
    assert(sentence_end_at(s, st));
    assert(0 < st <= len);
    let t = s.skip(st);
    lemma_sentence_ends_split(s, st, len);
    let p = sentence_ends(s, st);
    let q = shifted(sentence_ends(t, len - st), st);
    assert(f == p + q);
    lemma_sentence_ends_sorted(s, st);
    lemma_sentence_ends_bounds(t, len - st);
    // Ends before `st` lie at or before it; the others lie after it.
    assert forall|i: int| 0 <= i < p.len() implies #[trigger] p[i] <= st by {
        if p[i] == st + 1 {
            assert(s[st - 1] == '.' || s[st - 1] == '!' || s[st - 1] == '?');
        }
    }
    assert forall|i: int| 0 <= i < q.len() implies #[trigger] q[i] > st by {
        assert(q[i] == sentence_ends(t, len - st)[i] + st);
    }
    assert(l - n < p.len()) by {
        if l - n >= p.len() {
            assert(f[l - n] == q[l - n - p.len()]);
        }
    }
    assert(l - n == p.len() - 1) by {
        if l - n < p.len() - 1 {
            assert(f[l - n] < f[p.len() - 1]);
            assert(f[p.len() - 1] == p[p.len() - 1]);
        }
    }
    assert(last_sentences_spec(s, n) == t);
    assert(t.len() == len - st);
    lemma_sentence_ends_exact(s);
    let later = f.skip(l - n + 1);
    assert forall|i: int| 0 <= i < later.len() implies st < #[trigger] later[i] <= s.len() && sentence_end_at(
        s,
        later[i],
    ) by {
        assert(later[i] == f[l - n + 1 + i]);
    }
    assert forall|i: int, j: int| 0 <= i < j < later.len() implies #[trigger] later[i] < #[trigger] later[j] by {
        assert(later[i] == f[l - n + 1 + i]);
        assert(later[j] == f[l - n + 1 + j]);
    }
    assert forall|e: int| st < e <= s.len() && #[trigger] sentence_end_at(s, e) implies later.contains(e) by {
        let x = choose|x: int| 0 <= x < f.len() && f[x] == e;
        if x <= l - n {
            if x < l - n {
                assert(f[x] < f[l - n]);
            }
        }
        assert(later[x - (l - n + 1)] == e);
    }
    assert(later.len() == n - 1);
    assert(0 < st <= s.len() && sentence_end_at(s, st) && last_sentences_spec(s, n) == s.skip(st)
        && later.len() == n - 1 && (forall|i: int|
        0 <= i < later.len() ==> st < #[trigger] later[i] <= s.len() && sentence_end_at(s, later[i]))
        && (forall|i: int, j: int| 0 <= i < j < later.len() ==> #[trigger] later[i] < #[trigger] later[j])
        && (forall|e: int| st < e <= s.len() && #[trigger] sentence_end_at(s, e) ==> later.contains(e)));
}

/// A text with no sentence end gives its last 200 characters (all of it
/// when shorter); one with some sentence ends, but fewer than `n`, is given
/// back whole.
pub proof fn lemma_last_sentences_fallback(s: Seq<char>, n: int)
    ensures
        (forall|e: int| 0 < e <= s.len() ==> !#[trigger] sentence_end_at(s, e)) ==> last_sentences_spec(
            s,
            n,
        ) == s.skip(if s.len() > 200 {
            s.len() - 200
        } else {
            0
        }),
        (forall|e: int| 0 < e <= s.len() ==> !#[trigger] sentence_end_at(s, e)) ==> last_sentences_spec(
            s,
            n,
        ).len() == if s.len() > 200 {
            200
        } else {
            s.len() as int
        },
        0 < sentence_ends(s, s.len() as int).len() < n ==> last_sentences_spec(s, n) == s,
{
    lemma_sentence_ends_exact(s);
    let f = sentence_ends(s, s.len() as int);
    if forall|e: int| 0 < e <= s.len() ==> !#[trigger] sentence_end_at(s, e) {
        if f.len() > 0 {
            assert(sentence_end_at(s, f[0]));
        }
        assert(s.skip(0) =~= s);
    }
}

/// Extract the last `n` sentences from a (translated) text block: the text
/// after the `n`-th last sentence end, the whole text if it has fewer ends,
/// and its last 200 characters if it has none. ASCII `.`/`!`/`?` count only
/// when followed by a space; CJK `。`/`！`/`？` only when text follows.
pub fn last_sentences(text: &str, n: usize) -> (r: String)
    requires
        n >= 1 || sentence_ends(text@, text@.len() as int).len() == 0,
    ensures
        r@ == last_sentences_spec(text@, n as int),
{
    let v = chars_of(text);
    let len = v.len();
    let mut ends: Vec<usize> = Vec::new();
    let mut j: usize = 0;
    while j < len
        invariant
            len == v@.len(),
            v@ == text@,
            j <= len,
            ends@.len() == sentence_ends(v@, j as int).len(),
            forall|i: int| 0 <= i < ends@.len() ==> #[trigger] ends@[i] as int == sentence_ends(v@, j as int)[i],
        decreases len - j,
    {
        let ghost before = sentence_ends(v@, j as int);
        let c = v[j];
        if (c == '.' || c == '!' || c == '?') && j + 1 < len && v[j + 1] == ' ' {
            ends.push(j + 2);
        } else if (c == '\u{3002}' || c == '\u{FF01}' || c == '\u{FF1F}') && j + 1 < len {
            ends.push(j + 1);
        }
        assert(sentence_ends(v@, j + 1) == before + end_after(v@, j as int));
        j = j + 1;
    }
    proof {
        lemma_sentence_ends_bounds(v@, len as int);
    }
    let ghost es = sentence_ends(v@, len as int);
    if ends.len() == 0 {
        let start = if len >= 200 {
            len - 200
        } else {
            0
        };
        let tail = copy_range(v.as_slice(), start, len);
        assert(tail@ =~= last_sentences_spec(text@, n as int));
        return string_of(tail.as_slice());
    }
    let start = if ends.len() >= n {
        ends[ends.len() - n]
    } else {
        0
    };
    assert(ends@.len() >= n ==> start == es[es.len() - n]);
    let tail = copy_range(v.as_slice(), start, len);
    assert(tail@ =~= last_sentences_spec(text@, n as int));
    string_of(tail.as_slice())
}

} // verus!

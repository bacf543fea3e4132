//! Character-level string utilities shared by the rest of the library.
//!
//! Text is handled as sequences of Unicode scalar values: the view of a
//! `&str` or `String` is its `Seq<char>`, and the functions here work on
//! `Vec<char>` buffers whose views are those sequences.
use vstd::prelude::*;

verus! {

broadcast use vstd::string::group_string_axioms;

// ───────────────────────────── whitespace and trimming ─────────────────────

/// Unicode `White_Space`: the characters that `str::trim` and
/// `str::split_whitespace` treat as whitespace.
pub open spec fn is_ws(c: char) -> bool {
    ||| ('\u{9}' <= c && c <= '\u{d}')
    ||| c == ' '
    ||| c == '\u{85}'
    ||| c == '\u{a0}'
    ||| c == '\u{1680}'
    ||| ('\u{2000}' <= c && c <= '\u{200a}')
    ||| c == '\u{2028}'
    ||| c == '\u{2029}'
    ||| c == '\u{202f}'
    ||| c == '\u{205f}'
    ||| c == '\u{3000}'
}

/// Executable form of [`is_ws`].
pub fn is_whitespace(c: char) -> (r: bool)
    ensures
        r == is_ws(c),
{
    ('\u{9}' <= c && c <= '\u{d}') || c == ' ' || c == '\u{85}' || c == '\u{a0}' || c
        == '\u{1680}' || ('\u{2000}' <= c && c <= '\u{200a}') || c == '\u{2028}' || c
        == '\u{2029}' || c == '\u{202f}' || c == '\u{205f}' || c == '\u{3000}'
}

/// Index of the first non-whitespace character of `s` at or after `i`
/// (or `s.len()`).
pub open spec fn lead_ws(s: Seq<char>, i: int) -> int
    decreases s.len() - i,
{
    if 0 <= i < s.len() && is_ws(s[i]) {
        lead_ws(s, i + 1)
    } else {
        i
    }
}

/// End of `s.take(j)` once trailing whitespace is removed.
pub open spec fn trail_end(s: Seq<char>, j: int) -> int
    decreases j,
{
    if 0 < j <= s.len() && is_ws(s[j - 1]) {
        trail_end(s, j - 1)
    } else {
        j
    }
}

/// `str::trim_start`.
pub open spec fn trim_start(s: Seq<char>) -> Seq<char> {
    s.skip(lead_ws(s, 0))
}

/// `str::trim_end`.
pub open spec fn trim_end(s: Seq<char>) -> Seq<char> {
    s.take(trail_end(s, s.len() as int))
}

/// `str::trim`: leading and trailing whitespace removed.
pub open spec fn trim(s: Seq<char>) -> Seq<char> {
    trim_end(trim_start(s))
}

pub proof fn lemma_lead_ws_bounds(s: Seq<char>, i: int)
    requires
        0 <= i <= s.len(),
    ensures
        i <= lead_ws(s, i) <= s.len(),
        lead_ws(s, i) < s.len() ==> !is_ws(s[lead_ws(s, i)]),
        forall|k: int| i <= k < lead_ws(s, i) ==> is_ws(#[trigger] s[k]),
    decreases s.len() - i,
{
    if i < s.len() && is_ws(s[i]) {
        lemma_lead_ws_bounds(s, i + 1);
    }
}

pub proof fn lemma_trail_end_bounds(s: Seq<char>, j: int)
    requires
        0 <= j <= s.len(),
    ensures
        0 <= trail_end(s, j) <= j,
        trail_end(s, j) > 0 ==> !is_ws(s[trail_end(s, j) - 1]),
        forall|k: int| trail_end(s, j) <= k < j ==> is_ws(#[trigger] s[k]),
    decreases j,
{
    if 0 < j && is_ws(s[j - 1]) {
        lemma_trail_end_bounds(s, j - 1);
    }
}

/// The trimmed text is a stretch of the text, with only whitespace around it.
pub proof fn lemma_trim_stretch(x: Seq<char>) -> (ab: (int, int))
    ensures
        0 <= ab.0 <= ab.1 <= x.len(),
        trim(x) == x.subrange(ab.0, ab.1),
        forall|k: int| 0 <= k < ab.0 ==> is_ws(#[trigger] x[k]),
        forall|k: int| ab.1 <= k < x.len() ==> is_ws(#[trigger] x[k]),
{
    lemma_lead_ws_bounds(x, 0);
    let a = lead_ws(x, 0);
    let t = trim_start(x);
    lemma_trail_end_bounds(t, t.len() as int);
    let b = trail_end(t, t.len() as int);
    assert(trim(x) =~= x.subrange(a, a + b));
    assert forall|k: int| a + b <= k < x.len() implies is_ws(#[trigger] x[k]) by {
        assert(x[k] == t[k - a]);
    }
    (a, a + b)
}

/// The trimmed text neither starts nor ends with whitespace.
pub proof fn lemma_trim_edges(s: Seq<char>)
    ensures
        trim(s).len() > 0 ==> !is_ws(trim(s)[0]) && !is_ws(trim(s).last()),
        trim(s).len() == 0 <==> (forall|k: int| 0 <= k < s.len() ==> is_ws(#[trigger] s[k])),
{
    lemma_lead_ws_bounds(s, 0);
    let t = trim_start(s);
    lemma_trail_end_bounds(t, t.len() as int);
    let a = lead_ws(s, 0);
    if trim(s).len() == 0 {
        assert forall|k: int| 0 <= k < s.len() implies is_ws(#[trigger] s[k]) by {
            if k >= a {
                assert(s[k] == t[k - a]);
            }
        }
    }
    if (forall|k: int| 0 <= k < s.len() ==> is_ws(#[trigger] s[k])) {
        if a < s.len() {
            assert(is_ws(s[a]));
        }
    }
}

/// Removes leading and trailing whitespace (`str::trim`).
pub fn trim_chars(v: &[char]) -> (r: Vec<char>)
    ensures
        r@ == trim(v@),
{
    let n = v.len();
    let mut i: usize = 0;
    while i < n && is_whitespace(v[i])
        invariant
            0 <= i <= n == v@.len(),
            lead_ws(v@, i as int) == lead_ws(v@, 0),
        decreases n - i,
    {
        i = i + 1;
    }
    let ghost t = v@.skip(i as int);
    let mut j: usize = n;
    while j > i && is_whitespace(v[j - 1])
        invariant
            i <= j <= n == v@.len(),
            t == v@.skip(i as int),
            trail_end(t, j - i) == trail_end(t, t.len() as int),
        decreases j,
    {
        assert(t[j - i - 1] == v@[j - 1]);
        j = j - 1;
    }
    proof {
        if j > i {
            assert(t[j - i - 1] == v@[j - 1]);
        }
    }
    let r = copy_range(v, i, j);
    assert(r@ =~= t.take(j - i));
    r
}

// ───────────────────────────── buffers and strings ─────────────────────────

/// Appends one character to a `String` (std `String::push`).
/// Trusted: the resulting characters are the old ones followed by `c`.
#[verifier::external_body]
pub(crate) fn push_char(s: &mut String, c: char)
    ensures
        final(s)@ == old(s)@.push(c),
{
    s.push(c);
}

/// The characters of `s`, in order.
pub fn chars_of(s: &str) -> (v: Vec<char>)
    ensures
        v@ == s@,
{
    let mut v: Vec<char> = Vec::new();
    for c in it: s.chars()
        invariant
            v@ == it.seq().take(it.index() as int),
    {
        v.push(c);
    }
    v
}

/// A `String` holding the characters of `v`.
pub fn string_of(v: &[char]) -> (s: String)
    ensures
        s@ == v@,
{
    let mut s = String::new();
    let n = v.len();
    for i in 0..n
        invariant
            n == v@.len(),
            s@ == v@.take(i as int),
    {
        push_char(&mut s, v[i]);
        assert(v@.take(i + 1) =~= v@.take(i as int).push(v@[i as int]));
    }
    assert(v@.take(n as int) =~= v@);
    s
}

/// The characters `v[lo..hi]`.
pub fn copy_range(v: &[char], lo: usize, hi: usize) -> (r: Vec<char>)
    requires
        lo <= hi <= v@.len(),
    ensures
        r@ == v@.subrange(lo as int, hi as int),
{
    let mut r: Vec<char> = Vec::new();
    let mut i = lo;
    while i < hi
        invariant
            lo <= i <= hi <= v@.len(),
            r@ == v@.subrange(lo as int, i as int),
        decreases hi - i,
    {
        r.push(v[i]);
        assert(v@.subrange(lo as int, i + 1) =~= v@.subrange(lo as int, i as int).push(
            v@[i as int],
        ));
        i = i + 1;
    }
    r
}

/// Appends all characters of `src` to `dst`.
pub fn extend_chars(dst: &mut Vec<char>, src: &[char])
    ensures
        final(dst)@ == old(dst)@ + src@,
{
    let n = src.len();
    for i in 0..n
        invariant
            n == src@.len(),
            dst@ == old(dst)@ + src@.take(i as int),
    {
        dst.push(src[i]);
        assert(src@.take(i + 1) =~= src@.take(i as int).push(src@[i as int]));
        assert(dst@ =~= old(dst)@ + src@.take(i + 1));
    }
    assert(src@.take(n as int) =~= src@);
}

// ───────────────────────────── matching and replacing ──────────────────────

/// `p` occurs in `s` starting at index `i`.
pub open spec fn occurs_at(s: Seq<char>, p: Seq<char>, i: int) -> bool {
    0 <= i && i + p.len() <= s.len() && s.subrange(i, i + p.len()) == p
}

/// Whether `p[..]` occurs in `v` at `i`.
pub fn matches_at(v: &[char], i: usize, p: &[char]) -> (r: bool)
    ensures
        r == occurs_at(v@, p@, i as int),
{
    let n = v.len();
    let m = p.len();
    if i > n || m > n - i {
        return false;
    }
    let mut k: usize = 0;
    while k < m
        invariant
            i + m <= n == v@.len(),
            m == p@.len(),
            0 <= k <= m,
            forall|t: int| 0 <= t < k ==> v@[i + t] == p@[t],
        decreases m - k,
    {
        if v[i + k] != p[k] {
            assert(v@.subrange(i as int, i + m)[k as int] != p@[k as int]);
            return false;
        }
        k = k + 1;
    }
    assert(v@.subrange(i as int, i + m) =~= p@);
    true
}

/// Index of the first occurrence of `p` in `s` at or after `i`, or -1.
pub open spec fn first_occ(s: Seq<char>, p: Seq<char>, i: int) -> int
    decreases s.len() + 1 - i,
{
    if i < 0 || i + p.len() > s.len() {
        -1
    } else if occurs_at(s, p, i) {
        i
    } else {
        first_occ(s, p, i + 1)
    }
}

/// `s.contains(p)`.
pub open spec fn contains(s: Seq<char>, p: Seq<char>) -> bool {
    first_occ(s, p, 0) >= 0
}

pub proof fn lemma_first_occ_props(s: Seq<char>, p: Seq<char>, i: int)
    requires
        0 <= i,
    ensures
        first_occ(s, p, i) == -1 || (i <= first_occ(s, p, i) && occurs_at(s, p, first_occ(s, p, i))),
        first_occ(s, p, i) >= -1,
        forall|k: int|
            i <= k && (first_occ(s, p, i) == -1 || k < first_occ(s, p, i)) ==> !#[trigger] occurs_at(
                s,
                p,
                k,
            ),
    decreases s.len() + 1 - i,
{
    if i + p.len() > s.len() {
    } else if occurs_at(s, p, i) {
    } else {
        lemma_first_occ_props(s, p, i + 1);
    }
}

/// `first_occ` is determined by where the matches are.
pub proof fn lemma_first_occ_is(s: Seq<char>, p: Seq<char>, i: int, j: int)
    requires
        0 <= i <= j,
        forall|k: int| i <= k < j ==> !#[trigger] occurs_at(s, p, k),
        occurs_at(s, p, j) || j + p.len() > s.len(),
    ensures
        first_occ(s, p, i) == if occurs_at(s, p, j) { j } else { -1 },
    decreases j - i,
{
    if i < j {
        assert(!occurs_at(s, p, i));
        lemma_first_occ_is(s, p, i + 1, j);
    }
}

/// `first_occ` in a suffix, shifted.
pub proof fn lemma_first_occ_skip(s: Seq<char>, p: Seq<char>, st: int, i: int)
    requires
        0 <= st <= s.len(),
        0 <= i,
    ensures
        first_occ(s.skip(st), p, i) == if first_occ(s, p, st + i) == -1 {
            -1
        } else {
            first_occ(s, p, st + i) - st
        },
    decreases s.len() + 1 - st - i,
{
    let t = s.skip(st);
    if i + p.len() > t.len() {
    } else {
        assert(t.subrange(i, i + p.len()) =~= s.subrange(st + i, st + i + p.len()));
        if occurs_at(t, p, i) {
        } else {
            lemma_first_occ_skip(s, p, st, i + 1);
        }
    }
}

/// Index of the first occurrence of `p` in `v` at or after `from`, if any.
pub fn find_from(v: &[char], p: &[char], from: usize) -> (r: Option<usize>)
    ensures
        match r {
            Some(k) => first_occ(v@, p@, from as int) == k,
            None => first_occ(v@, p@, from as int) == -1,
        },
{
    let n = v.len();
    let m = p.len();
    if m > n || from > n - m {
        return None;
    }
    let mut i = from;
    loop
        invariant
            m <= n == v@.len(),
            m == p@.len(),
            from <= i <= n - m,
            first_occ(v@, p@, i as int) == first_occ(v@, p@, from as int),
        decreases n - i,
    {
        if matches_at(v, i, p) {
            return Some(i);
        }
        if i == n - m {
            assert(first_occ(v@, p@, i + 1) == -1);
            return None;
        }
        i = i + 1;
    }
}

/// Whether `p` occurs in `v`.
pub fn contains_chars(v: &[char], p: &[char]) -> (r: bool)
    ensures
        r == contains(v@, p@),
{
    find_from(v, p, 0).is_some()
}

/// `s.replace(p, r)` for a non-empty pattern: every leftmost non-overlapping
/// occurrence of `p` replaced by `r`.
pub open spec fn replace(s: Seq<char>, p: Seq<char>, r: Seq<char>) -> Seq<char>
    decreases s.len(),
{
    if s.len() == 0 || p.len() == 0 {
        s
    } else if occurs_at(s, p, 0) {
        r + replace(s.skip(p.len() as int), p, r)
    } else {
        seq![s[0]] + replace(s.skip(1), p, r)
    }
}

/// Replaces every occurrence of a non-empty pattern (`str::replace`).
pub fn replace_chars(v: &[char], p: &[char], rep: &[char]) -> (out: Vec<char>)
    requires
        p@.len() > 0,
    ensures
        out@ == replace(v@, p@, rep@),
{
    let n = v.len();
    let m = p.len();
    let mut out: Vec<char> = Vec::new();
    let mut i: usize = 0;
    assert(v@.skip(0) =~= v@);
    while i < n
        invariant
            n == v@.len(),
            m == p@.len(),
            m > 0,
            i <= n,
            out@ + replace(v@.skip(i as int), p@, rep@) == replace(v@, p@, rep@),
        decreases n - i,
    {
        let ghost t = v@.skip(i as int);
        if matches_at(v, i, p) {
            assert(t.subrange(0, m as int) =~= v@.subrange(i as int, i + m));
            assert(t.skip(m as int) =~= v@.skip(i + m));
            let ghost old_out = out@;
            extend_chars(&mut out, rep);
            assert(out@ + replace(v@.skip(i + m), p@, rep@) =~= old_out + replace(t, p@, rep@));
            i = i + m;
        } else {
            if m <= n - i {
                assert(t.subrange(0, m as int) =~= v@.subrange(i as int, i + m));
            }
            assert(t.skip(1) =~= v@.skip(i + 1));
            let ghost old_out = out@;
            out.push(v[i]);
            assert(out@ + replace(v@.skip(i + 1), p@, rep@) =~= old_out + replace(t, p@, rep@));
            i = i + 1;
        }
    }
    assert(v@.skip(n as int) =~= Seq::<char>::empty());
    assert(out@ + replace(v@.skip(n as int), p@, rep@) =~= out@);
    out
}

// ───────────────────────────── splitting and joining ───────────────────────

/// `s.split(p)` for a non-empty pattern.
pub open spec fn split_on(s: Seq<char>, p: Seq<char>) -> Seq<Seq<char>>
    decreases s.len(),
{
    let i = first_occ(s, p, 0);
    if p.len() == 0 || i < 0 {
        seq![s]
    } else {
        proof {
            lemma_first_occ_props(s, p, 0);
        }
        seq![s.take(i)] + split_on(s.skip(i + p.len()), p)
    }
}

/// Deep view of a vector of character buffers.
pub open spec fn dv(v: Seq<Vec<char>>) -> Seq<Seq<char>> {
    v.map_values(|x: Vec<char>| x@)
}

/// Splits `v` at every occurrence of a non-empty pattern (`str::split`).
pub fn split_chars(v: &[char], p: &[char]) -> (parts: Vec<Vec<char>>)
    requires
        p@.len() > 0,
    ensures
        dv(parts@) == split_on(v@, p@),
{
    let n = v.len();
    let m = p.len();
    let mut parts: Vec<Vec<char>> = Vec::new();
    let mut st: usize = 0;
    assert(v@.skip(0) =~= v@);
    assert(dv(parts@) =~= Seq::<Seq<char>>::empty());
    loop
        invariant
            n == v@.len(),
            m == p@.len(),
            m > 0,
            st <= n,
            dv(parts@) + split_on(v@.skip(st as int), p@) == split_on(v@, p@),
        decreases n - st,
    {
        let ghost t = v@.skip(st as int);
        proof {
            lemma_first_occ_skip(v@, p@, st as int, 0);
        }
        match find_from(v, p, st) {
            None => {
                let piece = copy_range(v, st, n);
                assert(piece@ =~= t);
                let ghost old_parts = dv(parts@);
                parts.push(piece);
                assert(dv(parts@) =~= old_parts + seq![t]);
                return parts;
            },
            Some(k) => {
                proof {
                    lemma_first_occ_props(v@, p@, st as int);
                }
                let piece = copy_range(v, st, k);
                assert(piece@ =~= t.take(k - st));
                assert(t.skip(k - st + m) =~= v@.skip(k + m));
                let ghost old_parts = dv(parts@);
                parts.push(piece);
                assert(dv(parts@) =~= old_parts + seq![t.take(k - st)]);
                st = k + m;
            },
        }
    }
}

/// `parts.join(sep)`.
pub open spec fn join(parts: Seq<Seq<char>>, sep: Seq<char>) -> Seq<char>
    decreases parts.len(),
{
    if parts.len() == 0 {
        Seq::empty()
    } else if parts.len() == 1 {
        parts[0]
    } else {
        parts[0] + sep + join(parts.drop_first(), sep)
    }
}

pub proof fn lemma_join_push(parts: Seq<Seq<char>>, sep: Seq<char>, x: Seq<char>)
    ensures
        join(parts.push(x), sep) == if parts.len() == 0 {
            x
        } else {
            join(parts, sep) + sep + x
        },
    decreases parts.len(),
{
    if parts.len() == 0 {
    } else if parts.len() == 1 {
        let q = parts.push(x);
        assert(q.drop_first() =~= seq![x]);
        assert(join(q.drop_first(), sep) == x);
        assert(join(q, sep) == q[0] + sep + join(q.drop_first(), sep));
    } else {
        let q = parts.push(x);
        assert(q.drop_first() =~= parts.drop_first().push(x));
        assert(q[0] == parts[0]);
        lemma_join_push(parts.drop_first(), sep, x);
        assert(join(q, sep) == q[0] + sep + join(q.drop_first(), sep));
        assert(join(parts, sep) == parts[0] + sep + join(parts.drop_first(), sep));
        assert(join(q, sep) =~= join(parts, sep) + sep + x);
    }
}

/// Joins the buffers with `sep` between consecutive ones.
pub fn join_chars(parts: &Vec<Vec<char>>, sep: &[char]) -> (r: Vec<char>)
    ensures
        r@ == join(dv(parts@), sep@),
{
    let n = parts.len();
    let mut r: Vec<char> = Vec::new();
    for i in 0..n
        invariant
            n == parts@.len(),
            r@ == join(dv(parts@).take(i as int), sep@),
    {
        proof {
            lemma_join_push(dv(parts@).take(i as int), sep@, parts@[i as int]@);
            assert(dv(parts@).take(i + 1) =~= dv(parts@).take(i as int).push(parts@[i as int]@));
        }
        if i > 0 {
            extend_chars(&mut r, sep);
        }
        extend_chars(&mut r, parts[i].as_slice());
    }
    assert(dv(parts@).take(n as int) =~= dv(parts@));
    r
}

/// A line without its trailing carriage return, if any.
pub open spec fn strip_cr(s: Seq<char>) -> Seq<char> {
    if s.len() > 0 && s.last() == '\r' {
        s.drop_last()
    } else {
        s
    }
}

/// `str::lines`: pieces between `'\n'`s, each followed `'\n'` taking
/// its trailing `'\r'` with it; no final empty line.
pub open spec fn lines(s: Seq<char>) -> Seq<Seq<char>>
    decreases s.len(),
{
    let i = first_occ(s, seq!['\n'], 0);
    if s.len() == 0 {
        Seq::empty()
    } else if i < 0 {
        seq![s]
    } else {
        proof {
            lemma_first_occ_props(s, seq!['\n'], 0);
        }
        seq![strip_cr(s.take(i))] + lines(s.skip(i + 1))
    }
}

/// Splits `v` into lines (`str::lines`).
pub fn lines_chars(v: &[char]) -> (out: Vec<Vec<char>>)
    ensures
        dv(out@) == lines(v@),
{
    let n = v.len();
    let nl: [char; 1] = ['\n'];
    assert(nl@ =~= seq!['\n']);
    let mut out: Vec<Vec<char>> = Vec::new();
    let mut st: usize = 0;
    assert(v@.skip(0) =~= v@);
    assert(dv(out@) =~= Seq::<Seq<char>>::empty());
    while st < n
        invariant
            n == v@.len(),
            nl@ == seq!['\n'],
            st <= n,
            dv(out@) + lines(v@.skip(st as int)) == lines(v@),
        decreases n - st,
    {
        let ghost t = v@.skip(st as int);
        proof {
            lemma_first_occ_skip(v@, seq!['\n'], st as int, 0);
        }
        match find_from(v, nl.as_slice(), st) {
            None => {
                let piece = copy_range(v, st, n);
                assert(piece@ =~= t);
                let ghost old_out = dv(out@);
                out.push(piece);
                assert(dv(out@) =~= old_out + seq![t]);
                assert(v@.skip(n as int) =~= Seq::<char>::empty());
                return out;
            },
            Some(k) => {
                proof {
                    lemma_first_occ_props(v@, seq!['\n'], st as int);
                }
                let mut hi = k;
                if hi > st && v[hi - 1] == '\r' {
                    hi = hi - 1;
                }
                let piece = copy_range(v, st, hi);
                assert(piece@ =~= strip_cr(t.take(k - st)));
                assert(t.skip(k - st + 1) =~= v@.skip(k + 1));
                let ghost old_out = dv(out@);
                out.push(piece);
                assert(dv(out@) =~= old_out + seq![strip_cr(t.take(k - st))]);
                st = k + 1;
            },
        }
    }
    assert(v@.skip(st as int) =~= Seq::<char>::empty());
    assert(dv(out@) + lines(v@.skip(st as int)) =~= dv(out@));
    out
}

/// `s.starts_with(p)`.
pub open spec fn starts_with(s: Seq<char>, p: Seq<char>) -> bool {
    p.len() <= s.len() && s.take(p.len() as int) == p
}

/// Whether `v` starts with `p`.
pub fn starts_with_chars(v: &[char], p: &[char]) -> (r: bool)
    ensures
        r == starts_with(v@, p@),
{
    let r = matches_at(v, 0, p);
    proof {
        if p@.len() <= v@.len() {
            assert(v@.subrange(0, p@.len() as int) =~= v@.take(p@.len() as int));
        }
    }
    r
}

/// Whether the two character buffers are equal.
pub fn chars_eq(a: &[char], b: &[char]) -> (r: bool)
    ensures
        r == (a@ == b@),
{
    if a.len() != b.len() {
        return false;
    }
    let r = matches_at(a, 0, b);
    proof {
        assert(a@.subrange(0, a@.len() as int) =~= a@);
    }
    r
}

/// Removes trailing whitespace (`str::trim_end`).
pub fn trim_end_chars(v: &[char]) -> (r: Vec<char>)
    ensures
        r@ == trim_end(v@),
{
    let n = v.len();
    let mut j: usize = n;
    while j > 0 && is_whitespace(v[j - 1])
        invariant
            j <= n == v@.len(),
            trail_end(v@, j as int) == trail_end(v@, n as int),
        decreases j,
    {
        j = j - 1;
    }
    let r = copy_range(v, 0, j);
    assert(r@ =~= v@.take(j as int));
    r
}

// ───────────────────────────── decimal numbers ─────────────────────────────

/// The ASCII digit for `d < 10`.
pub open spec fn digit_char(d: nat) -> char {
    seq!['0', '1', '2', '3', '4', '5', '6', '7', '8', '9'][d as int]
}

/// Decimal representation of `n` (as `format!("{}", n)` writes it).
pub open spec fn dec_str(n: nat) -> Seq<char>
    decreases n,
{
    if n < 10 {
        seq![digit_char(n)]
    } else {
        dec_str(n / 10) + seq![digit_char(n % 10)]
    }
}

/// Appends the decimal representation of `n`.
pub fn push_decimal(out: &mut Vec<char>, n: usize)
    ensures
        final(out)@ == old(out)@ + dec_str(n as nat),
    decreases n,
{
    let digits: [char; 10] = ['0', '1', '2', '3', '4', '5', '6', '7', '8', '9'];
    assert(digits@ =~= seq!['0', '1', '2', '3', '4', '5', '6', '7', '8', '9']);
    if n >= 10 {
        push_decimal(out, n / 10);
    }
    let d = digits[n % 10];
    out.push(d);
    assert(out@ =~= old(out)@ + dec_str(n as nat));
}

// ───────────────────────────── filtering ───────────────────────────────────

/// The non-empty pieces of `parts`, in order.
pub open spec fn nonempty(parts: Seq<Seq<char>>) -> Seq<Seq<char>>
    decreases parts.len(),
{
    if parts.len() == 0 {
        Seq::empty()
    } else {
        (if parts[0].len() > 0 {
            seq![parts[0]]
        } else {
            Seq::empty()
        }) + nonempty(parts.drop_first())
    }
}

pub fn nonempty_exec(parts: &Vec<Vec<char>>) -> (r: Vec<Vec<char>>)
    ensures
        dv(r@) == nonempty(dv(parts@)),
{
    let n = parts.len();
    let mut r: Vec<Vec<char>> = Vec::new();
    let mut i: usize = 0;
    assert(dv(parts@).skip(0) =~= dv(parts@));
    assert(dv(r@) =~= Seq::<Seq<char>>::empty());
    while i < n
        invariant
            n == parts@.len(),
            i <= n,
            dv(r@) + nonempty(dv(parts@).skip(i as int)) == nonempty(dv(parts@)),
        decreases n - i,
    {
        let ghost rest = dv(parts@).skip(i as int);
        assert(rest[0] == parts@[i as int]@);
        assert(rest.drop_first() =~= dv(parts@).skip(i + 1));
        let ghost old_r = dv(r@);
        if parts[i].len() > 0 {
            r.push(copy_range(parts[i].as_slice(), 0, parts[i].len()));
            assert(parts@[i as int]@.subrange(0, parts@[i as int]@.len() as int) =~= parts@[i as int]@);
            assert(dv(r@) =~= old_r + seq![rest[0]]);
        } else {
            assert(dv(r@) =~= old_r);
        }
        assert(dv(r@) + nonempty(dv(parts@).skip(i + 1)) =~= old_r + nonempty(rest));
        i = i + 1;
    }
    assert(dv(parts@).skip(n as int) =~= Seq::<Seq<char>>::empty());
    assert(dv(r@) + nonempty(dv(parts@).skip(n as int)) =~= dv(r@));
    r
}

/// Every piece that `nonempty` keeps is non-empty.
pub proof fn lemma_nonempty_elems(parts: Seq<Seq<char>>)
    ensures
        forall|i: int| 0 <= i < nonempty(parts).len() ==> (#[trigger] nonempty(parts)[i]).len() > 0,
        forall|i: int|
            0 <= i < nonempty(parts).len() ==> exists|j: int|
                0 <= j < parts.len() && parts[j] == #[trigger] nonempty(parts)[i],
    decreases parts.len(),
{
    if parts.len() > 0 {
        lemma_nonempty_elems(parts.drop_first());
        let head: Seq<Seq<char>> = if parts[0].len() > 0 {
            seq![parts[0]]
        } else {
            Seq::empty()
        };
        let rest = nonempty(parts.drop_first());
        assert(nonempty(parts) == head + rest);
        assert forall|i: int| 0 <= i < nonempty(parts).len() implies exists|j: int|
            0 <= j < parts.len() && parts[j] == #[trigger] nonempty(parts)[i] by {
            if i < head.len() {
                assert(parts[0] == nonempty(parts)[i]);
            } else {
                assert(nonempty(parts)[i] == rest[i - head.len()]);
                let j = choose|j: int|
                    0 <= j < parts.drop_first().len() && parts.drop_first()[j] == rest[i
                        - head.len()];
                assert(parts[j + 1] == nonempty(parts)[i]);
            }
        }
        assert forall|i: int| 0 <= i < nonempty(parts).len() implies (
        #[trigger] nonempty(parts)[i]).len() > 0 by {
            if i >= head.len() {
                assert(nonempty(parts)[i] == rest[i - head.len()]);
            }
        }
    }
}

// ───────────────────────────── UTF-8 sizes ─────────────────────────────────

/// Bytes that `c` takes in UTF-8 (`char::len_utf8`).
pub open spec fn utf8_len(c: char) -> nat {
    if (c as u32) < 0x80 {
        1
    } else if (c as u32) < 0x800 {
        2
    } else if (c as u32) < 0x10000 {
        3
    } else {
        4
    }
}

/// Bytes that `s` takes in UTF-8 (`str::len`).
pub open spec fn bytes(s: Seq<char>) -> nat
    decreases s.len(),
{
    if s.len() == 0 {
        0
    } else {
        bytes(s.drop_last()) + utf8_len(s.last())
    }
}

/// `char::len_utf8`.
pub fn char_len_utf8(c: char) -> (r: usize)
    ensures
        r == utf8_len(c),
        1 <= r <= 4,
{
    let u = c as u32;
    if u < 0x80 {
        1
    } else if u < 0x800 {
        2
    } else if u < 0x10000 {
        3
    } else {
        4
    }
}

pub proof fn lemma_bytes_concat(a: Seq<char>, b: Seq<char>)
    ensures
        bytes(a + b) == bytes(a) + bytes(b),
    decreases b.len(),
{
    if b.len() == 0 {
        assert(a + b =~= a);
    } else {
        assert((a + b).drop_last() =~= a + b.drop_last());
        lemma_bytes_concat(a, b.drop_last());
    }
}

pub proof fn lemma_bytes_bound(s: Seq<char>)
    ensures
        s.len() <= bytes(s) <= 4 * s.len(),
    decreases s.len(),
{
    if s.len() > 0 {
        lemma_bytes_bound(s.drop_last());
    }
}

/// A piece of a text takes no more bytes than the text.
pub proof fn lemma_bytes_subrange(s: Seq<char>, a: int, b: int)
    requires
        0 <= a <= b <= s.len(),
    ensures
        bytes(s.subrange(a, b)) <= bytes(s),
        bytes(s.subrange(a, b)) + bytes(s.subrange(b, s.len() as int)) == bytes(s.skip(a)),
{
    assert(s =~= s.take(a) + s.subrange(a, b) + s.subrange(b, s.len() as int));
    assert(s.skip(a) =~= s.subrange(a, b) + s.subrange(b, s.len() as int));
    lemma_bytes_concat(s.take(a) + s.subrange(a, b), s.subrange(b, s.len() as int));
    lemma_bytes_concat(s.take(a), s.subrange(a, b));
    lemma_bytes_concat(s.subrange(a, b), s.subrange(b, s.len() as int));
}

/// Trimming never makes a text longer in bytes.
pub proof fn lemma_bytes_trim(s: Seq<char>)
    ensures
        bytes(trim(s)) <= bytes(s),
{
    lemma_lead_ws_bounds(s, 0);
    let a = lead_ws(s, 0);
    let t = s.skip(a);
    lemma_trail_end_bounds(t, t.len() as int);
    let e = trail_end(t, t.len() as int);
    assert(trim(s) =~= s.subrange(a, a + e));
    lemma_bytes_subrange(s, a, a + e);
}

/// UTF-8 size of `v[lo..hi]`.
pub fn bytes_range(v: &[char], lo: usize, hi: usize) -> (r: u128)
    requires
        lo <= hi <= v@.len(),
    ensures
        r == bytes(v@.subrange(lo as int, hi as int)),
        r <= 4 * (hi - lo),
{
    let mut r: u128 = 0;
    let mut i = lo;
    let _n = v.len();
    while i < hi
        invariant
            lo <= i <= hi <= v@.len(),
            v@.len() <= usize::MAX,
            r == bytes(v@.subrange(lo as int, i as int)),
            r <= 4 * (i - lo),
        decreases hi - i,
    {
        assert(v@.subrange(lo as int, i + 1).drop_last() =~= v@.subrange(lo as int, i as int));
        r = r + char_len_utf8(v[i]) as u128;
        i = i + 1;
    }
    r
}

// ───────────────────────────── case mapping ────────────────────────────────

/// The Unicode lowercase mapping of `s`, as `str::to_lowercase` computes it.
pub uninterp spec fn lowercase(s: Seq<char>) -> Seq<char>;

/// Every character is ASCII.
pub open spec fn all_ascii(s: Seq<char>) -> bool {
    forall|i: int| 0 <= i < s.len() ==> (#[trigger] s[i] as u32) < 128
}

/// `s` with its ASCII capitals made small.
pub open spec fn ascii_lowered(s: Seq<char>) -> Seq<char> {
    s.map_values(|c: char| ascii_lower(c))
}

/// `str::to_lowercase`: the Unicode lowercase form of `s`. Trusted: its
/// result is `lowercase` of the input, and on ASCII text that mapping turns
/// `A`–`Z` into `a`–`z` and keeps every other character (as the Unicode
/// data and std's documentation give); the rest of the Unicode tables is not
/// restated here.
#[verifier::external_body]
pub(crate) fn to_lowercase(s: &str) -> (r: String)
    ensures
        r@ == lowercase(s@),
        all_ascii(s@) ==> r@ == ascii_lowered(s@),
{
    s.to_lowercase()
}

/// `s` equals the literal characters `lit`.
pub fn str_is(s: &str, lit: &[char]) -> (r: bool)
    ensures
        r == (s@ == lit@),
{
    let v = chars_of(s);
    chars_eq(v.as_slice(), lit)
}

/// `a` and `b` hold the same characters.
pub fn str_eq(a: &str, b: &str) -> (r: bool)
    ensures
        r == (a@ == b@),
{
    let va = chars_of(a);
    let vb = chars_of(b);
    chars_eq(va.as_slice(), vb.as_slice())
}

/// Character views of a vector of strings.
pub open spec fn strs(v: Seq<String>) -> Seq<Seq<char>> {
    v.map_values(|s: String| s@)
}

/// Index of the first character at or after `i` that is not `c`.
pub open spec fn lead_c(s: Seq<char>, c: char, i: int) -> int
    decreases s.len() - i,
{
    if 0 <= i < s.len() && s[i] == c {
        lead_c(s, c, i + 1)
    } else {
        i
    }
}

/// End of `s.take(j)` once trailing `c`s are removed.
pub open spec fn trail_c(s: Seq<char>, c: char, j: int) -> int
    decreases j,
{
    if 0 < j <= s.len() && s[j - 1] == c {
        trail_c(s, c, j - 1)
    } else {
        j
    }
}

/// `s.trim_matches(c)`: every leading and trailing `c` removed.
pub open spec fn trim_matches(s: Seq<char>, c: char) -> Seq<char> {
    let t = s.skip(lead_c(s, c, 0));
    t.take(trail_c(t, c, t.len() as int))
}

pub proof fn lemma_lead_c_bounds(s: Seq<char>, c: char, i: int)
    requires
        0 <= i <= s.len(),
    ensures
        i <= lead_c(s, c, i) <= s.len(),
    decreases s.len() - i,
{
    if i < s.len() && s[i] == c {
        lemma_lead_c_bounds(s, c, i + 1);
    }
}

pub proof fn lemma_trail_c_bounds(s: Seq<char>, c: char, j: int)
    requires
        0 <= j <= s.len(),
    ensures
        0 <= trail_c(s, c, j) <= j,
    decreases j,
{
    if 0 < j && s[j - 1] == c {
        lemma_trail_c_bounds(s, c, j - 1);
    }
}

/// Removes every leading and trailing `c` (`str::trim_matches`).
pub fn trim_matches_chars(v: &[char], c: char) -> (r: Vec<char>)
    ensures
        r@ == trim_matches(v@, c),
{
    let n = v.len();
    let mut i: usize = 0;
    while i < n && v[i] == c
        invariant
            0 <= i <= n == v@.len(),
            lead_c(v@, c, i as int) == lead_c(v@, c, 0),
        decreases n - i,
    {
        i = i + 1;
    }
    let ghost t = v@.skip(i as int);
    let mut j: usize = n;
    while j > i && v[j - 1] == c
        invariant
            i <= j <= n == v@.len(),
            t == v@.skip(i as int),
            trail_c(t, c, j - i) == trail_c(t, c, t.len() as int),
        decreases j,
    {
        assert(t[j - i - 1] == v@[j - 1]);
        j = j - 1;
    }
    proof {
        if j > i {
            assert(t[j - i - 1] == v@[j - 1]);
        }
    }
    let r = copy_range(v, i, j);
    assert(r@ =~= t.take(j - i));
    r
}

/// Appends the characters of `s`.
pub fn push_str(out: &mut Vec<char>, s: &str)
    ensures
        final(out)@ == old(out)@ + s@,
{
    let v = chars_of(s);
    extend_chars(out, v.as_slice());
}

/// Index of the first whitespace character at or after `i`, or `s.len()`.
pub open spec fn next_ws(s: Seq<char>, i: int) -> int
    decreases s.len() - i,
{
    if 0 <= i < s.len() && !is_ws(s[i]) {
        next_ws(s, i + 1)
    } else {
        i
    }
}

pub proof fn lemma_next_ws(s: Seq<char>, i: int)
    requires
        0 <= i <= s.len(),
    ensures
        i <= next_ws(s, i) <= s.len(),
    decreases s.len() - i,
{
    if i < s.len() && !is_ws(s[i]) {
        lemma_next_ws(s, i + 1);
    }
}

/// `str::split_whitespace`: the maximal runs of non-whitespace characters.
pub open spec fn words(s: Seq<char>) -> Seq<Seq<char>>
    decreases s.len(),
{
    let a = lead_ws(s, 0);
    let t = s.skip(a);
    if t.len() == 0 {
        Seq::empty()
    } else {
        proof {
            lemma_lead_ws_bounds(s, 0);
            lemma_next_ws(t, 0);
            lemma_lead_ws_bounds(s, 0);
            assert(t[0] == s[a]);
            assert(!is_ws(t[0]));
            assert(next_ws(t, 0) == next_ws(t, 1));
            lemma_next_ws(t, 1);
        }
        let e = next_ws(t, 0);
        seq![t.take(e)] + words(t.skip(e))
    }
}

proof fn lemma_lead_ws_skip(s: Seq<char>, st: int, i: int)
    requires
        0 <= st <= s.len(),
        0 <= i,
    ensures
        lead_ws(s.skip(st), i) == lead_ws(s, st + i) - st,
    decreases s.len() - st - i,
{
    let t = s.skip(st);
    if i < t.len() {
        assert(t[i] == s[st + i]);
        if is_ws(t[i]) {
            lemma_lead_ws_skip(s, st, i + 1);
        }
    }
}

proof fn lemma_next_ws_skip(s: Seq<char>, st: int, i: int)
    requires
        0 <= st <= s.len(),
        0 <= i,
    ensures
        next_ws(s.skip(st), i) == next_ws(s, st + i) - st,
    decreases s.len() - st - i,
{
    let t = s.skip(st);
    if i < t.len() {
        assert(t[i] == s[st + i]);
        if !is_ws(t[i]) {
            lemma_next_ws_skip(s, st, i + 1);
        }
    }
}

/// The whitespace-separated words of `v` (`str::split_whitespace`).
pub fn words_chars(v: &[char]) -> (r: Vec<Vec<char>>)
    ensures
        dv(r@) == words(v@),
{
    let n = v.len();
    let mut r: Vec<Vec<char>> = Vec::new();
    let mut st: usize = 0;
    assert(v@.skip(0) =~= v@);
    assert(dv(r@) =~= Seq::<Seq<char>>::empty());
    loop
        invariant
            n == v@.len(),
            st <= n,
            dv(r@) + words(v@.skip(st as int)) == words(v@),
        decreases n - st,
    {
        let ghost u = v@.skip(st as int);
        let mut a = st;
        while a < n && is_whitespace(v[a])
            invariant
                st <= a <= n == v@.len(),
                lead_ws(v@, a as int) == lead_ws(v@, st as int),
            decreases n - a,
        {
            a = a + 1;
        }
        proof {
            lemma_lead_ws_skip(v@, st as int, 0);
            lemma_lead_ws_bounds(v@, st as int);
        }
        let ghost t = u.skip(a - st);
        assert(t =~= v@.skip(a as int));
        if a == n {
            assert(t.len() == 0);
            assert(words(u) == Seq::<Seq<char>>::empty());
            assert(dv(r@) + words(u) =~= dv(r@));
            return r;
        }
        let mut e = a;
        while e < n && !is_whitespace(v[e])
            invariant
                a <= e <= n == v@.len(),
                next_ws(v@, e as int) == next_ws(v@, a as int),
            decreases n - e,
        {
            e = e + 1;
        }
        proof {
            lemma_next_ws_skip(v@, a as int, 0);
            lemma_next_ws(v@, a as int);
        }
        let w = copy_range(v, a, e);
        assert(w@ =~= t.take(e - a));
        assert(t.skip(e - a) =~= v@.skip(e as int));
        let ghost old_r = dv(r@);
        r.push(w);
        assert(dv(r@) =~= old_r + seq![t.take(e - a)]);
        st = e;
    }
}

/// ASCII lowercase of one character; other characters unchanged.
pub open spec fn ascii_lower(c: char) -> char {
    if 'A' <= c && c <= 'Z' {
        ((c as u32) + 32) as char
    } else {
        c
    }
}

/// `str::eq_ignore_ascii_case` against a lowercase ASCII literal.
pub open spec fn eq_ignore_ascii_case(s: Seq<char>, lower: Seq<char>) -> bool {
    s.len() == lower.len() && forall|i: int| 0 <= i < s.len() ==> ascii_lower(#[trigger] s[i]) == lower[i]
}

pub fn ascii_lower_exec(c: char) -> (r: char)
    ensures
        r == ascii_lower(c),
{
    if 'A' <= c && c <= 'Z' {
        ((c as u8) + 32) as char
    } else {
        c
    }
}

/// Whether `s` equals the lowercase ASCII literal `lower` ignoring ASCII case.
pub fn eq_ignore_ascii_case_chars(s: &[char], lower: &[char]) -> (r: bool)
    ensures
        r == eq_ignore_ascii_case(s@, lower@),
{
    if s.len() != lower.len() {
        return false;
    }
    let mut i: usize = 0;
    while i < s.len()
        invariant
            s@.len() == lower@.len(),
            i <= s@.len(),
            forall|k: int| 0 <= k < i ==> ascii_lower(#[trigger] s@[k]) == lower@[k],
        decreases s@.len() - i,
    {
        if ascii_lower_exec(s[i]) != lower[i] {
            return false;
        }
        i = i + 1;
    }
    true
}

// ───────────────────────────── ordering ────────────────────────────────────

/// `a <= b` in the order of `str`'s `Ord` (lexicographic by character, which
/// is also the order of the UTF-8 bytes).
pub open spec fn lex_le(a: Seq<char>, b: Seq<char>) -> bool
    decreases a.len(),
{
    if a.len() == 0 {
        true
    } else if b.len() == 0 {
        false
    } else if a[0] != b[0] {
        a[0] < b[0]
    } else {
        lex_le(a.drop_first(), b.drop_first())
    }
}

pub proof fn lemma_lex_total(a: Seq<char>, b: Seq<char>)
    ensures
        lex_le(a, b) || lex_le(b, a),
    decreases a.len(),
{
    if a.len() > 0 && b.len() > 0 && a[0] == b[0] {
        lemma_lex_total(a.drop_first(), b.drop_first());
    }
}

pub proof fn lemma_lex_trans(a: Seq<char>, b: Seq<char>, c: Seq<char>)
    requires
        lex_le(a, b),
        lex_le(b, c),
    ensures
        lex_le(a, c),
    decreases a.len(),
{
    if a.len() > 0 && b.len() > 0 && c.len() > 0 && a[0] == b[0] && b[0] == c[0] {
        lemma_lex_trans(a.drop_first(), b.drop_first(), c.drop_first());
    }
}

/// Exactly when `lex_le(a, b)`.
pub fn lex_le_exec(a: &[char], b: &[char]) -> (r: bool)
    ensures
        r == lex_le(a@, b@),
{
    let mut i: usize = 0;
    assert(a@.skip(0) =~= a@);
    assert(b@.skip(0) =~= b@);
    while i < a.len() && i < b.len() && a[i] == b[i]
        invariant
            i <= a@.len(),
            i <= b@.len(),
            lex_le(a@, b@) == lex_le(a@.skip(i as int), b@.skip(i as int)),
        decreases a@.len() - i,
    {
        assert(a@.skip(i as int).drop_first() =~= a@.skip(i + 1));
        assert(b@.skip(i as int).drop_first() =~= b@.skip(i + 1));
        i = i + 1;
    }
    if i == a.len() {
        true
    } else if i == b.len() {
        false
    } else {
        assert(a@.skip(i as int)[0] == a@[i as int]);
        assert(b@.skip(i as int)[0] == b@[i as int]);
        a[i] < b[i]
    }
}

/// The sequence is in non-decreasing `lex_le` order.
pub open spec fn lex_sorted(s: Seq<Seq<char>>) -> bool {
    forall|i: int, j: int| 0 <= i < j < s.len() ==> lex_le(#[trigger] s[i], #[trigger] s[j])
}

/// The strings sorted (as `sort` on a `Vec<String>` orders them).
pub fn sorted_strings(v: &Vec<String>) -> (r: Vec<String>)
    ensures
        lex_sorted(strs(r@)),
        strs(r@).to_multiset() == strs(v@).to_multiset(),
{
    broadcast use vstd::seq_lib::group_to_multiset_ensures;
    let mut out: Vec<String> = Vec::new();
    for k in 0..v.len()
        invariant
            lex_sorted(strs(out@)),
            strs(out@).to_multiset() == strs(v@).take(k as int).to_multiset(),
    {
        let key = chars_of(v[k].as_str());
        let mut p: usize = 0;
        while p < out.len() && lex_le_exec(chars_of(out[p].as_str()).as_slice(), key.as_slice())
            invariant
                p <= out@.len(),
                forall|i: int| 0 <= i < p ==> lex_le(#[trigger] strs(out@)[i], key@),
            decreases out@.len() - p,
        {
            p = p + 1;
        }
        let ghost before = strs(out@);
        let item = string_of(key.as_slice());
        proof {
            assert forall|j: int| p <= j < before.len() implies lex_le(key@, #[trigger] before[j]) by {
                lemma_lex_total(before[p as int], key@);
                if j > p {
                    lemma_lex_trans(key@, before[p as int], before[j]);
                }
            }
        }
        out.insert(p, item);
        assert(strs(out@) =~= before.insert(p as int, key@));
        assert(strs(v@).take(k + 1) =~= strs(v@).take(k as int).push(key@));
        proof {
            vstd::seq_lib::to_multiset_insert(before, p as int, key@);
            vstd::seq_lib::to_multiset_build(strs(v@).take(k as int), key@);
            let after = strs(out@);
            assert forall|i: int, j: int| 0 <= i < j < after.len() implies lex_le(#[trigger] after[i], #[trigger] after[j]) by {
                if j < p {
                    assert(after[i] == before[i] && after[j] == before[j]);
                } else if j == p {
                    assert(after[i] == before[i]);
                } else if i < p {
                    assert(after[i] == before[i] && after[j] == before[j - 1]);
                    assert(lex_le(key@, before[j - 1]));
                    lemma_lex_trans(before[i], key@, before[j - 1]);
                } else if i == p {
                    assert(after[j] == before[j - 1]);
                } else {
                    assert(after[i] == before[i - 1] && after[j] == before[j - 1]);
                }
            }
        }
    }
    assert(strs(v@).take(v@.len() as int) =~= strs(v@));
    out
}

} // verus!

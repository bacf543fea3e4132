//! The XML of office documents, read as text: escaping, finding paragraph
//! and run elements, and reading or replacing their text.
//!
//! An element is found the way the pattern
//! `<NAME(?:>|\s[^>]*>).*?</NAME>` (optionally also `<NAME(?:\s[^>]*)?\s*/>`)
//! finds it: scanning left to right for the first place where it matches,
//! taking the shortest body, and going on after the end of each match.
use vstd::prelude::*;
use crate::text::{
    chars_of, dv, is_whitespace, is_ws, matches_at, occurs_at, push_str, replace, replace_chars,
    string_of,
};

verus! {

broadcast use vstd::string::group_string_axioms;

// ───────────────────────────── escaping ────────────────────────────────────

/// How one character is written in XML text.
pub open spec fn esc_char(c: char) -> Seq<char> {
    if c == '&' {
        "&amp;"@
    } else if c == '<' {
        "&lt;"@
    } else if c == '>' {
        "&gt;"@
    } else if c == '"' {
        "&quot;"@
    } else {
        seq![c]
    }
}

/// `s` written as XML text: `&`, `<`, `>` and `"` replaced by entities.
pub open spec fn escaped(s: Seq<char>) -> Seq<char>
    decreases s.len(),
{
    if s.len() == 0 {
        s
    } else {
        escaped(s.drop_last()) + esc_char(s.last())
    }
}

/// Escapes text for inclusion in XML.
pub fn xml_escape(s: &str) -> (r: String)
    ensures
        r@ == escaped(s@),
{
    let v = chars_of(s);
    let n = v.len();
    let mut out: Vec<char> = Vec::new();
    for i in 0..n
        invariant
            n == v@.len(),
            out@ == escaped(v@.take(i as int)),
    {
        let c = v[i];
        assert(v@.take(i + 1).drop_last() =~= v@.take(i as int));
        let ghost before = out@;
        if c == '&' {
            push_str(&mut out, "&amp;");
        } else if c == '<' {
            push_str(&mut out, "&lt;");
        } else if c == '>' {
            push_str(&mut out, "&gt;");
        } else if c == '"' {
            push_str(&mut out, "&quot;");
        } else {
            out.push(c);
            assert(out@ =~= before + seq![c]);
        }
        assert(out@ == escaped(v@.take(i + 1)));
    }
    assert(v@.take(n as int) =~= v@);
    string_of(out.as_slice())
}

/// XML text read back: the entities for `&`, `<`, `>`, `"` and `'`
/// replaced, one kind after the other in that order.
pub open spec fn unescaped(s: Seq<char>) -> Seq<char> {
    replace(
        replace(replace(replace(replace(s, "&amp;"@, "&"@), "&lt;"@, "<"@), "&gt;"@, ">"@), "&quot;"@, "\""@),
        "&apos;"@,
        "'"@,
    )
}

proof fn lemma_lit_nonempty(s: &str)
    requires
        s@ == "&amp;"@ || s@ == "&lt;"@ || s@ == "&gt;"@ || s@ == "&quot;"@ || s@ == "&apos;"@,
    ensures
        s@.len() > 0,
{
    reveal_strlit("&amp;");
    reveal_strlit("&lt;");
    reveal_strlit("&gt;");
    reveal_strlit("&quot;");
    reveal_strlit("&apos;");
}

/// Replaces the XML entities in `v` (see `unescaped`).
pub fn xml_unescape_chars(v: &[char]) -> (r: Vec<char>)
    ensures
        r@ == unescaped(v@),
{
    let amp = chars_of("&amp;");
    let lt = chars_of("&lt;");
    let gt = chars_of("&gt;");
    let quot = chars_of("&quot;");
    let apos = chars_of("&apos;");
    proof {
        lemma_lit_nonempty("&amp;");
        lemma_lit_nonempty("&lt;");
        lemma_lit_nonempty("&gt;");
        lemma_lit_nonempty("&quot;");
        lemma_lit_nonempty("&apos;");
    }
    let a1 = chars_of("&");
    let a2 = chars_of("<");
    let a3 = chars_of(">");
    let a4 = chars_of("\"");
    let a5 = chars_of("'");
    let s1 = replace_chars(v, amp.as_slice(), a1.as_slice());
    let s2 = replace_chars(s1.as_slice(), lt.as_slice(), a2.as_slice());
    let s3 = replace_chars(s2.as_slice(), gt.as_slice(), a3.as_slice());
    let s4 = replace_chars(s3.as_slice(), quot.as_slice(), a4.as_slice());
    replace_chars(s4.as_slice(), apos.as_slice(), a5.as_slice())
}

/// Replaces the XML entities in `s` (see `unescaped`).
pub fn xml_unescape(s: &str) -> (r: String)
    ensures
        r@ == unescaped(s@),
{
    let v = chars_of(s);
    let r = xml_unescape_chars(v.as_slice());
    string_of(r.as_slice())
}

// ───────────────────────────── reading back what was escaped ───────────────

/// An entity read back to another character (`&lt;`, `&gt;`, `&quot;`,
/// `&apos;`) occurs in `s` at `i`.
pub open spec fn entity_at(s: Seq<char>, i: int) -> bool {
    ||| occurs_at(s, "&lt;"@, i)
    ||| occurs_at(s, "&gt;"@, i)
    ||| occurs_at(s, "&quot;"@, i)
    ||| occurs_at(s, "&apos;"@, i)
}

/// No such entity occurs in `s`.
pub open spec fn entity_free(s: Seq<char>) -> bool {
    forall|i: int| !#[trigger] entity_at(s, i)
}

/// The characters of the entities and of what they stand for.
pub proof fn lemma_entity_chars()
    ensures
        "&lt;"@ == seq!['&', 'l', 't', ';'],
        "&gt;"@ == seq!['&', 'g', 't', ';'],
        "&quot;"@ == seq!['&', 'q', 'u', 'o', 't', ';'],
        "&amp;"@ == seq!['&', 'a', 'm', 'p', ';'],
        "&apos;"@ == seq!['&', 'a', 'p', 'o', 's', ';'],
        "<"@ == seq!['<'],
        ">"@ == seq!['>'],
        "\""@ == seq!['"'],
        "'"@ == seq!['\''],
        "&"@ == seq!['&'],
{
    reveal_strlit("&lt;");
    reveal_strlit("&gt;");
    reveal_strlit("&quot;");
    reveal_strlit("&amp;");
    reveal_strlit("&apos;");
    reveal_strlit("<");
    reveal_strlit(">");
    reveal_strlit("\"");
    reveal_strlit("'");
    reveal_strlit("&");
    assert("&lt;"@ =~= seq!['&', 'l', 't', ';']);
    assert("&gt;"@ =~= seq!['&', 'g', 't', ';']);
    assert("&quot;"@ =~= seq!['&', 'q', 'u', 'o', 't', ';']);
    assert("&amp;"@ =~= seq!['&', 'a', 'm', 'p', ';']);
    assert("&apos;"@ =~= seq!['&', 'a', 'p', 'o', 's', ';']);
    assert("<"@ =~= seq!['<']);
    assert(">"@ =~= seq!['>']);
    assert("\""@ =~= seq!['"']);
    assert("'"@ =~= seq!['\'']);
    assert("&"@ =~= seq!['&']);
}

/// A pattern that occurs nowhere is not replaced.
pub proof fn lemma_replace_absent(a: Seq<char>, p: Seq<char>, r: Seq<char>)
    requires
        forall|i: int| !occurs_at(a, p, i),
    ensures
        replace(a, p, r) == a,
    decreases a.len(),
{
    if a.len() > 0 && p.len() > 0 {
        let t = a.skip(1);
        assert forall|i: int| !occurs_at(t, p, i) by {
            if occurs_at(t, p, i) {
                assert(a.subrange(i + 1, i + 1 + p.len()) =~= t.subrange(i, i + p.len()));
                assert(occurs_at(a, p, i + 1));
            }
        }
        lemma_replace_absent(t, p, r);
        assert(seq![a[0]] + t =~= a);
    }
}

/// `escaped` is taken character by character.
pub proof fn lemma_escaped_concat(a: Seq<char>, b: Seq<char>)
    ensures
        escaped(a + b) == escaped(a) + escaped(b),
    decreases b.len(),
{
    if b.len() > 0 {
        lemma_escaped_concat(a, b.drop_last());
        assert((a + b).drop_last() =~= a + b.drop_last());
        assert((a + b).last() == b.last());
    } else {
        assert(a + b =~= a);
    }
}

/// A character that neither escaping nor reading back touches.
pub open spec fn plain(c: char) -> bool {
    c != '&' && c != '<' && c != '>' && c != '"'
}

/// How a character stands after escaping and then reading back the first
/// `k` entity kinds (`&amp;`, `&lt;`, `&gt;`, `&quot;`, in that order).
pub open spec fn stage_char(c: char, k: int) -> Seq<char> {
    if c == '&' && k >= 1 {
        seq!['&']
    } else if c == '<' && k >= 2 {
        seq!['<']
    } else if c == '>' && k >= 3 {
        seq!['>']
    } else if c == '"' && k >= 4 {
        seq!['"']
    } else {
        esc_char(c)
    }
}

pub open spec fn stage(s: Seq<char>, k: int) -> Seq<char>
    decreases s.len(),
{
    if s.len() == 0 {
        s
    } else {
        stage_char(s[0], k) + stage(s.skip(1), k)
    }
}

proof fn lemma_stage_ends(s: Seq<char>)
    ensures
        stage(s, 0) == escaped(s),
        stage(s, 4) == s,
    decreases s.len(),
{
    if s.len() > 0 {
        lemma_stage_ends(s.skip(1));
        lemma_escaped_concat(seq![s[0]], s.skip(1));
        assert(seq![s[0]] + s.skip(1) =~= s);
        assert(seq![s[0]].drop_last() =~= Seq::<char>::empty());
        assert(seq![s[0]].last() == s[0]);
        assert(escaped(Seq::<char>::empty()) == Seq::<char>::empty());
        assert(escaped(seq![s[0]]) =~= esc_char(s[0]));
    }
}

/// Where plain characters stand at the start of a partly read-back text,
/// the text itself starts with them.
proof fn lemma_plain_prefix(t: Seq<char>, q: Seq<char>, k: int)
    requires
        forall|j: int| 0 <= j < q.len() ==> plain(#[trigger] q[j]),
        occurs_at(stage(t, k), q, 0),
    ensures
        occurs_at(t, q, 0),
    decreases q.len(),
{
    lemma_entity_chars();
    if q.len() > 0 {
        let st = stage(t, k);
        assert(st.subrange(0, q.len() as int)[0] == st[0]);
        assert(plain(q[0]));
        if t.len() == 0 {
            assert(st.len() == 0);
        }
        let c = t[0];
        let sc = stage_char(c, k);
        assert(st == sc + stage(t.skip(1), k));
        assert(st[0] == sc[0]);
        assert(plain(c)) by {
            if !plain(c) {
                assert(sc[0] == '&' || sc[0] == '<' || sc[0] == '>' || sc[0] == '"');
            }
        }
        assert(sc == seq![c]);
        let q2 = q.skip(1);
        let rest = stage(t.skip(1), k);
        assert forall|j: int| 0 <= j < q2.len() implies plain(#[trigger] q2[j]) by {
            assert(q2[j] == q[j + 1]);
        }
        assert(rest.subrange(0, q2.len() as int) =~= st.subrange(1, q.len() as int));
        assert(st.subrange(1, q.len() as int) =~= st.subrange(0, q.len() as int).skip(1));
        lemma_plain_prefix(t.skip(1), q2, k);
        assert(t.subrange(0, q.len() as int) =~= seq![c] + t.skip(1).subrange(0, q2.len() as int));
        assert(q =~= seq![q[0]] + q2);
    } else {
        assert(t.subrange(0, 0) =~= q);
    }
}

/// Replacing in a text that starts with a stretch where no occurrence
/// begins leaves that stretch alone.
proof fn lemma_replace_after(a: Seq<char>, b: Seq<char>, p: Seq<char>, r: Seq<char>)
    requires
        p.len() > 0,
        forall|j: int| 0 <= j < a.len() ==> !#[trigger] occurs_at(a + b, p, j),
    ensures
        replace(a + b, p, r) == a + replace(b, p, r),
    decreases a.len(),
{
    if a.len() == 0 {
        assert(a + b =~= b);
    } else {
        let a2 = a.skip(1);
        assert(!occurs_at(a + b, p, 0));
        assert((a + b).skip(1) =~= a2 + b);
        assert forall|j: int| 0 <= j < a2.len() implies !#[trigger] occurs_at(a2 + b, p, j) by {
            if occurs_at(a2 + b, p, j) {
                assert((a2 + b).subrange(j, j + p.len()) =~= (a + b).subrange(j + 1, j + 1 + p.len()));
                assert(occurs_at(a + b, p, j + 1));
            }
        }
        lemma_replace_after(a2, b, p, r);
        assert((a + b)[0] == a[0]);
        assert(seq![a[0]] + (a2 + replace(b, p, r)) =~= a + replace(b, p, r));
    }
}

/// Reading back one entity kind turns one stage into the next, when the
/// text holds no entity of its own.
proof fn lemma_stage_step(s: Seq<char>, k: int, p: Seq<char>, r: Seq<char>, c0: char)
    requires
        entity_free(s),
        0 <= k <= 3,
        k == 0 ==> p == "&amp;"@ && r == "&"@ && c0 == '&',
        k == 1 ==> p == "&lt;"@ && r == "<"@ && c0 == '<',
        k == 2 ==> p == "&gt;"@ && r == ">"@ && c0 == '>',
        k == 3 ==> p == "&quot;"@ && r == "\""@ && c0 == '"',
    ensures
        replace(stage(s, k), p, r) == stage(s, k + 1),
    decreases s.len(),
{
    lemma_entity_chars();
    if s.len() > 0 {
        let c = s[0];
        let t = s.skip(1);
        assert forall|i: int| !#[trigger] entity_at(t, i) by {
            if entity_at(t, i) {
                assert forall|q: Seq<char>| occurs_at(t, q, i) implies occurs_at(s, q, i + 1) by {
                    assert(t.subrange(i, i + q.len()) =~= s.subrange(i + 1, i + 1 + q.len()));
                }
                assert(entity_at(s, i + 1));
            }
        }
        lemma_stage_step(t, k, p, r, c0);
        let sc = stage_char(c, k);
        let rest = stage(t, k);
        assert(stage(s, k) == sc + rest);
        assert(stage(s, k + 1) == stage_char(c, k + 1) + stage(t, k + 1));
        if c == c0 {
            assert(sc == p);
            assert((sc + rest).subrange(0, p.len() as int) =~= p);
            assert((sc + rest).skip(p.len() as int) =~= rest);
            assert(stage_char(c, k + 1) == r);
        } else {
            assert(stage_char(c, k + 1) == sc);
            assert forall|j: int| 0 <= j < sc.len() implies !#[trigger] occurs_at(sc + rest, p, j) by {
                if occurs_at(sc + rest, p, j) {
                    let w = (sc + rest).subrange(j, j + p.len());
                    assert(w[0] == (sc + rest)[j]);
                    assert((sc + rest)[j] == sc[j]);
                    assert(sc[j] == '&');
                    if sc.len() > 1 {
                        // A piece `&…;` other than `p`: they differ right after `&`.
                        assert(j == 0);
                        assert(w[1] == sc[1]);
                    } else {
                        // An `&` already read back, followed by the rest of `p`.
                        assert(c == '&' && k >= 1);
                        let q = p.skip(1);
                        assert forall|i: int| 0 <= i < q.len() implies plain(#[trigger] q[i]) by {
                            assert(q[i] == p[i + 1]);
                        }
                        assert(rest.subrange(0, q.len() as int) =~= w.skip(1));
                        lemma_plain_prefix(t, q, k);
                        assert(s.subrange(0, p.len() as int) =~= seq![c] + t.subrange(0, q.len() as int));
                        assert(p =~= seq![p[0]] + q);
                        assert(entity_at(s, 0));
                    }
                }
            }
            lemma_replace_after(sc, rest, p, r);
        }
    }
}

/// Text in which none of `&lt;`, `&gt;`, `&quot;`, `&apos;` occurs reads
/// back from its escaped form unchanged.
pub proof fn lemma_escape_roundtrip(s: Seq<char>)
    requires
        entity_free(s),
    ensures
        unescaped(escaped(s)) == s,
{
    lemma_entity_chars();
    lemma_stage_ends(s);
    lemma_stage_step(s, 0, "&amp;"@, "&"@, '&');
    lemma_stage_step(s, 1, "&lt;"@, "<"@, '<');
    lemma_stage_step(s, 2, "&gt;"@, ">"@, '>');
    lemma_stage_step(s, 3, "&quot;"@, "\""@, '"');
    assert forall|i: int| !occurs_at(s, "&apos;"@, i) by {
        assert(!entity_at(s, i));
    }
    lemma_replace_absent(s, "&apos;"@, "'"@);
}

// ───────────────────────────── finding elements ────────────────────────────

/// Index of the first `>` at or after `i`, or the length of `s`.
pub open spec fn next_gt(s: Seq<char>, i: int) -> int
    decreases s.len() - i,
{
    if i >= s.len() {
        s.len() as int
    } else if s[i] == '>' {
        i
    } else {
        next_gt(s, i + 1)
    }
}

/// Where the element name ends when one of `opens` (each `<` and a name)
/// starts at `i`; the first that fits is taken.
pub open spec fn name_end(s: Seq<char>, i: int, opens: Seq<Seq<char>>) -> Option<int>
    decreases opens.len(),
{
    if opens.len() == 0 {
        None
    } else if occurs_at(s, opens[0], i) {
        Some(i + opens[0].len())
    } else {
        name_end(s, i, opens.drop_first())
    }
}

/// The end of an opening tag whose name ends at `q`: right after a `>`
/// at `q`, or after a whitespace character at `q` up to the next `>`.
pub open spec fn open_end(s: Seq<char>, q: int) -> Option<int> {
    if 0 <= q < s.len() && s[q] == '>' {
        Some(q + 1)
    } else if 0 <= q < s.len() && is_ws(s[q]) && next_gt(s, q + 1) < s.len() {
        Some(next_gt(s, q + 1) + 1)
    } else {
        None
    }
}

/// The length of the first of `closes` that occurs at `j`.
pub open spec fn close_len(s: Seq<char>, j: int, closes: Seq<Seq<char>>) -> Option<int>
    decreases closes.len(),
{
    if closes.len() == 0 {
        None
    } else if occurs_at(s, closes[0], j) {
        Some(closes[0].len() as int)
    } else {
        close_len(s, j, closes.drop_first())
    }
}

/// Start and end of the first closing tag at or after `j`.
pub open spec fn first_close(s: Seq<char>, j: int, closes: Seq<Seq<char>>) -> Option<(int, int)>
    decreases s.len() - j,
{
    if j < 0 || j >= s.len() {
        None
    } else {
        match close_len(s, j, closes) {
            Some(l) => Some((j, j + l)),
            None => first_close(s, j + 1, closes),
        }
    }
}

/// An element with a body starting at `i`: (body start, body end, end).
pub open spec fn paired_at(s: Seq<char>, i: int, opens: Seq<Seq<char>>, closes: Seq<Seq<char>>) -> Option<
    (int, int, int),
> {
    match name_end(s, i, opens) {
        Some(q) => match open_end(s, q) {
            Some(o) => match first_close(s, o, closes) {
                Some(c) => Some((o, c.0, c.1)),
                None => None,
            },
            None => None,
        },
        None => None,
    }
}

/// The end of an empty-element tag (`<name/>`, `<name attrs/>`) at `i`.
pub open spec fn empty_at(s: Seq<char>, i: int, opens: Seq<Seq<char>>) -> Option<int> {
    match name_end(s, i, opens) {
        Some(q) => if q + 1 < s.len() && s[q] == '/' && s[q + 1] == '>' {
            Some(q + 2)
        } else if q < s.len() && is_ws(s[q]) && q + 2 <= next_gt(s, q + 1) < s.len() && s[next_gt(
            s,
            q + 1,
        ) - 1] == '/' {
            Some(next_gt(s, q + 1) + 1)
        } else {
            None
        },
        None => None,
    }
}

/// The element starting at `i`, if any: (body start, body end, end). An
/// empty-element tag, where accepted, has an empty body at its end.
pub open spec fn element_at(
    s: Seq<char>,
    i: int,
    opens: Seq<Seq<char>>,
    closes: Seq<Seq<char>>,
    empty_tags: bool,
) -> Option<(int, int, int)> {
    match paired_at(s, i, opens, closes) {
        Some(m) => Some(m),
        None => if empty_tags {
            match empty_at(s, i, opens) {
                Some(e) => Some((e, e, e)),
                None => None,
            }
        } else {
            None
        },
    }
}

/// The elements found scanning from `i`: (start, body start, body end, end).
pub open spec fn elements_from(
    s: Seq<char>,
    i: int,
    opens: Seq<Seq<char>>,
    closes: Seq<Seq<char>>,
    empty_tags: bool,
) -> Seq<(int, int, int, int)>
    decreases s.len() - i,
{
    if i < 0 || i >= s.len() {
        Seq::empty()
    } else {
        match element_at(s, i, opens, closes, empty_tags) {
            Some(m) => if i < m.2 <= s.len() {
                seq![(i, m.0, m.1, m.2)] + elements_from(s, m.2, opens, closes, empty_tags)
            } else {
                Seq::empty()
            },
            None => elements_from(s, i + 1, opens, closes, empty_tags),
        }
    }
}

/// The elements of `s`, in order.
pub open spec fn elements(s: Seq<char>, opens: Seq<Seq<char>>, closes: Seq<Seq<char>>, empty_tags: bool) -> Seq<
    (int, int, int, int),
> {
    elements_from(s, 0, opens, closes, empty_tags)
}

/// The ranges are in order, do not overlap and lie within `s` (from `lo`).
pub open spec fn ordered_from(ms: Seq<(int, int, int, int)>, lo: int, n: int) -> bool {
    &&& forall|k: int|
        0 <= k < ms.len() ==> lo <= (#[trigger] ms[k]).0 && ms[k].0 < ms[k].3 <= n && ms[k].0 <= ms[k].1
            <= ms[k].2 <= ms[k].3
    &&& forall|k: int| 0 <= k < ms.len() - 1 ==> (#[trigger] ms[k]).3 <= ms[k + 1].0
}

pub proof fn lemma_next_gt(s: Seq<char>, i: int)
    requires
        0 <= i,
    ensures
        i <= next_gt(s, i) || (i > s.len() && next_gt(s, i) == s.len()),
        next_gt(s, i) <= s.len(),
        next_gt(s, i) < s.len() ==> s[next_gt(s, i)] == '>',
        forall|k: int| i <= k < next_gt(s, i) ==> s[k] != '>',
    decreases s.len() - i,
{
    if i < s.len() && s[i] != '>' {
        lemma_next_gt(s, i + 1);
    }
}

proof fn lemma_name_end(s: Seq<char>, i: int, opens: Seq<Seq<char>>)
    ensures
        name_end(s, i, opens) matches Some(q) ==> 0 <= i <= q <= s.len(),
    decreases opens.len(),
{
    if opens.len() > 0 && !occurs_at(s, opens[0], i) {
        lemma_name_end(s, i, opens.drop_first());
    }
}

proof fn lemma_close_len(s: Seq<char>, j: int, closes: Seq<Seq<char>>)
    ensures
        close_len(s, j, closes) matches Some(l) ==> 0 <= l && j + l <= s.len(),
    decreases closes.len(),
{
    if closes.len() > 0 && !occurs_at(s, closes[0], j) {
        lemma_close_len(s, j, closes.drop_first());
    }
}

proof fn lemma_first_close(s: Seq<char>, j: int, closes: Seq<Seq<char>>)
    requires
        0 <= j,
    ensures
        first_close(s, j, closes) matches Some(c) ==> j <= c.0 <= c.1 <= s.len(),
    decreases s.len() - j,
{
    if j < s.len() {
        lemma_close_len(s, j, closes);
        if close_len(s, j, closes) is None {
            lemma_first_close(s, j + 1, closes);
        }
    }
}

/// A paired element's parts lie in order within `s`.
proof fn lemma_element_at(s: Seq<char>, i: int, opens: Seq<Seq<char>>, closes: Seq<Seq<char>>, empty_tags: bool)
    requires
        0 <= i,
        forall|k: int| 0 <= k < opens.len() ==> (#[trigger] opens[k]).len() > 0,
    ensures
        element_at(s, i, opens, closes, empty_tags) matches Some(m) ==> i < m.0 <= m.1 <= m.2 <= s.len(),
{
    lemma_name_end_pos(s, i, opens);
    match name_end(s, i, opens) {
        Some(q) => {
            if 0 <= q < s.len() && is_ws(s[q]) {
                lemma_next_gt(s, q + 1);
            }
            match open_end(s, q) {
                Some(o) => {
                    lemma_first_close(s, o, closes);
                },
                None => {},
            }
        },
        None => {},
    }
}

proof fn lemma_name_end_pos(s: Seq<char>, i: int, opens: Seq<Seq<char>>)
    requires
        forall|k: int| 0 <= k < opens.len() ==> (#[trigger] opens[k]).len() > 0,
    ensures
        name_end(s, i, opens) matches Some(q) ==> 0 <= i < q <= s.len(),
    decreases opens.len(),
{
    if opens.len() > 0 && !occurs_at(s, opens[0], i) {
        assert forall|k: int| 0 <= k < opens.drop_first().len() implies (#[trigger] opens.drop_first()[k]).len()
            > 0 by {
            assert(opens.drop_first()[k] == opens[k + 1]);
        }
        lemma_name_end_pos(s, i, opens.drop_first());
    }
}

/// The elements found from `i` are ordered, disjoint and within `s`.
pub proof fn lemma_elements_ordered(
    s: Seq<char>,
    i: int,
    opens: Seq<Seq<char>>,
    closes: Seq<Seq<char>>,
    empty_tags: bool,
)
    requires
        0 <= i,
        forall|k: int| 0 <= k < opens.len() ==> (#[trigger] opens[k]).len() > 0,
    ensures
        ordered_from(elements_from(s, i, opens, closes, empty_tags), i, s.len() as int),
    decreases s.len() - i,
{
    let ms = elements_from(s, i, opens, closes, empty_tags);
    if i < s.len() {
        lemma_element_at(s, i, opens, closes, empty_tags);
        match element_at(s, i, opens, closes, empty_tags) {
            Some(m) => {
                if i < m.2 <= s.len() {
                    lemma_elements_ordered(s, m.2, opens, closes, empty_tags);
                    let rest = elements_from(s, m.2, opens, closes, empty_tags);
                    assert(ms == seq![(i, m.0, m.1, m.2)] + rest);
                    assert forall|k: int| 0 <= k < ms.len() - 1 implies (#[trigger] ms[k]).3 <= ms[k + 1].0 by {
                        if k > 0 {
                            assert(ms[k] == rest[k - 1]);
                            assert(ms[k + 1] == rest[k]);
                        } else {
                            assert(ms[1] == rest[0]);
                        }
                    }
                    assert forall|k: int| 0 <= k < ms.len() implies i <= (#[trigger] ms[k]).0 && ms[k].0
                        < ms[k].3 <= s.len() && ms[k].0 <= ms[k].1 <= ms[k].2 <= ms[k].3 by {
                        if k > 0 {
                            assert(ms[k] == rest[k - 1]);
                        }
                    }
                }
            },
            None => {
                lemma_elements_ordered(s, i + 1, opens, closes, empty_tags);
            },
        }
    }
}

pub fn next_gt_exec(v: &[char], i: usize) -> (r: usize)
    ensures
        r as int == next_gt(v@, i as int),
{
    let mut k = i;
    if k > v.len() {
        return v.len();
    }
    while k < v.len() && v[k] != '>'
        invariant
            i <= k <= v@.len(),
            next_gt(v@, k as int) == next_gt(v@, i as int),
        decreases v@.len() - k,
    {
        k = k + 1;
    }
    k
}

fn name_end_exec(v: &[char], i: usize, opens: &Vec<Vec<char>>) -> (r: Option<usize>)
    ensures
        match r {
            Some(q) => name_end(v@, i as int, dv(opens@)) == Some(q as int),
            None => name_end(v@, i as int, dv(opens@)) is None,
        },
{
    let mut k: usize = 0;
    assert(dv(opens@).skip(0) =~= dv(opens@));
    while k < opens.len()
        invariant
            k <= opens@.len(),
            name_end(v@, i as int, dv(opens@)) == name_end(v@, i as int, dv(opens@).skip(k as int)),
        decreases opens@.len() - k,
    {
        let ghost rest = dv(opens@).skip(k as int);
        assert(rest[0] == opens@[k as int]@);
        assert(rest.drop_first() =~= dv(opens@).skip(k + 1));
        let o = opens[k].as_slice();
        if matches_at(v, i, o) {
            let _n = v.len();
            return Some(i + o.len());
        }
        k = k + 1;
    }
    None
}

fn open_end_exec(v: &[char], q: usize) -> (r: Option<usize>)
    requires
        q <= v@.len(),
    ensures
        match r {
            Some(o) => open_end(v@, q as int) == Some(o as int),
            None => open_end(v@, q as int) is None,
        },
{
    if q < v.len() && v[q] == '>' {
        Some(q + 1)
    } else if q < v.len() && is_whitespace(v[q]) {
        let g = next_gt_exec(v, q + 1);
        if g < v.len() {
            Some(g + 1)
        } else {
            None
        }
    } else {
        None
    }
}

fn close_len_exec(v: &[char], j: usize, closes: &Vec<Vec<char>>) -> (r: Option<usize>)
    ensures
        match r {
            Some(l) => close_len(v@, j as int, dv(closes@)) == Some(l as int),
            None => close_len(v@, j as int, dv(closes@)) is None,
        },
{
    let mut k: usize = 0;
    assert(dv(closes@).skip(0) =~= dv(closes@));
    while k < closes.len()
        invariant
            k <= closes@.len(),
            close_len(v@, j as int, dv(closes@)) == close_len(v@, j as int, dv(closes@).skip(k as int)),
        decreases closes@.len() - k,
    {
        let ghost rest = dv(closes@).skip(k as int);
        assert(rest[0] == closes@[k as int]@);
        assert(rest.drop_first() =~= dv(closes@).skip(k + 1));
        let c = &closes[k];
        if matches_at(v, j, c.as_slice()) {
            return Some(c.len());
        }
        k = k + 1;
    }
    None
}

fn first_close_exec(v: &[char], j: usize, closes: &Vec<Vec<char>>) -> (r: Option<(usize, usize)>)
    ensures
        match r {
            Some(c) => first_close(v@, j as int, dv(closes@)) == Some((c.0 as int, c.1 as int)),
            None => first_close(v@, j as int, dv(closes@)) is None,
        },
{
    let mut k = j;
    while k < v.len()
        invariant
            j <= k,
            first_close(v@, k as int, dv(closes@)) == first_close(v@, j as int, dv(closes@)),
        decreases v@.len() - k,
    {
        proof {
            lemma_close_len(v@, k as int, dv(closes@));
        }
        match close_len_exec(v, k, closes) {
            Some(l) => {
                return Some((k, k + l));
            },
            None => {},
        }
        k = k + 1;
    }
    None
}

fn empty_at_exec(v: &[char], i: usize, opens: &Vec<Vec<char>>) -> (r: Option<usize>)
    ensures
        match r {
            Some(e) => empty_at(v@, i as int, dv(opens@)) == Some(e as int),
            None => empty_at(v@, i as int, dv(opens@)) is None,
        },
{
    proof {
        lemma_name_end(v@, i as int, dv(opens@));
    }
    match name_end_exec(v, i, opens) {
        Some(q) => {
            if q < v.len() && v.len() - q > 1 && v[q] == '/' && v[q + 1] == '>' {
                Some(q + 2)
            } else if q < v.len() && is_whitespace(v[q]) {
                let g = next_gt_exec(v, q + 1);
                proof {
                    lemma_next_gt(v@, q + 1);
                }
                if g >= 2 && q <= g - 2 && g < v.len() && v[g - 1] == '/' {
                    Some(g + 1)
                } else {
                    None
                }
            } else {
                None
            }
        },
        None => None,
    }
}

fn element_at_exec(
    v: &[char],
    i: usize,
    opens: &Vec<Vec<char>>,
    closes: &Vec<Vec<char>>,
    empty_tags: bool,
) -> (r: Option<(usize, usize, usize)>)
    ensures
        match r {
            Some(m) => element_at(v@, i as int, dv(opens@), dv(closes@), empty_tags) == Some(
                (m.0 as int, m.1 as int, m.2 as int),
            ),
            None => element_at(v@, i as int, dv(opens@), dv(closes@), empty_tags) is None,
        },
{
    proof {
        lemma_name_end(v@, i as int, dv(opens@));
    }
    let paired = match name_end_exec(v, i, opens) {
        Some(q) => match open_end_exec(v, q) {
            Some(o) => match first_close_exec(v, o, closes) {
                Some(c) => Some((o, c.0, c.1)),
                None => None,
            },
            None => None,
        },
        None => None,
    };
    match paired {
        Some(m) => Some(m),
        None => if empty_tags {
            match empty_at_exec(v, i, opens) {
                Some(e) => Some((e, e, e)),
                None => None,
            }
        } else {
            None
        },
    }
}

/// The elements of `v` named by `opens` and `closes` (see `elements`).
pub fn find_elements(v: &[char], opens: &Vec<Vec<char>>, closes: &Vec<Vec<char>>, empty_tags: bool) -> (r: Vec<
    (usize, usize, usize, usize),
>)
    requires
        forall|k: int| 0 <= k < opens@.len() ==> (#[trigger] opens@[k])@.len() > 0,
    ensures
        r@.len() == elements(v@, dv(opens@), dv(closes@), empty_tags).len(),
        forall|k: int|
            0 <= k < r@.len() ==> {
                let m = elements(v@, dv(opens@), dv(closes@), empty_tags)[k];
                (#[trigger] r@[k]).0 as int == m.0 && r@[k].1 as int == m.1 && r@[k].2 as int == m.2
                    && r@[k].3 as int == m.3
            },
{
    let ghost s = v@;
    let ghost os = dv(opens@);
    let ghost cs = dv(closes@);
    assert forall|k: int| 0 <= k < os.len() implies (#[trigger] os[k]).len() > 0 by {
        assert(os[k] == opens@[k]@);
    }
    let mut out: Vec<(usize, usize, usize, usize)> = Vec::new();
    let ghost mut found: Seq<(int, int, int, int)> = Seq::empty();
    let mut i: usize = 0;
    while i < v.len()
        invariant
            s == v@,
            os == dv(opens@),
            cs == dv(closes@),
            forall|k: int| 0 <= k < os.len() ==> (#[trigger] os[k]).len() > 0,
            i <= v@.len(),
            found + elements_from(s, i as int, os, cs, empty_tags) == elements(s, os, cs, empty_tags),
            out@.len() == found.len(),
            forall|k: int|
                0 <= k < out@.len() ==> (#[trigger] out@[k]).0 as int == found[k].0 && out@[k].1 as int
                    == found[k].1 && out@[k].2 as int == found[k].2 && out@[k].3 as int == found[k].3,
        decreases v@.len() - i,
    {
        proof {
            lemma_element_at(s, i as int, os, cs, empty_tags);
        }
        match element_at_exec(v, i, opens, closes, empty_tags) {
            Some(m) => {
                let t = (i, m.0, m.1, m.2);
                proof {
                    assert(elements_from(s, i as int, os, cs, empty_tags) == seq![
                        (i as int, m.0 as int, m.1 as int, m.2 as int),
                    ] + elements_from(s, m.2 as int, os, cs, empty_tags));
                    found = found.push((i as int, m.0 as int, m.1 as int, m.2 as int));
                    assert(found + elements_from(s, m.2 as int, os, cs, empty_tags) =~= elements(
                        s,
                        os,
                        cs,
                        empty_tags,
                    ));
                }
                out.push(t);
                i = m.2;
            },
            None => {
                i = i + 1;
            },
        }
    }
    assert(found =~= elements(s, os, cs, empty_tags));
    out
}

} // verus!

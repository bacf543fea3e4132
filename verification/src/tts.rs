//! Splitting text for text-to-speech requests.
use vstd::prelude::*;
use vstd::seq_lib::lemma_flatten_concat;
use crate::text::{
    bytes, bytes_range, char_len_utf8, chars_of, copy_range, dv, extend_chars, lemma_bytes_concat,
    lemma_bytes_trim, lemma_nonempty_elems, lemma_trim_stretch, nonempty, nonempty_exec, string_of,
    trim, trim_chars, utf8_len, is_ws,
};

verus! {

broadcast use vstd::string::group_string_axioms;

/// Maximum bytes per TTS chunk. OpenAI-compatible endpoints typically
/// enforce a ~4096 character limit per request.
pub const TTS_CHUNK_SIZE: usize = 4000;

// ───────────────────────────── sentences ───────────────────────────────────

pub open spec fn is_terminator(c: char) -> bool {
    c == '.' || c == '!' || c == '?' || c == '\n'
}

/// First index `>= i` of a sentence terminator, or -1.
pub open spec fn first_terminator(s: Seq<char>, i: int) -> int
    decreases s.len() + 1 - i,
{
    if i < 0 || i >= s.len() {
        -1
    } else if is_terminator(s[i]) {
        i
    } else {
        first_terminator(s, i + 1)
    }
}

/// End of the run of spaces starting at `e`.
pub open spec fn spaces_end(s: Seq<char>, e: int) -> int
    decreases s.len() + 1 - e,
{
    if 0 <= e < s.len() && s[e] == ' ' {
        spaces_end(s, e + 1)
    } else {
        e
    }
}

pub proof fn lemma_first_terminator(s: Seq<char>, i: int)
    requires
        0 <= i,
    ensures
        first_terminator(s, i) == -1 || (i <= first_terminator(s, i) < s.len()),
    decreases s.len() + 1 - i,
{
    if i < s.len() && !is_terminator(s[i]) {
        lemma_first_terminator(s, i + 1);
    }
}

pub proof fn lemma_spaces_end(s: Seq<char>, e: int)
    requires
        0 <= e <= s.len(),
    ensures
        e <= spaces_end(s, e) <= s.len(),
    decreases s.len() + 1 - e,
{
    if e < s.len() && s[e] == ' ' {
        lemma_spaces_end(s, e + 1);
    }
}

/// Sentence-like spans: each runs up to a `.`, `!`, `?` or line break and
/// the spaces that follow it; whatever follows the last one is a span too.
pub open spec fn sentences(s: Seq<char>) -> Seq<Seq<char>>
    decreases s.len(),
{
    let j = first_terminator(s, 0);
    if s.len() == 0 {
        Seq::empty()
    } else if j < 0 {
        seq![s]
    } else {
        proof {
            lemma_first_terminator(s, 0);
            lemma_spaces_end(s, j + 1);
        }
        let e = spaces_end(s, j + 1);
        seq![s.take(e)] + sentences(s.skip(e))
    }
}

proof fn lemma_first_terminator_skip(s: Seq<char>, st: int, i: int)
    requires
        0 <= st <= s.len(),
        0 <= i,
    ensures
        first_terminator(s.skip(st), i) == if first_terminator(s, st + i) == -1 {
            -1
        } else {
            first_terminator(s, st + i) - st
        },
    decreases s.len() + 1 - st - i,
{
    let t = s.skip(st);
    if i < t.len() {
        assert(t[i] == s[st + i]);
        if !is_terminator(t[i]) {
            lemma_first_terminator_skip(s, st, i + 1);
        }
    }
}

proof fn lemma_spaces_end_skip(s: Seq<char>, st: int, e: int)
    requires
        0 <= st <= s.len(),
        0 <= e,
    ensures
        spaces_end(s.skip(st), e) == spaces_end(s, st + e) - st,
    decreases s.len() + 1 - st - e,
{
    let t = s.skip(st);
    if e < t.len() {
        assert(t[e] == s[st + e]);
        if t[e] == ' ' {
            lemma_spaces_end_skip(s, st, e + 1);
        }
    }
}

/// A span closed by a terminator: text without terminators, one
/// terminator at `j`, then only spaces.
pub open spec fn closed_span(x: Seq<char>) -> bool {
    exists|j: int|
        #![trigger is_terminator(x[j])]
        0 <= j < x.len() && is_terminator(x[j]) && (forall|k: int| 0 <= k < j ==> !is_terminator(#[trigger] x[k]))
            && (forall|k: int| j < k < x.len() ==> #[trigger] x[k] == ' ')
}

/// A non-empty span without any terminator.
pub open spec fn open_span(x: Seq<char>) -> bool {
    x.len() > 0 && forall|k: int| 0 <= k < x.len() ==> !is_terminator(#[trigger] x[k])
}

proof fn lemma_first_terminator_before(s: Seq<char>, i: int)
    requires
        0 <= i,
    ensures
        forall|k: int|
            i <= k < s.len() && (first_terminator(s, i) == -1 || k < first_terminator(s, i))
                ==> !is_terminator(#[trigger] s[k]),
        first_terminator(s, i) >= 0 ==> is_terminator(s[first_terminator(s, i)]),
    decreases s.len() + 1 - i,
{
    if i < s.len() && !is_terminator(s[i]) {
        lemma_first_terminator_before(s, i + 1);
    }
}

proof fn lemma_spaces_between(s: Seq<char>, e: int)
    requires
        0 <= e <= s.len(),
    ensures
        forall|k: int| e <= k < spaces_end(s, e) ==> #[trigger] s[k] == ' ',
    decreases s.len() + 1 - e,
{
    if e < s.len() && s[e] == ' ' {
        lemma_spaces_between(s, e + 1);
    }
}

/// Every span is text without terminators followed by one terminator and
/// the spaces after it; only the last span may have no terminator at all.
pub proof fn lemma_sentence_shapes(s: Seq<char>)
    ensures
        forall|i: int|
            0 <= i < sentences(s).len() ==> closed_span(#[trigger] sentences(s)[i]) || (i
                == sentences(s).len() - 1 && open_span(sentences(s)[i])),
    decreases s.len(),
{
    let j = first_terminator(s, 0);
    if s.len() == 0 {
    } else if j < 0 {
        lemma_first_terminator(s, 0);
        lemma_first_terminator_before(s, 0);
        assert(sentences(s) == seq![s]);
        assert(open_span(s));
    } else {
        lemma_first_terminator(s, 0);
        lemma_first_terminator_before(s, 0);
        lemma_spaces_end(s, j + 1);
        lemma_spaces_between(s, j + 1);
        let e = spaces_end(s, j + 1);
        let x = s.take(e);
        lemma_sentence_shapes(s.skip(e));
        let rest = sentences(s.skip(e));
        assert(sentences(s) == seq![x] + rest);
        assert(is_terminator(x[j]));
        assert forall|k: int| 0 <= k < j implies !is_terminator(#[trigger] x[k]) by {
            assert(x[k] == s[k]);
        }
        assert forall|k: int| j < k < x.len() implies #[trigger] x[k] == ' ' by {
            assert(x[k] == s[k]);
        }
        assert(closed_span(x));
        assert forall|i: int| 0 <= i < sentences(s).len() implies closed_span(#[trigger] sentences(s)[i])
            || (i == sentences(s).len() - 1 && open_span(sentences(s)[i])) by {
            if i > 0 {
                assert(sentences(s)[i] == rest[i - 1]);
            }
        }
    }
}

/// Yield sentence-like spans from `text`, preserving trailing whitespace so
/// that rejoining produces the original string.
pub fn split_sentences(text: &str) -> (r: Vec<String>)
    ensures
        r@.map_values(|x: String| x@) == sentences(text@),
{
    let v = chars_of(text);
    let len = v.len();
    let mut out: Vec<String> = Vec::new();
    let mut start: usize = 0;
    let mut i: usize = 0;
    assert(v@.skip(0) =~= v@);
    while i < len
        invariant
            len == v@.len(),
            v@ == text@,
            start <= i <= len,
            first_terminator(v@, start as int) == first_terminator(v@, i as int),
            out@.map_values(|x: String| x@) + sentences(v@.skip(start as int)) == sentences(
                v@,
            ),
        decreases len - i,
    {
        if v[i] == '.' || v[i] == '!' || v[i] == '?' || v[i] == '\n' {
            let ghost t = v@.skip(start as int);
            let mut end = i + 1;
            while end < len && v[end] == ' '
                invariant
                    i < end <= len == v@.len(),
                    spaces_end(v@, end as int) == spaces_end(v@, i + 1),
                decreases len - end,
            {
                end = end + 1;
            }
            proof {
                lemma_first_terminator_skip(v@, start as int, 0);
                lemma_spaces_end_skip(v@, start as int, i - start + 1);
                assert(first_terminator(t, 0) == i - start);
                assert(t.take(end - start) =~= v@.subrange(start as int, end as int));
                assert(t.skip(end - start) =~= v@.skip(end as int));
            }
            let span = copy_range(v.as_slice(), start, end);
            let ghost old_out = out@.map_values(|x: String| x@);
            out.push(string_of(span.as_slice()));
            assert(out@.map_values(|x: String| x@) =~= old_out + seq![t.take(end - start)]);
            start = end;
            i = end;
        } else {
            i = i + 1;
        }
    }
    if start < len {
        let ghost t = v@.skip(start as int);
        proof {
            lemma_first_terminator_skip(v@, start as int, 0);
        }
        let span = copy_range(v.as_slice(), start, len);
        assert(span@ =~= t);
        let ghost old_out = out@.map_values(|x: String| x@);
        out.push(string_of(span.as_slice()));
        assert(out@.map_values(|x: String| x@) =~= old_out + seq![t]);
        assert(sentences(t) == seq![t]);
    } else {
        assert(v@.skip(start as int) =~= Seq::<char>::empty());
        assert(out@.map_values(|x: String| x@) + sentences(v@.skip(start as int)) =~= out@.map_values(
            |x: String| x@,
        ));
    }
    out
}

/// The sentences of a text concatenate back to the text.
pub proof fn lemma_sentences_lossless(s: Seq<char>)
    ensures
        sentences(s).flatten() == s,
        forall|i: int| 0 <= i < sentences(s).len() ==> (#[trigger] sentences(s)[i]).len() > 0,
    decreases s.len(),
{
    let j = first_terminator(s, 0);
    if s.len() == 0 {
    } else if j < 0 {
        seq![s].lemma_flatten_one_element();
    } else {
        lemma_first_terminator(s, 0);
        lemma_spaces_end(s, j + 1);
        let e = spaces_end(s, j + 1);
        lemma_sentences_lossless(s.skip(e));
        let rest = sentences(s.skip(e));
        assert((seq![s.take(e)] + rest).drop_first() =~= rest);
        assert(sentences(s).flatten() == s.take(e) + rest.flatten());
        assert(s.take(e) + s.skip(e) =~= s);
        assert forall|i: int| 0 <= i < sentences(s).len() implies (
        #[trigger] sentences(s)[i]).len() > 0 by {
            if i > 0 {
                assert(sentences(s)[i] == rest[i - 1]);
            }
        }
    }
}

// ───────────────────────────── hard splitting ──────────────────────────────

/// State while hard-splitting one over-long sentence: pieces emitted so
/// far, where the current piece starts, and where the last space ended.
pub type HardState = (Seq<Seq<char>>, int, Option<int>);

/// Processing the character at `i`: if it would push the current piece past
/// the limit, the piece is cut at the last space seen since it started (or
/// before this character) and emitted trimmed, if non-empty. When what
/// follows that space, with this character, is still past the limit, it is
/// cut off too, so this character starts a new piece.
pub open spec fn hard_step(sent: Seq<char>, st: HardState, i: int) -> HardState {
    let (out, cs, ls) = st;
    let ch = utf8_len(sent[i]);
    let over = bytes(sent.subrange(cs, i)) + ch > TTS_CHUNK_SIZE;
    let sp = match ls {
        Some(p) => if p > cs {
            p
        } else {
            i
        },
        None => i,
    };
    let part = trim(sent.subrange(cs, sp));
    let out1 = if over && part.len() > 0 {
        out.push(part)
    } else {
        out
    };
    let over2 = over && bytes(sent.subrange(sp, i)) + ch > TTS_CHUNK_SIZE;
    let part2 = trim(sent.subrange(sp, i));
    let out2 = if over2 && part2.len() > 0 {
        out1.push(part2)
    } else {
        out1
    };
    let cs1 = if over2 {
        i
    } else if over {
        sp
    } else {
        cs
    };
    let ls1 = if sent[i] == ' ' {
        Some(i + 1)
    } else if over {
        None
    } else {
        ls
    };
    (out2, cs1, ls1)
}

/// The state after the first `k` characters.
pub open spec fn hard_state(sent: Seq<char>, k: int) -> HardState
    decreases k,
{
    if k <= 0 {
        (Seq::empty(), 0, None)
    } else {
        hard_step(sent, hard_state(sent, k - 1), k - 1)
    }
}

/// The pieces an over-long sentence is cut into.
pub open spec fn hard_split(sent: Seq<char>) -> Seq<Seq<char>> {
    let (out, cs, _) = hard_state(sent, sent.len() as int);
    let part = trim(sent.skip(cs));
    if cs < sent.len() && part.len() > 0 {
        out.push(part)
    } else {
        out
    }
}

pub proof fn lemma_hard_state_bounds(sent: Seq<char>, k: int)
    requires
        0 <= k <= sent.len(),
    ensures
        0 <= hard_state(sent, k).1 <= k,
        hard_state(sent, k).2 matches Some(p) ==> 0 <= p <= k,
    decreases k,
{
    if k > 0 {
        lemma_hard_state_bounds(sent, k - 1);
    }
}

#[verifier::spinoff_prover]
fn hard_split_exec(v: &[char]) -> (r: Vec<Vec<char>>)
    ensures
        dv(r@) == hard_split(v@),
{
    let n = v.len();
    let mut out: Vec<Vec<char>> = Vec::new();
    let mut cs: usize = 0;
    let mut ls: Option<usize> = None;
    let mut cur_len: u128 = 0;
    let mut i: usize = 0;
    while i < n
        invariant
            n == v@.len(),
            i <= n,
            cs <= i,
            ls matches Some(p) ==> p <= i,
            cur_len == bytes(v@.subrange(cs as int, i as int)),
            cur_len <= 4 * (i - cs),
            hard_state(v@, i as int) == (dv(out@), cs as int, match ls {
                Some(p) => Some(p as int),
                None => None::<int>,
            }),
        decreases n - i,
    {
        let ch = v[i];
        let ch_len = char_len_utf8(ch);
        let over = cur_len + ch_len as u128 > TTS_CHUNK_SIZE as u128;
        if over {
            let sp = match ls {
                Some(p) => if p > cs {
                    p
                } else {
                    i
                },
                None => i,
            };
            let part = trim_chars(copy_range(v, cs, sp).as_slice());
            if part.len() > 0 {
                let ghost old_out = dv(out@);
                out.push(part);
                assert(dv(out@) =~= old_out.push(trim(v@.subrange(cs as int, sp as int))));
            }
            cs = sp;
            cur_len = bytes_range(v, cs, i);
            proof {
                crate::text::lemma_bytes_bound(v@.subrange(cs as int, i as int));
            }
            if cur_len + ch_len as u128 > TTS_CHUNK_SIZE as u128 {
                let part2 = trim_chars(copy_range(v, cs, i).as_slice());
                if part2.len() > 0 {
                    let ghost old_out = dv(out@);
                    out.push(part2);
                    assert(dv(out@) =~= old_out.push(trim(v@.subrange(cs as int, i as int))));
                }
                cs = i;
                cur_len = 0;
                assert(v@.subrange(cs as int, i as int) =~= Seq::<char>::empty());
                assert(bytes(v@.subrange(cs as int, i as int)) == 0);
            }
            assert(cur_len == bytes(v@.subrange(cs as int, i as int)));
            ls = None;
        }
        proof {
            assert(v@.subrange(cs as int, i + 1).drop_last() =~= v@.subrange(cs as int, i as int));
            assert(v@.subrange(cs as int, i + 1).last() == ch);
            assert(bytes(v@.subrange(cs as int, i + 1)) == cur_len + utf8_len(ch));
        }
        cur_len = cur_len + ch_len as u128;
        if ch == ' ' {
            ls = Some(i + 1);
        }
        i = i + 1;
    }
    if cs < n {
        let part = trim_chars(copy_range(v, cs, n).as_slice());
        assert(v@.subrange(cs as int, n as int) =~= v@.skip(cs as int));
        if part.len() > 0 {
            let ghost old_out = dv(out@);
            out.push(part);
            assert(dv(out@) =~= old_out.push(trim(v@.skip(cs as int))));
        }
    }
    out
}

// ───────────────────────────── chunking ────────────────────────────────────

/// State while packing sentences: chunks emitted so far and the chunk
/// being filled.
pub type PackState = (Seq<Seq<char>>, Seq<char>);

/// Adding one sentence: the current chunk is emitted (trimmed) first if the
/// sentence would push it past the limit; a sentence over the limit on its
/// own is hard-split; any other sentence joins the current chunk.
pub open spec fn pack_step(st: PackState, sent: Seq<char>) -> PackState {
    let (chunks, cur) = st;
    let flush = bytes(cur) + bytes(sent) > TTS_CHUNK_SIZE && cur.len() > 0;
    let chunks1 = if flush {
        chunks.push(trim(cur))
    } else {
        chunks
    };
    let cur1 = if flush {
        Seq::empty()
    } else {
        cur
    };
    if bytes(sent) > TTS_CHUNK_SIZE {
        let chunks2 = if cur1.len() > 0 {
            chunks1.push(trim(cur1))
        } else {
            chunks1
        };
        (chunks2 + hard_split(sent), Seq::empty())
    } else {
        (chunks1, cur1 + sent)
    }
}

/// The state after the first `k` sentences.
pub open spec fn pack_state(sents: Seq<Seq<char>>, k: int) -> PackState
    decreases k,
{
    if k <= 0 {
        (Seq::empty(), Seq::empty())
    } else {
        pack_step(pack_state(sents, k - 1), sents[k - 1])
    }
}

/// The chunks `split_into_chunks` produces: the whole text when it fits in
/// the limit, else the packed sentences, trimmed, without empty chunks.
pub open spec fn tts_chunks(text: Seq<char>) -> Seq<Seq<char>> {
    if bytes(text) <= TTS_CHUNK_SIZE {
        seq![text]
    } else {
        let sents = sentences(text);
        let (chunks, cur) = pack_state(sents, sents.len() as int);
        nonempty(
            if trim(cur).len() > 0 {
                chunks.push(trim(cur))
            } else {
                chunks
            },
        )
    }
}

/// Split text into chunks of at most `TTS_CHUNK_SIZE` bytes, breaking at
/// sentence boundaries where possible to avoid cutting words mid-sentence.
pub fn split_into_chunks(text: &str) -> (r: Vec<String>)
    ensures
        r@.map_values(|x: String| x@) == tts_chunks(text@),
{
    let v = chars_of(text);
    let total = bytes_range(v.as_slice(), 0, v.len());
    assert(v@.subrange(0, v@.len() as int) =~= v@);
    if total <= TTS_CHUNK_SIZE as u128 {
        let mut r: Vec<String> = Vec::new();
        r.push(string_of(v.as_slice()));
        assert(r@.map_values(|x: String| x@) =~= seq![text@]);
        return r;
    }
    let sents = split_sentences(text);
    let ghost sv = sents@.map_values(|x: String| x@);
    let mut chunks: Vec<Vec<char>> = Vec::new();
    let mut cur: Vec<char> = Vec::new();
    let mut cur_len: u128 = 0;
    let ns = sents.len();
    for k in 0..ns
        invariant
            ns == sents@.len(),
            sv == sents@.map_values(|x: String| x@),
            sv == sentences(text@),
            cur_len == bytes(cur@),
            cur_len <= TTS_CHUNK_SIZE,
            pack_state(sv, k as int) == (dv(chunks@), cur@),
    {
        let s = chars_of(sents[k].as_str());
        assert(s@ == sv[k as int]);
        let s_len = bytes_range(s.as_slice(), 0, s.len());
        let _sl = s.len();
        assert(s@.subrange(0, s@.len() as int) =~= s@);
        let ghost c0 = dv(chunks@);
        let ghost cur0 = cur@;
        if cur_len + s_len > TTS_CHUNK_SIZE as u128 && cur.len() > 0 {
            let t = trim_chars(cur.as_slice());
            chunks.push(t);
            assert(dv(chunks@) =~= c0.push(trim(cur0)));
            cur = Vec::new();
            cur_len = 0;
        }
        if s_len > TTS_CHUNK_SIZE as u128 {
            if cur.len() > 0 {
                let ghost c1 = dv(chunks@);
                let t = trim_chars(cur.as_slice());
                chunks.push(t);
                assert(dv(chunks@) =~= c1.push(trim(cur@)));
                cur = Vec::new();
                cur_len = 0;
            }
            let pieces = hard_split_exec(s.as_slice());
            let ghost c2 = dv(chunks@);
            let mut j: usize = 0;
            while j < pieces.len()
                invariant
                    j <= pieces@.len(),
                    dv(chunks@) == c2 + dv(pieces@).take(j as int),
                decreases pieces@.len() - j,
            {
                let p = copy_range(pieces[j].as_slice(), 0, pieces[j].len());
                assert(p@ =~= pieces@[j as int]@);
                let ghost before = dv(chunks@);
                chunks.push(p);
                assert(dv(chunks@) =~= before.push(pieces@[j as int]@));
                assert(dv(pieces@).take(j + 1) =~= dv(pieces@).take(j as int).push(
                    pieces@[j as int]@,
                ));
                assert(dv(chunks@) =~= c2 + dv(pieces@).take(j + 1));
                j = j + 1;
            }
            assert(dv(pieces@).take(pieces@.len() as int) =~= dv(pieces@));
            assert(cur@ =~= Seq::<char>::empty());
        } else {
            extend_chars(&mut cur, s.as_slice());
            proof {
                lemma_bytes_concat(cur0, s@);
                if cur_len + s_len > TTS_CHUNK_SIZE as u128 && cur0.len() > 0 {
                    assert(cur0 + s@ =~= s@) by {
                        assert(cur@ == Seq::<char>::empty() + s@);
                    }
                }
            }
            cur_len = bytes_range(cur.as_slice(), 0, cur.len());
            assert(cur@.subrange(0, cur@.len() as int) =~= cur@);
        }
    }
    assert(sv.len() == ns);
    let t = trim_chars(cur.as_slice());
    if t.len() > 0 {
        let ghost c3 = dv(chunks@);
        chunks.push(t);
        assert(dv(chunks@) =~= c3.push(trim(cur@)));
    }
    let kept = nonempty_exec(&chunks);
    let mut r: Vec<String> = Vec::new();
    for i in 0..kept.len()
        invariant
            r@.map_values(|x: String| x@) == dv(kept@).take(i as int),
    {
        let ghost old_r = r@;
        let st = string_of(kept[i].as_slice());
        r.push(st);
        assert(r@ =~= old_r.push(st));
        assert(r@.map_values(|x: String| x@) =~= old_r.map_values(|x: String| x@).push(st@));
        assert(dv(kept@).take(i + 1) =~= dv(kept@).take(i as int).push(kept@[i as int]@));
    }
    assert(dv(kept@).take(kept@.len() as int) =~= dv(kept@));
    r
}

/// `bytes(s[a..c]) == bytes(s[a..b]) + bytes(s[b..c])`.
proof fn lemma_bytes_split(s: Seq<char>, a: int, b: int, c: int)
    requires
        0 <= a <= b <= c <= s.len(),
    ensures
        bytes(s.subrange(a, c)) == bytes(s.subrange(a, b)) + bytes(s.subrange(b, c)),
{
    assert(s.subrange(a, c) =~= s.subrange(a, b) + s.subrange(b, c));
    lemma_bytes_concat(s.subrange(a, b), s.subrange(b, c));
}

/// While hard-splitting, every piece emitted and the current piece fit in
/// `TTS_CHUNK_SIZE` bytes.
proof fn lemma_hard_state_fits(sent: Seq<char>, k: int)
    requires
        0 <= k <= sent.len(),
    ensures
        ({
            let (out, cs, ls) = hard_state(sent, k);
            &&& forall|j: int| 0 <= j < out.len() ==> bytes(#[trigger] out[j]) <= TTS_CHUNK_SIZE
            &&& bytes(sent.subrange(cs, k)) <= TTS_CHUNK_SIZE
        }),
    decreases k,
{
    lemma_hard_state_bounds(sent, k);
    if k > 0 {
        let i = k - 1;
        lemma_hard_state_fits(sent, i);
        lemma_hard_state_bounds(sent, i);
        let (out, cs, ls) = hard_state(sent, i);
        let b = bytes(sent.subrange(cs, i));
        let ch = utf8_len(sent[i]);
        assert(sent.subrange(cs, k).drop_last() =~= sent.subrange(cs, i));
        assert(bytes(sent.subrange(cs, k)) == b + ch);
        let over = b + ch > TTS_CHUNK_SIZE;
        let sp = match ls {
            Some(p) => if p > cs {
                p
            } else {
                i
            },
            None => i,
        };
        if over {
            let part = trim(sent.subrange(cs, sp));
            lemma_bytes_trim(sent.subrange(cs, sp));
            lemma_bytes_split(sent, cs, sp, i);
            let part2 = trim(sent.subrange(sp, i));
            lemma_bytes_trim(sent.subrange(sp, i));
            let over2 = bytes(sent.subrange(sp, i)) + ch > TTS_CHUNK_SIZE;
            let out1 = if part.len() > 0 {
                out.push(part)
            } else {
                out
            };
            assert forall|j: int| 0 <= j < out1.len() implies bytes(#[trigger] out1[j]) <= TTS_CHUNK_SIZE by {
                if j < out.len() {
                    assert(out1[j] == out[j]);
                }
            }
            let (out2, cs2, ls2) = hard_state(sent, k);
            assert forall|j: int| 0 <= j < out2.len() implies bytes(#[trigger] out2[j]) <= TTS_CHUNK_SIZE by {
                if j < out1.len() {
                    assert(out2[j] == out1[j]);
                }
            }
            assert(sent.subrange(sp, k).drop_last() =~= sent.subrange(sp, i));
            assert(sent.subrange(sp, k).last() == sent[i]);
            assert(bytes(sent.subrange(sp, k)) == bytes(sent.subrange(sp, i)) + ch);
            if over2 {
                assert(cs2 == i);
                assert(sent.subrange(i, k) =~= seq![sent[i]]);
                assert(seq![sent[i]].drop_last() =~= Seq::<char>::empty());
                assert(seq![sent[i]].last() == sent[i]);
                assert(bytes(Seq::<char>::empty()) == 0);
                assert(bytes(seq![sent[i]]) == ch);
                assert(bytes(sent.subrange(cs2, k)) <= TTS_CHUNK_SIZE);
            } else {
                assert(cs2 == sp);
                assert(bytes(sent.subrange(cs2, k)) <= TTS_CHUNK_SIZE);
            }
            assert(forall|j: int| 0 <= j < out2.len() ==> bytes(#[trigger] out2[j]) <= TTS_CHUNK_SIZE);
        } else {
            assert(hard_state(sent, k).0 == out);
            assert(hard_state(sent, k).1 == cs);
            assert(bytes(sent.subrange(cs, k)) <= TTS_CHUNK_SIZE);
        }
    } else {
        assert(sent.subrange(0, 0) =~= Seq::<char>::empty());
    }
}

/// Every piece cut from a sentence fits in `TTS_CHUNK_SIZE` bytes.
proof fn lemma_hard_split_fits(sent: Seq<char>)
    ensures
        forall|j: int| 0 <= j < hard_split(sent).len() ==> bytes(#[trigger] hard_split(sent)[j]) <= TTS_CHUNK_SIZE,
{
    let n = sent.len() as int;
    lemma_hard_state_fits(sent, n);
    lemma_hard_state_bounds(sent, n);
    let (out, cs, _) = hard_state(sent, n);
    assert(sent.subrange(cs, n) =~= sent.skip(cs));
    lemma_bytes_trim(sent.skip(cs));
    assert forall|j: int| 0 <= j < hard_split(sent).len() implies bytes(#[trigger] hard_split(sent)[j])
        <= TTS_CHUNK_SIZE by {
        if j < out.len() {
            assert(hard_split(sent)[j] == out[j]);
        }
    }
}

/// Packing any sentences keeps the current chunk and every emitted chunk
/// within `TTS_CHUNK_SIZE` bytes.
proof fn lemma_pack_bounded(sents: Seq<Seq<char>>, k: int)
    requires
        0 <= k <= sents.len(),
    ensures
        bytes(pack_state(sents, k).1) <= TTS_CHUNK_SIZE,
        forall|i: int|
            0 <= i < pack_state(sents, k).0.len() ==> bytes(#[trigger] pack_state(sents, k).0[i])
                <= TTS_CHUNK_SIZE,
    decreases k,
{
    if k > 0 {
        lemma_pack_bounded(sents, k - 1);
        let (chunks, cur) = pack_state(sents, k - 1);
        let sent = sents[k - 1];
        lemma_bytes_trim(cur);
        lemma_bytes_concat(cur, sent);
        lemma_bytes_concat(Seq::<char>::empty(), sent);
        assert(Seq::<char>::empty() + sent =~= sent);
        let flush = bytes(cur) + bytes(sent) > TTS_CHUNK_SIZE && cur.len() > 0;
        let chunks1 = if flush {
            chunks.push(trim(cur))
        } else {
            chunks
        };
        let cur1 = if flush {
            Seq::<char>::empty()
        } else {
            cur
        };
        assert forall|i: int| 0 <= i < chunks1.len() implies bytes(#[trigger] chunks1[i])
            <= TTS_CHUNK_SIZE by {
            if i < chunks.len() {
                assert(chunks1[i] == chunks[i]);
            }
        }
        if cur.len() == 0 {
            assert(cur =~= Seq::<char>::empty());
        }
        if bytes(sent) > TTS_CHUNK_SIZE {
            lemma_bytes_trim(cur1);
            let chunks2 = if cur1.len() > 0 {
                chunks1.push(trim(cur1))
            } else {
                chunks1
            };
            assert forall|i: int| 0 <= i < chunks2.len() implies bytes(#[trigger] chunks2[i])
                <= TTS_CHUNK_SIZE by {
                if i < chunks1.len() {
                    assert(chunks2[i] == chunks1[i]);
                }
            }
            lemma_hard_split_fits(sent);
            let all = chunks2 + hard_split(sent);
            assert(pack_state(sents, k).0 == all);
            assert forall|i: int| 0 <= i < all.len() implies bytes(#[trigger] all[i]) <= TTS_CHUNK_SIZE by {
                if i < chunks2.len() {
                    assert(all[i] == chunks2[i]);
                } else {
                    assert(all[i] == hard_split(sent)[i - chunks2.len()]);
                }
            }
        }
    }
}

/// Whatever the text, every chunk fits in `TTS_CHUNK_SIZE` bytes, and a
/// text that needs splitting yields only non-empty chunks.
pub proof fn lemma_tts_chunks_bounded(text: Seq<char>)
    ensures
        forall|i: int|
            0 <= i < tts_chunks(text).len() ==> bytes(#[trigger] tts_chunks(text)[i])
                <= TTS_CHUNK_SIZE,
        bytes(text) > TTS_CHUNK_SIZE ==> forall|i: int|
            0 <= i < tts_chunks(text).len() ==> (#[trigger] tts_chunks(text)[i]).len() > 0,
{
    if bytes(text) > TTS_CHUNK_SIZE {
        let sents = sentences(text);
        lemma_pack_bounded(sents, sents.len() as int);
        let (chunks, cur) = pack_state(sents, sents.len() as int);
        lemma_bytes_trim(cur);
        let all = if trim(cur).len() > 0 {
            chunks.push(trim(cur))
        } else {
            chunks
        };
        assert forall|i: int| 0 <= i < all.len() implies bytes(#[trigger] all[i]) <= TTS_CHUNK_SIZE by {
            if i < chunks.len() {
                assert(all[i] == chunks[i]);
            }
        }
        lemma_nonempty_elems(all);
        assert forall|i: int| 0 <= i < tts_chunks(text).len() implies bytes(#[trigger] tts_chunks(text)[i])
            <= TTS_CHUNK_SIZE by {
            let j = choose|j: int| 0 <= j < all.len() && all[j] == nonempty(all)[i];
            assert(bytes(all[j]) <= TTS_CHUNK_SIZE);
        }
    }
}


// ───────────────────────────── nothing is lost ─────────────────────────────

/// The characters of `s` that are not whitespace, in order.
pub open spec fn visible(s: Seq<char>) -> Seq<char> {
    s.filter(|c: char| !is_ws(c))
}

proof fn lemma_visible_concat(a: Seq<char>, b: Seq<char>)
    ensures
        visible(a + b) == visible(a) + visible(b),
{
    Seq::filter_distributes_over_add(a, b, |c: char| !is_ws(c));
}

proof fn lemma_visible_blank(y: Seq<char>)
    requires
        forall|k: int| 0 <= k < y.len() ==> is_ws(#[trigger] y[k]),
    ensures
        visible(y) == Seq::<char>::empty(),
    decreases y.len(),
{
    reveal(Seq::filter);
    if y.len() > 0 {
        let d = y.drop_last();
        assert forall|k: int| 0 <= k < d.len() implies is_ws(#[trigger] d[k]) by {
            assert(d[k] == y[k]);
        }
        lemma_visible_blank(d);
        assert(is_ws(y[y.len() - 1]));
    }
}

/// Trimming removes only whitespace.
proof fn lemma_visible_trim(x: Seq<char>)
    ensures
        visible(trim(x)) == visible(x),
{
    let (a, b) = lemma_trim_stretch(x);
    let l = x.subrange(0, a);
    let r = x.subrange(b, x.len() as int);
    assert(x =~= l + trim(x) + r);
    assert forall|k: int| 0 <= k < l.len() implies is_ws(#[trigger] l[k]) by {
        assert(l[k] == x[k]);
    }
    assert forall|k: int| 0 <= k < r.len() implies is_ws(#[trigger] r[k]) by {
        assert(r[k] == x[b + k]);
    }
    lemma_visible_blank(l);
    lemma_visible_blank(r);
    lemma_visible_concat(l, trim(x));
    lemma_visible_concat(l + trim(x), r);
    assert(Seq::<char>::empty() + visible(trim(x)) + Seq::<char>::empty() =~= visible(trim(x)));
}

proof fn lemma_visible_split(s: Seq<char>, a: int, b: int, c: int)
    requires
        0 <= a <= b <= c <= s.len(),
    ensures
        visible(s.subrange(a, c)) == visible(s.subrange(a, b)) + visible(s.subrange(b, c)),
{
    assert(s.subrange(a, c) =~= s.subrange(a, b) + s.subrange(b, c));
    lemma_visible_concat(s.subrange(a, b), s.subrange(b, c));
}

/// Emitting `trim(p)` when it is non-empty adds exactly what `p` shows.
proof fn lemma_visible_emit(out: Seq<Seq<char>>, p: Seq<char>)
    ensures
        visible(
            (if trim(p).len() > 0 {
                out.push(trim(p))
            } else {
                out
            }).flatten(),
        ) == visible(out.flatten()) + visible(p),
{
    lemma_visible_trim(p);
    out.lemma_flatten_push(trim(p));
    lemma_visible_concat(out.flatten(), trim(p));
    if trim(p).len() == 0 {
        assert(trim(p) =~= Seq::<char>::empty());
        reveal(Seq::filter);
        assert(visible(out.flatten()) + visible(p) =~= visible(out.flatten()));
    }
}

/// While hard-splitting, the pieces emitted and the current piece show
/// every visible character read so far.
proof fn lemma_hard_state_visible(sent: Seq<char>, k: int)
    requires
        0 <= k <= sent.len(),
    ensures
        visible(hard_state(sent, k).0.flatten()) + visible(sent.subrange(hard_state(sent, k).1, k))
            == visible(sent.subrange(0, k)),
    decreases k,
{
    lemma_hard_state_bounds(sent, k);
    if k == 0 {
        reveal(Seq::filter);
        assert(sent.subrange(0, 0) =~= Seq::<char>::empty());
        assert(Seq::<Seq<char>>::empty().flatten() =~= Seq::<char>::empty());
        assert(visible(Seq::<char>::empty()) + visible(Seq::<char>::empty()) =~= visible(
            Seq::<char>::empty(),
        ));
    } else {
        let i = k - 1;
        lemma_hard_state_visible(sent, i);
        lemma_hard_state_bounds(sent, i);
        let (out, cs, ls) = hard_state(sent, i);
        let (out2, cs2, ls2) = hard_state(sent, k);
        let ch = utf8_len(sent[i]);
        let over = bytes(sent.subrange(cs, i)) + ch > TTS_CHUNK_SIZE;
        let sp = match ls {
            Some(p) => if p > cs {
                p
            } else {
                i
            },
            None => i,
        };
        lemma_visible_split(sent, 0, i, k);
        lemma_visible_split(sent, cs, i, k);
        if over {
            let part = trim(sent.subrange(cs, sp));
            let out1 = if part.len() > 0 {
                out.push(part)
            } else {
                out
            };
            lemma_visible_emit(out, sent.subrange(cs, sp));
            lemma_visible_split(sent, cs, sp, i);
            lemma_visible_split(sent, sp, i, k);
            let over2 = bytes(sent.subrange(sp, i)) + ch > TTS_CHUNK_SIZE;
            if over2 {
                lemma_visible_emit(out1, sent.subrange(sp, i));
                assert(cs2 == i);
                assert(visible(out2.flatten()) + visible(sent.subrange(cs2, k)) =~= visible(
                    sent.subrange(0, k),
                ));
            } else {
                assert(out2 == out1);
                assert(cs2 == sp);
                assert(visible(out2.flatten()) + visible(sent.subrange(cs2, k)) =~= visible(
                    sent.subrange(0, k),
                ));
            }
        } else {
            assert(out2 == out);
            assert(cs2 == cs);
            assert(visible(out2.flatten()) + visible(sent.subrange(cs2, k)) =~= visible(
                sent.subrange(0, k),
            ));
        }
    }
}

/// The pieces of a hard-split sentence show all of its visible characters.
proof fn lemma_hard_split_visible(sent: Seq<char>)
    ensures
        visible(hard_split(sent).flatten()) == visible(sent),
{
    let n = sent.len() as int;
    lemma_hard_state_visible(sent, n);
    lemma_hard_state_bounds(sent, n);
    let (out, cs, _) = hard_state(sent, n);
    assert(sent.subrange(0, n) =~= sent);
    assert(sent.subrange(cs, n) =~= sent.skip(cs));
    lemma_visible_emit(out, sent.skip(cs));
    if cs == n {
        reveal(Seq::filter);
        assert(sent.skip(cs) =~= Seq::<char>::empty());
        assert(visible(out.flatten()) + visible(sent.skip(cs)) =~= visible(out.flatten()));
    }
}

/// While packing, the emitted chunks and the current chunk show every
/// visible character of the sentences packed so far.
proof fn lemma_pack_visible(sents: Seq<Seq<char>>, k: int)
    requires
        0 <= k <= sents.len(),
    ensures
        visible(pack_state(sents, k).0.flatten()) + visible(pack_state(sents, k).1) == visible(
            sents.take(k).flatten(),
        ),
    decreases k,
{
    reveal(Seq::filter);
    if k == 0 {
        assert(sents.take(0) =~= Seq::<Seq<char>>::empty());
        assert(Seq::<Seq<char>>::empty().flatten() =~= Seq::<char>::empty());
        assert(visible(Seq::<char>::empty()) + visible(Seq::<char>::empty()) =~= visible(
            Seq::<char>::empty(),
        ));
    } else {
        lemma_pack_visible(sents, k - 1);
        let (chunks, cur) = pack_state(sents, k - 1);
        let sent = sents[k - 1];
        assert(sents.take(k) =~= sents.take(k - 1).push(sent));
        sents.take(k - 1).lemma_flatten_push(sent);
        lemma_visible_concat(sents.take(k - 1).flatten(), sent);
        let flush = bytes(cur) + bytes(sent) > TTS_CHUNK_SIZE && cur.len() > 0;
        let chunks1 = if flush {
            chunks.push(trim(cur))
        } else {
            chunks
        };
        let cur1 = if flush {
            Seq::<char>::empty()
        } else {
            cur
        };
        lemma_visible_trim(cur);
        chunks.lemma_flatten_push(trim(cur));
        lemma_visible_concat(chunks.flatten(), trim(cur));
        assert(visible(chunks1.flatten()) + visible(cur1) =~= visible(chunks.flatten()) + visible(
            cur,
        ));
        let (c2, r2) = pack_state(sents, k);
        if bytes(sent) > TTS_CHUNK_SIZE {
            let chunks2 = if cur1.len() > 0 {
                chunks1.push(trim(cur1))
            } else {
                chunks1
            };
            lemma_visible_trim(cur1);
            chunks1.lemma_flatten_push(trim(cur1));
            lemma_visible_concat(chunks1.flatten(), trim(cur1));
            if cur1.len() == 0 {
                assert(cur1 =~= Seq::<char>::empty());
            }
            assert(visible(chunks2.flatten()) =~= visible(chunks1.flatten()) + visible(cur1));
            lemma_flatten_concat(chunks2, hard_split(sent));
            lemma_visible_concat(chunks2.flatten(), hard_split(sent).flatten());
            lemma_hard_split_visible(sent);
            assert(c2 == chunks2 + hard_split(sent));
            assert(r2 =~= Seq::<char>::empty());
            assert(visible(c2.flatten()) + visible(r2) =~= visible(sents.take(k).flatten()));
        } else {
            lemma_visible_concat(cur1, sent);
            assert(visible(c2.flatten()) + visible(r2) =~= visible(sents.take(k).flatten()));
        }
    }
}

proof fn lemma_nonempty_flatten(parts: Seq<Seq<char>>)
    ensures
        nonempty(parts).flatten() == parts.flatten(),
    decreases parts.len(),
{
    if parts.len() > 0 {
        lemma_nonempty_flatten(parts.drop_first());
        let head = if parts[0].len() > 0 {
            seq![parts[0]]
        } else {
            Seq::<Seq<char>>::empty()
        };
        lemma_flatten_concat(head, nonempty(parts.drop_first()));
        if parts[0].len() > 0 {
            head.lemma_flatten_one_element();
        } else {
            assert(parts[0] =~= Seq::<char>::empty());
            assert(head.flatten() =~= Seq::<char>::empty());
        }
        assert(nonempty(parts).flatten() =~= parts.flatten());
    }
}

/// Text-to-speech chunking loses no text: the chunks, read in order, hold
/// exactly the non-whitespace characters of the input, in the same order.
pub proof fn lemma_tts_lossless(text: Seq<char>)
    ensures
        visible(tts_chunks(text).flatten()) == visible(text),
{
    if bytes(text) <= TTS_CHUNK_SIZE {
        seq![text].lemma_flatten_one_element();
    } else {
        let sents = sentences(text);
        lemma_sentences_lossless(text);
        lemma_pack_visible(sents, sents.len() as int);
        assert(sents.take(sents.len() as int) =~= sents);
        let (chunks, cur) = pack_state(sents, sents.len() as int);
        let all = if trim(cur).len() > 0 {
            chunks.push(trim(cur))
        } else {
            chunks
        };
        lemma_visible_emit(chunks, cur);
        lemma_nonempty_flatten(all);
    }
}

} // verus!

//! Reading back a rendered subtitle file: what the parsers give for the
//! text the renderers write.
use vstd::prelude::*;
use crate::subtitle::{
    arrow, blocks_of, first_arrow_line, nonempty_trimmed, srt_block, srt_cue, srt_cues, srt_text,
    srt_timecode, trim_each, vtt_body, vtt_cue, vtt_cues, vtt_skipped, vtt_text,
};
use crate::text::{
    contains, dec_str, digit_char, first_occ, is_ws, join, lead_ws, lemma_first_occ_is,
    lemma_first_occ_props, lemma_lead_ws_bounds, lemma_trail_end_bounds, lemma_trim_edges, lemma_trim_stretch, lines,
    lemma_nonempty_elems, nonempty, occurs_at, replace, split_on, starts_with, strip_cr, trail_end,
    trim, trim_end, trim_start,
};

verus! {

// ───────────────────────────── text facts ──────────────────────────────────

/// No line break in `s`.
pub open spec fn nl_free(s: Seq<char>) -> bool {
    forall|k: int| 0 <= k < s.len() ==> #[trigger] s[k] != '\n'
}

/// A text with no whitespace at either end is its own trimmed form.
proof fn lemma_trim_fixed(x: Seq<char>)
    requires
        x.len() == 0 || (!is_ws(x[0]) && !is_ws(x.last())),
    ensures
        trim(x) == x,
{
    assert(lead_ws(x, 0) == 0);
    assert(x.skip(0) =~= x);
    if x.len() > 0 {
        assert(trail_end(x, x.len() as int) == x.len());
    }
    assert(x.take(x.len() as int) =~= x);
}

/// Trimming twice trims once.
proof fn lemma_trim_idem(x: Seq<char>)
    ensures
        trim(trim(x)) == trim(x),
{
    lemma_trim_edges(x);
    lemma_trim_fixed(trim(x));
}

proof fn lemma_trim_nl_free(x: Seq<char>)
    requires
        nl_free(x),
    ensures
        nl_free(trim(x)),
{
    let (a, b) = lemma_trim_stretch(x);
    assert forall|k: int| 0 <= k < trim(x).len() implies #[trigger] trim(x)[k] != '\n' by {
        assert(trim(x)[k] == x[a + k]);
    }
}

/// Trimming keeps an occurrence of `-->`.
proof fn lemma_trim_keeps_arrow(x: Seq<char>)
    requires
        contains(x, arrow()),
    ensures
        contains(trim(x), arrow()),
{
    lemma_first_occ_props(x, arrow(), 0);
    let k = first_occ(x, arrow(), 0);
    let (a, b) = lemma_trim_stretch(x);
    assert(x.subrange(k, k + 3) == arrow());
    assert(x[k] == '-' && x[k + 2] == '>') by {
        assert(x.subrange(k, k + 3)[0] == x[k]);
        assert(x.subrange(k, k + 3)[2] == x[k + 2]);
    }
    assert(!is_ws(x[k]) && !is_ws(x[k + 2]));
    assert(a <= k) by {
        if k < a {
            assert(is_ws(x[k]));
        }
    }
    assert(k + 3 <= b) by {
        if k + 2 >= b {
            assert(is_ws(x[k + 2]));
        }
    }
    let t = trim(x);
    assert(t.subrange(k - a, k - a + 3) =~= x.subrange(k, k + 3));
    assert(occurs_at(t, arrow(), k - a));
    lemma_first_occ_props(t, arrow(), 0);
}

/// A text without line breaks has no first line break.
proof fn lemma_no_nl(s: Seq<char>)
    requires
        nl_free(s),
    ensures
        first_occ(s, seq!['\n'], 0) == -1,
{
    assert forall|k: int| 0 <= k < s.len() implies !#[trigger] occurs_at(s, seq!['\n'], k) by {
        if occurs_at(s, seq!['\n'], k) {
            assert(s.subrange(k, k + 1)[0] == s[k]);
        }
    }
    lemma_first_occ_is(s, seq!['\n'], 0, s.len() as int);
}

/// The first line break of `a + "\n" + b`, `a` without line breaks, ends `a`.
proof fn lemma_nl_after(a: Seq<char>, b: Seq<char>)
    requires
        nl_free(a),
    ensures
        first_occ(a + seq!['\n'] + b, seq!['\n'], 0) == a.len(),
{
    let s = a + seq!['\n'] + b;
    assert forall|k: int| 0 <= k < a.len() implies !#[trigger] occurs_at(s, seq!['\n'], k) by {
        if occurs_at(s, seq!['\n'], k) {
            assert(s.subrange(k, k + 1)[0] == s[k]);
            assert(s[k] == a[k]);
        }
    }
    assert(s.subrange(a.len() as int, a.len() + 1int) =~= seq!['\n']);
    lemma_first_occ_is(s, seq!['\n'], 0, a.len() as int);
}

/// The lines of a text have no line breaks in them.
proof fn lemma_lines_nl_free(s: Seq<char>)
    ensures
        forall|k: int| 0 <= k < lines(s).len() ==> nl_free(#[trigger] lines(s)[k]),
    decreases s.len(),
{
    let i = first_occ(s, seq!['\n'], 0);
    lemma_first_occ_props(s, seq!['\n'], 0);
    if s.len() == 0 {
    } else if i < 0 {
        assert forall|k: int| 0 <= k < s.len() implies #[trigger] s[k] != '\n' by {
            if s[k] == '\n' {
                assert(s.subrange(k, k + 1) =~= seq!['\n']);
                assert(occurs_at(s, seq!['\n'], k));
            }
        }
        assert(lines(s) == seq![s]);
    } else {
        lemma_lines_nl_free(s.skip(i + 1));
        let h = s.take(i);
        assert forall|k: int| 0 <= k < h.len() implies #[trigger] h[k] != '\n' by {
            if h[k] == '\n' {
                assert(s.subrange(k, k + 1) =~= seq!['\n']);
                assert(occurs_at(s, seq!['\n'], k));
            }
        }
        let first = strip_cr(h);
        assert(nl_free(first)) by {
            assert forall|k: int| 0 <= k < first.len() implies #[trigger] first[k] != '\n' by {
                assert(first[k] == h[k]);
            }
        }
        let rest = lines(s.skip(i + 1));
        assert(lines(s) == seq![first] + rest);
        assert forall|k: int| 0 <= k < lines(s).len() implies nl_free(#[trigger] lines(s)[k]) by {
            if k > 0 {
                assert(lines(s)[k] == rest[k - 1]);
            }
        }
    }
}

/// The pieces that make a line each, joined by line breaks.
pub open spec fn line_pieces(xs: Seq<Seq<char>>) -> bool {
    forall|k: int|
        0 <= k < xs.len() ==> nl_free(#[trigger] xs[k]) && xs[k].len() > 0 && !is_ws(xs[k][0])
            && !is_ws(xs[k].last())
}

/// Splitting pieces joined by line breaks into lines gives the pieces back.
proof fn lemma_lines_join(xs: Seq<Seq<char>>)
    requires
        xs.len() > 0,
        line_pieces(xs),
    ensures
        lines(join(xs, seq!['\n'])) == xs,
    decreases xs.len(),
{
    let x = xs[0];
    assert(nl_free(x) && x.len() > 0 && !is_ws(x.last()));
    if xs.len() == 1 {
        lemma_no_nl(x);
        assert(lines(x) == seq![x]);
        assert(xs =~= seq![x]);
    } else {
        let rest = xs.drop_first();
        assert forall|k: int| 0 <= k < rest.len() implies nl_free(#[trigger] rest[k]) && rest[k].len() > 0
            && !is_ws(rest[k][0]) && !is_ws(rest[k].last()) by {
            assert(rest[k] == xs[k + 1]);
        }
        lemma_lines_join(rest);
        let s = join(xs, seq!['\n']);
        assert(s == x + seq!['\n'] + join(rest, seq!['\n']));
        lemma_nl_after(x, join(rest, seq!['\n']));
        assert(s.take(x.len() as int) =~= x);
        assert(s.skip(x.len() + 1int) =~= join(rest, seq!['\n']));
        assert(x.last() != '\r');
        assert(strip_cr(x) == x);
        assert(xs =~= seq![x] + rest);
    }
}

/// The first character of joined pieces is that of the first piece.
proof fn lemma_join_first(xs: Seq<Seq<char>>, sep: Seq<char>)
    requires
        xs.len() > 0,
        xs[0].len() > 0,
    ensures
        join(xs, sep).len() > 0,
        join(xs, sep)[0] == xs[0][0],
{
    if xs.len() > 1 {
        assert(join(xs, sep) == xs[0] + sep + join(xs.drop_first(), sep));
    }
}

/// The last character of joined pieces is that of the last piece.
proof fn lemma_join_last(xs: Seq<Seq<char>>, sep: Seq<char>)
    requires
        xs.len() > 0,
        xs.last().len() > 0,
    ensures
        join(xs, sep).len() > 0,
        join(xs, sep).last() == xs.last().last(),
    decreases xs.len(),
{
    if xs.len() > 1 {
        let rest = xs.drop_first();
        assert(rest.last() == xs.last());
        lemma_join_last(rest, sep);
        assert(join(xs, sep) == xs[0] + sep + join(rest, sep));
    }
}

// ───────────────────────────── line breaks and blank lines ─────────────────

/// No `"\r\n"` in `s`.
pub open spec fn crlf_free(s: Seq<char>) -> bool {
    forall|k: int| 0 <= k < s.len() - 1 ==> !(#[trigger] s[k] == '\r' && s[k + 1] == '\n')
}

/// No blank line (`"\n\n"`) in `s`.
pub open spec fn blank_free(s: Seq<char>) -> bool {
    forall|k: int| 0 <= k < s.len() - 1 ==> !(#[trigger] s[k] == '\n' && s[k + 1] == '\n')
}

proof fn lemma_crlf_concat(a: Seq<char>, b: Seq<char>)
    requires
        crlf_free(a),
        crlf_free(b),
        a.len() > 0 ==> a.last() != '\r',
    ensures
        crlf_free(a + b),
{
    let s = a + b;
    assert forall|k: int| 0 <= k < s.len() - 1 implies !(#[trigger] s[k] == '\r' && s[k + 1] == '\n') by {
        if k < a.len() - 1 {
            assert(s[k] == a[k] && s[k + 1] == a[k + 1]);
        } else if k == a.len() - 1 {
            assert(s[k] == a.last());
        } else {
            assert(s[k] == b[k - a.len()] && s[k + 1] == b[k + 1 - a.len()]);
        }
    }
}

/// Pieces without line breaks or a trailing `'\r'`, joined by a separator
/// of line breaks, hold no `"\r\n"`.
proof fn lemma_crlf_join(xs: Seq<Seq<char>>, sep: Seq<char>)
    requires
        forall|k: int| 0 <= k < xs.len() ==> crlf_free(#[trigger] xs[k]) && xs[k].len() > 0 && xs[k].last() != '\r',
        sep.len() > 0,
        forall|k: int| 0 <= k < sep.len() ==> #[trigger] sep[k] == '\n',
    ensures
        crlf_free(join(xs, sep)),
    decreases xs.len(),
{
    if xs.len() == 1 {
        assert(xs[0] == join(xs, sep));
    } else if xs.len() > 1 {
        let rest = xs.drop_first();
        assert forall|k: int| 0 <= k < rest.len() implies crlf_free(#[trigger] rest[k]) && rest[k].len() > 0
            && rest[k].last() != '\r' by {
            assert(rest[k] == xs[k + 1]);
        }
        lemma_crlf_join(rest, sep);
        assert(crlf_free(sep));
        lemma_crlf_concat(sep, join(rest, sep));
        assert(xs[0].last() != '\r');
        lemma_crlf_concat(xs[0], sep + join(rest, sep));
        assert(join(xs, sep) =~= xs[0] + (sep + join(rest, sep)));
    }
}

/// Non-empty pieces without line breaks, joined by line breaks, hold no
/// blank line.
proof fn lemma_blank_join(xs: Seq<Seq<char>>)
    requires
        forall|k: int| 0 <= k < xs.len() ==> nl_free(#[trigger] xs[k]) && xs[k].len() > 0,
    ensures
        blank_free(join(xs, seq!['\n'])),
    decreases xs.len(),
{
    if xs.len() == 1 {
        assert(xs[0] == join(xs, seq!['\n']));
        assert(nl_free(xs[0]));
    } else if xs.len() > 1 {
        let rest = xs.drop_first();
        assert forall|k: int| 0 <= k < rest.len() implies nl_free(#[trigger] rest[k]) && rest[k].len() > 0 by {
            assert(rest[k] == xs[k + 1]);
        }
        lemma_blank_join(rest);
        let a = xs[0];
        assert(nl_free(a) && a.len() > 0);
        let b = join(rest, seq!['\n']);
        lemma_join_first(rest, seq!['\n']);
        assert(b[0] == rest[0][0]);
        assert(nl_free(rest[0]));
        let s = join(xs, seq!['\n']);
        assert(s =~= a + seq!['\n'] + b);
        assert forall|k: int| 0 <= k < s.len() - 1 implies !(#[trigger] s[k] == '\n' && s[k + 1] == '\n') by {
            if k < a.len() {
                assert(s[k] == a[k]);
            } else if k == a.len() {
                assert(s[k + 1] == b[0]);
            } else {
                assert(s[k] == b[k - a.len() - 1] && s[k + 1] == b[k - a.len()]);
            }
        }
    }
}

/// Blocks without blank lines, each ending in another character, joined by
/// blank lines, split back at the blank lines into the blocks.
proof fn lemma_split_join(bs: Seq<Seq<char>>)
    requires
        bs.len() > 0,
        forall|k: int|
            0 <= k < bs.len() ==> blank_free(#[trigger] bs[k]) && bs[k].len() > 0 && bs[k].last() != '\n',
    ensures
        split_on(join(bs, seq!['\n', '\n']), seq!['\n', '\n']) == bs,
    decreases bs.len(),
{
    let sep = seq!['\n', '\n'];
    let b = bs[0];
    assert(blank_free(b) && b.len() > 0 && b.last() != '\n');
    if bs.len() == 1 {
        assert forall|k: int| 0 <= k < b.len() implies !#[trigger] occurs_at(b, sep, k) by {
            if occurs_at(b, sep, k) {
                assert(b.subrange(k, k + 2)[0] == b[k]);
                assert(b.subrange(k, k + 2)[1] == b[k + 1]);
            }
        }
        lemma_first_occ_is(b, sep, 0, b.len() as int);
        assert(bs =~= seq![b]);
    } else {
        let rest = bs.drop_first();
        assert forall|k: int| 0 <= k < rest.len() implies blank_free(#[trigger] rest[k]) && rest[k].len() > 0
            && rest[k].last() != '\n' by {
            assert(rest[k] == bs[k + 1]);
        }
        lemma_split_join(rest);
        let r = join(rest, sep);
        let s = join(bs, sep);
        assert(s == b + sep + r);
        assert forall|k: int| 0 <= k < b.len() implies !#[trigger] occurs_at(s, sep, k) by {
            if occurs_at(s, sep, k) {
                assert(s.subrange(k, k + 2)[0] == s[k]);
                assert(s.subrange(k, k + 2)[1] == s[k + 1]);
                assert(s[k] == b[k]);
                if k + 1 < b.len() {
                    assert(s[k + 1] == b[k + 1]);
                } else {
                    assert(b[k] == b.last());
                }
            }
        }
        assert(s.subrange(b.len() as int, b.len() + 2int) =~= sep);
        lemma_first_occ_is(s, sep, 0, b.len() as int);
        assert(s.take(b.len() as int) =~= b);
        assert(s.skip(b.len() + 2int) =~= r);
        assert(bs =~= seq![b] + rest);
    }
}

// ───────────────────────────── numbers ─────────────────────────────────────

/// The decimal form of a number is non-empty and made of digits.
proof fn lemma_dec_digits(n: nat)
    ensures
        dec_str(n).len() > 0,
        forall|k: int| 0 <= k < dec_str(n).len() ==> '0' <= #[trigger] dec_str(n)[k] <= '9',
    decreases n,
{
    let ds = seq!['0', '1', '2', '3', '4', '5', '6', '7', '8', '9'];
    if n >= 10 {
        lemma_dec_digits(n / 10);
        let d = digit_char(n % 10);
        assert(ds[(n % 10) as int] == d);
        assert('0' <= d <= '9');
        assert forall|k: int| 0 <= k < dec_str(n).len() implies '0' <= #[trigger] dec_str(n)[k] <= '9' by {
            if k < dec_str(n / 10).len() {
                assert(dec_str(n)[k] == dec_str(n / 10)[k]);
            }
        }
    } else {
        assert(ds[n as int] == digit_char(n));
    }
}

// ───────────────────────────── SRT ─────────────────────────────────────────

/// A cue as SRT parsing yields it, with non-empty text lines: its timecode
/// holds `-->`, and the timecode and each of its (one or more) text lines is
/// a trimmed, non-empty single line.
pub open spec fn srt_cue_ok(c: (Seq<char>, Seq<Seq<char>>)) -> bool {
    &&& line_pieces(seq![srt_timecode(c.0)] + c.1)
    &&& contains(srt_timecode(c.0), arrow())
    &&& c.1.len() > 0
}

/// Every text line of every cue is non-empty.
pub open spec fn lines_nonempty(cs: Seq<(Seq<char>, Seq<Seq<char>>)>) -> bool {
    forall|i: int, j: int| 0 <= i < cs.len() && 0 <= j < cs[i].1.len() ==> (#[trigger] cs[i].1[j]).len() > 0
}

/// The cues renumbered from 1: each header becomes the number, a line
/// break and the cue's timecode; the text lines stay.
pub open spec fn srt_renumbered(cs: Seq<(Seq<char>, Seq<Seq<char>>)>) -> Seq<(Seq<char>, Seq<Seq<char>>)> {
    Seq::new(
        cs.len(),
        |i: int| (dec_str((i + 1) as nat) + seq!['\n'] + srt_timecode(cs[i].0), cs[i].1),
    )
}

/// A trimmed, non-empty text has no whitespace at its ends.
proof fn lemma_trimmed_edges(y: Seq<char>)
    requires
        trim(y).len() > 0,
    ensures
        !is_ws(trim(y)[0]) && !is_ws(trim(y).last()),
{
    lemma_trim_edges(y);
}

/// The cue a block parses to, when it parses to one.
pub open spec fn srt_parsed(block: Seq<char>) -> (Seq<char>, Seq<Seq<char>>) {
    srt_cue(block)->0
}

/// A cue parsed from one block, with non-empty text lines, is well shaped.
proof fn lemma_srt_cue_ok(block: Seq<char>)
    requires
        srt_cue(block) is Some,
        forall|j: int| 0 <= j < srt_parsed(block).1.len() ==> (#[trigger] srt_parsed(block).1[j]).len() > 0,
    ensures
        srt_cue_ok(srt_parsed(block)),
{
    let ls = lines(block);
    lemma_lines_nl_free(block);
    let c = srt_cue(block)->0;
    let a = trim(ls[0]);
    let t = trim(ls[1]);
    assert(nl_free(ls[0]) && nl_free(ls[1]));
    lemma_trim_nl_free(ls[0]);
    lemma_trim_nl_free(ls[1]);
    lemma_trim_keeps_arrow(ls[1]);
    lemma_first_occ_props(t, arrow(), 0);
    assert(t.len() > 0);
    lemma_trimmed_edges(ls[1]);
    assert(c.0 == a + seq!['\n'] + t);
    lemma_nl_after(a, t);
    assert((a + seq!['\n'] + t).skip(a.len() + 1int) =~= t);
    assert(srt_timecode(c.0) == t);
    let xs = seq![t] + c.1;
    assert forall|k: int| 0 <= k < xs.len() implies nl_free(#[trigger] xs[k]) && xs[k].len() > 0 && !is_ws(
        xs[k][0],
    ) && !is_ws(xs[k].last()) by {
        if k > 0 {
            let y = ls[k + 1];
            assert(xs[k] == c.1[k - 1]);
            assert(c.1 == trim_each(ls.skip(2)));
            assert(c.1[k - 1] == trim(y));
            assert(nl_free(y));
            lemma_trim_nl_free(y);
            assert(c == srt_parsed(block));
            assert(srt_parsed(block).1[k - 1].len() > 0);
            lemma_trimmed_edges(y);
        }
    }
}

/// The cues parsed from blocks, with non-empty text lines, are well shaped.
proof fn lemma_srt_cues_ok(blocks: Seq<Seq<char>>)
    requires
        lines_nonempty(srt_cues(blocks)),
    ensures
        forall|i: int| 0 <= i < srt_cues(blocks).len() ==> srt_cue_ok(#[trigger] srt_cues(blocks)[i]),
    decreases blocks.len(),
{
    if blocks.len() > 0 {
        let head: Seq<(Seq<char>, Seq<Seq<char>>)> = match srt_cue(blocks[0]) {
            Some(c) => seq![c],
            None => Seq::empty(),
        };
        let rest = srt_cues(blocks.drop_first());
        let cs = srt_cues(blocks);
        assert(cs == head + rest);
        assert(lines_nonempty(rest)) by {
            assert forall|i: int, j: int| 0 <= i < rest.len() && 0 <= j < rest[i].1.len() implies (
            #[trigger] rest[i].1[j]).len() > 0 by {
                assert(rest[i] == cs[i + head.len()]);
            }
        }
        lemma_srt_cues_ok(blocks.drop_first());
        if srt_cue(blocks[0]) is Some {
            assert forall|j: int| 0 <= j < srt_parsed(blocks[0]).1.len() implies (#[trigger] srt_parsed(blocks[0]).1[j]).len() > 0 by {
                assert(cs[0] == srt_cue(blocks[0])->0);
            }
            lemma_srt_cue_ok(blocks[0]);
        }
        assert forall|i: int| 0 <= i < cs.len() implies srt_cue_ok(#[trigger] cs[i]) by {
            if i >= head.len() {
                assert(cs[i] == rest[i - head.len()]);
            }
        }
    }
}

/// The lines an SRT block is written as: number, timecode, text lines.
pub open spec fn srt_pieces(i: int, c: (Seq<char>, Seq<Seq<char>>)) -> Seq<Seq<char>> {
    seq![dec_str((i + 1) as nat), srt_timecode(c.0)] + c.1
}

proof fn lemma_srt_block(i: int, c: (Seq<char>, Seq<Seq<char>>))
    requires
        0 <= i,
        srt_cue_ok(c),
    ensures
        srt_block(i, c) == join(srt_pieces(i, c), seq!['\n']),
        line_pieces(srt_pieces(i, c)),
{
    let d = dec_str((i + 1) as nat);
    let t = srt_timecode(c.0);
    let ps = srt_pieces(i, c);
    let nl = seq!['\n'];
    assert(ps.drop_first() =~= seq![t] + c.1);
    assert((seq![t] + c.1).drop_first() =~= c.1);
    assert(join(seq![t] + c.1, nl) == t + nl + join(c.1, nl));
    assert(join(ps, nl) == d + nl + join(seq![t] + c.1, nl));
    assert(srt_block(i, c) =~= join(ps, nl));
    lemma_dec_digits((i + 1) as nat);
    let tl = seq![t] + c.1;
    assert forall|k: int| 0 <= k < ps.len() implies nl_free(#[trigger] ps[k]) && ps[k].len() > 0 && !is_ws(
        ps[k][0],
    ) && !is_ws(ps[k].last()) by {
        if k == 0 {
            assert(ps[0] == d);
            assert('0' <= d[0] <= '9');
            assert('0' <= d.last() <= '9');
        } else {
            assert(ps[k] == tl[k - 1]);
        }
    }
}

/// Pieces without line breaks hold no `"\r\n"`.
proof fn lemma_pieces_crlf(xs: Seq<Seq<char>>)
    requires
        line_pieces(xs),
    ensures
        forall|k: int| 0 <= k < xs.len() ==> crlf_free(#[trigger] xs[k]) && xs[k].len() > 0 && xs[k].last() != '\r',
{
    assert forall|k: int| 0 <= k < xs.len() implies crlf_free(#[trigger] xs[k]) && xs[k].len() > 0 && xs[k].last()
        != '\r' by {
        assert(nl_free(xs[k]));
        assert(!is_ws(xs[k].last()));
        let x = xs[k];
        assert forall|j: int| 0 <= j < x.len() - 1 implies !(#[trigger] x[j] == '\r' && x[j + 1] == '\n') by {
            assert(x[j + 1] != '\n');
        }
    }
}

/// Trimmed, non-empty blocks are kept as they are.
proof fn lemma_nonempty_trimmed_id(bs: Seq<Seq<char>>)
    requires
        forall|k: int| 0 <= k < bs.len() ==> trim(#[trigger] bs[k]) == bs[k] && bs[k].len() > 0,
    ensures
        nonempty_trimmed(bs) == bs,
    decreases bs.len(),
{
    if bs.len() > 0 {
        let rest = bs.drop_first();
        assert forall|k: int| 0 <= k < rest.len() implies trim(#[trigger] rest[k]) == rest[k] && rest[k].len() > 0 by {
            assert(rest[k] == bs[k + 1]);
        }
        lemma_nonempty_trimmed_id(rest);
        assert(trim(bs[0]) == bs[0]);
        assert(bs =~= seq![bs[0]] + rest);
    }
}

/// Blocks that each parse to a given cue parse to those cues.
proof fn lemma_srt_cues_each(bs: Seq<Seq<char>>, want: Seq<(Seq<char>, Seq<Seq<char>>)>)
    requires
        bs.len() == want.len(),
        forall|k: int| 0 <= k < bs.len() ==> srt_cue(#[trigger] bs[k]) == Some(want[k]),
    ensures
        srt_cues(bs) == want,
    decreases bs.len(),
{
    if bs.len() > 0 {
        let r = bs.drop_first();
        let w = want.drop_first();
        assert forall|k: int| 0 <= k < r.len() implies srt_cue(#[trigger] r[k]) == Some(w[k]) by {
            assert(r[k] == bs[k + 1]);
            assert(w[k] == want[k + 1]);
        }
        lemma_srt_cues_each(r, w);
        assert(srt_cue(bs[0]) == Some(want[0]));
        assert(want =~= seq![want[0]] + w);
    }
}

/// Rendering well-shaped cues and parsing the text gives them back,
/// renumbered from 1.
proof fn lemma_srt_read_back(cs: Seq<(Seq<char>, Seq<Seq<char>>)>)
    requires
        forall|i: int| 0 <= i < cs.len() ==> srt_cue_ok(#[trigger] cs[i]),
    ensures
        srt_cues(blocks_of(srt_text(cs))) == srt_renumbered(cs),
{
    let n = cs.len();
    let nl = seq!['\n'];
    let blank = seq!['\n', '\n'];
    let crlf = seq!['\r', '\n'];
    let bs = Seq::new(n, |i: int| srt_block(i, cs[i]));
    let text = srt_text(cs);
    assert(text == join(bs, blank));
    if n == 0 {
        assert(text =~= Seq::<char>::empty());
        assert(replace(text, crlf, nl) == text);
        lemma_trim_fixed(text);
        assert(first_occ(text, blank, 0) == -1);
        assert(split_on(text, blank) == seq![text]);
        assert(seq![text][0] == text);
        assert(trim(seq![text][0]).len() == 0);
        assert(seq![text].drop_first() =~= Seq::<Seq<char>>::empty());
        assert(nonempty_trimmed(Seq::<Seq<char>>::empty()) == Seq::<Seq<char>>::empty());
        assert(nonempty_trimmed(seq![text]) =~= Seq::<Seq<char>>::empty());
        assert(srt_renumbered(cs) =~= Seq::<(Seq<char>, Seq<Seq<char>>)>::empty());
    } else {
        // Each block: its lines, their shape, and what it parses to.
        assert forall|i: int| 0 <= i < n implies {
            &&& blank_free(#[trigger] bs[i])
            &&& crlf_free(bs[i])
            &&& bs[i].len() > 0
            &&& '0' <= bs[i][0] <= '9'
            &&& !is_ws(bs[i].last())
            &&& trim(bs[i]) == bs[i]
            &&& srt_cue(bs[i]) == Some(srt_renumbered(cs)[i])
        } by {
            let c = cs[i];
            assert(srt_cue_ok(c));
            lemma_srt_block(i, c);
            let ps = srt_pieces(i, c);
            assert(bs[i] == join(ps, nl));
            lemma_blank_join(ps);
            lemma_pieces_crlf(ps);
            assert forall|k: int| 0 <= k < nl.len() implies #[trigger] nl[k] == '\n' by {}
            lemma_crlf_join(ps, nl);
            lemma_join_first(ps, nl);
            lemma_join_last(ps, nl);
            lemma_dec_digits((i + 1) as nat);
            assert(ps[0] == dec_str((i + 1) as nat));
            lemma_trim_fixed(bs[i]);
            // Parsing the block.
            lemma_lines_join(ps);
            let ls = lines(bs[i]);
            assert(ls == ps);
            let t = srt_timecode(c.0);
            assert(ls[1] == t);
            assert(ls.skip(2) =~= c.1);
            assert(ls.len() > 2);
            lemma_trim_fixed(ls[0]);
            lemma_trim_fixed(t);
            assert(trim_each(c.1) =~= c.1) by {
                assert forall|k: int| 0 <= k < c.1.len() implies trim(#[trigger] c.1[k]) == c.1[k] by {
                    assert(c.1[k] == ps[k + 2]);
                    lemma_trim_fixed(c.1[k]);
                }
            }
            assert(srt_cue(bs[i]) == Some((ls[0] + nl + t, c.1)));
        }
        // The whole text.
        assert forall|k: int| 0 <= k < bs.len() implies crlf_free(#[trigger] bs[k]) && bs[k].len() > 0
            && bs[k].last() != '\r' by {}
        assert forall|k: int| 0 <= k < blank.len() implies #[trigger] blank[k] == '\n' by {}
        lemma_crlf_join(bs, blank);
        assert forall|k: int| 0 <= k < text.len() implies !#[trigger] occurs_at(text, crlf, k) by {
            if occurs_at(text, crlf, k) {
                assert(text.subrange(k, k + 2)[0] == text[k]);
                assert(text.subrange(k, k + 2)[1] == text[k + 1]);
            }
        }
        assert forall|k: int| !#[trigger] occurs_at(text, crlf, k) by {
            if occurs_at(text, crlf, k) {
                assert(0 <= k < text.len());
            }
        }
        crate::xml::lemma_replace_absent(text, crlf, nl);
        lemma_join_first(bs, blank);
        lemma_join_last(bs, blank);
        lemma_trim_fixed(text);
        assert forall|k: int| 0 <= k < bs.len() implies blank_free(#[trigger] bs[k]) && bs[k].len() > 0
            && bs[k].last() != '\n' by {}
        lemma_split_join(bs);
        assert forall|k: int| 0 <= k < bs.len() implies trim(#[trigger] bs[k]) == bs[k] && bs[k].len() > 0 by {}
        lemma_nonempty_trimmed_id(bs);
        assert(blocks_of(text) == bs);
        assert forall|k: int| 0 <= k < bs.len() implies srt_cue(#[trigger] bs[k]) == Some(
            srt_renumbered(cs)[k],
        ) by {}
        lemma_srt_cues_each(bs, srt_renumbered(cs));
    }
}

/// Parsing what `render_srt` writes for parsed cues gives those cues back,
/// numbered from 1, when every text line is non-empty: timecodes and text
/// lines survive untouched.
pub proof fn lemma_srt_roundtrip(input: Seq<char>)
    requires
        lines_nonempty(srt_cues(blocks_of(input))),
    ensures
        srt_cues(blocks_of(srt_text(srt_cues(blocks_of(input))))) == srt_renumbered(srt_cues(blocks_of(input))),
{
    lemma_srt_cues_ok(blocks_of(input));
    lemma_srt_read_back(srt_cues(blocks_of(input)));
}

// ───────────────────────────── WebVTT ──────────────────────────────────────

/// Blocks from `blocks_of` are trimmed and non-empty.
proof fn lemma_nonempty_trimmed_elems(parts: Seq<Seq<char>>)
    ensures
        forall|k: int|
            0 <= k < nonempty_trimmed(parts).len() ==> trim(#[trigger] nonempty_trimmed(parts)[k])
                == nonempty_trimmed(parts)[k] && nonempty_trimmed(parts)[k].len() > 0,
    decreases parts.len(),
{
    if parts.len() > 0 {
        lemma_nonempty_trimmed_elems(parts.drop_first());
        let t = trim(parts[0]);
        lemma_trim_idem(parts[0]);
        let head: Seq<Seq<char>> = if t.len() > 0 {
            seq![t]
        } else {
            Seq::empty()
        };
        let rest = nonempty_trimmed(parts.drop_first());
        let all = nonempty_trimmed(parts);
        assert(all == head + rest);
        assert forall|k: int| 0 <= k < all.len() implies trim(#[trigger] all[k]) == all[k] && all[k].len() > 0 by {
            if k >= head.len() {
                assert(all[k] == rest[k - head.len()]);
            }
        }
    }
}

/// The first line of a text that starts with a visible character starts
/// with that character.
proof fn lemma_lines_first(b: Seq<char>)
    requires
        b.len() > 0,
        !is_ws(b[0]),
    ensures
        lines(b).len() > 0,
        lines(b)[0].len() > 0,
        lines(b)[0][0] == b[0],
{
    let i = first_occ(b, seq!['\n'], 0);
    lemma_first_occ_props(b, seq!['\n'], 0);
    if i >= 0 {
        assert(b.subrange(i, i + 1)[0] == b[i]);
        assert(i > 0);
        let h = b.take(i);
        assert(h[0] == b[0]);
        if i == 1 {
            assert(h.last() == b[0]);
        }
    }
}

/// Trimming finds no `-->` the text did not hold.
proof fn lemma_trim_no_arrow(x: Seq<char>)
    requires
        contains(trim(x), arrow()),
    ensures
        contains(x, arrow()),
{
    let (a, b) = lemma_trim_stretch(x);
    let t = trim(x);
    lemma_first_occ_props(t, arrow(), 0);
    let k = first_occ(t, arrow(), 0);
    assert(x.subrange(a + k, a + k + 3) =~= t.subrange(k, k + 3));
    assert(occurs_at(x, arrow(), a + k));
    lemma_first_occ_props(x, arrow(), 0);
}

proof fn lemma_first_arrow_before(ls: Seq<Seq<char>>, i: int)
    requires
        0 <= i,
    ensures
        forall|j: int|
            i <= j < ls.len() && (first_arrow_line(ls, i) == -1 || j < first_arrow_line(ls, i)) ==> !contains(
                #[trigger] ls[j],
                arrow(),
            ),
        first_arrow_line(ls, i) >= 0 ==> contains(ls[first_arrow_line(ls, i)], arrow()),
    decreases ls.len() + 1 - i,
{
    if i < ls.len() && !contains(ls[i], arrow()) {
        lemma_first_arrow_before(ls, i + 1);
    }
}

proof fn lemma_first_arrow_is(ls: Seq<Seq<char>>, i: int, m: int)
    requires
        0 <= i <= m < ls.len(),
        forall|j: int| i <= j < m ==> !contains(#[trigger] ls[j], arrow()),
        contains(ls[m], arrow()),
    ensures
        first_arrow_line(ls, i) == m,
    decreases m - i,
{
    if i < m {
        assert(!contains(ls[i], arrow()));
        lemma_first_arrow_is(ls, i + 1, m);
    }
}

/// In pieces joined by line breaks with no blank line, every inner piece is
/// non-empty.
proof fn lemma_blank_join_inner(xs: Seq<Seq<char>>)
    requires
        blank_free(join(xs, seq!['\n'])),
    ensures
        forall|j: int| 0 < j < xs.len() - 1 ==> (#[trigger] xs[j]).len() > 0,
    decreases xs.len(),
{
    if xs.len() > 2 {
        let rest = xs.drop_first();
        let r = join(rest, seq!['\n']);
        let s = join(xs, seq!['\n']);
        assert(s =~= xs[0] + seq!['\n'] + r);
        let o: int = xs[0].len() + 1int;
        assert(blank_free(r)) by {
            assert forall|k: int| 0 <= k < r.len() - 1 implies !(#[trigger] r[k] == '\n' && r[k + 1] == '\n') by {
                assert(s[o + k] == r[k] && s[o + k + 1] == r[k + 1]);
            }
        }
        lemma_blank_join_inner(rest);
        assert(rest[0].len() > 0) by {
            if rest[0].len() == 0 {
                assert(r == rest[0] + seq!['\n'] + join(rest.drop_first(), seq!['\n']));
                assert(r[0] == '\n');
                assert(s[o - 1] == '\n' && s[o] == r[0]);
            }
        }
        assert forall|j: int| 0 < j < xs.len() - 1 implies (#[trigger] xs[j]).len() > 0 by {
            assert(xs[j] == rest[j - 1]);
        }
    }
}

/// Joining two non-empty runs of pieces.
proof fn lemma_join_concat(a: Seq<Seq<char>>, b: Seq<Seq<char>>, sep: Seq<char>)
    requires
        a.len() > 0,
        b.len() > 0,
    ensures
        join(a + b, sep) == join(a, sep) + sep + join(b, sep),
    decreases a.len(),
{
    if a.len() == 1 {
        assert((a + b).drop_first() =~= b);
        assert((a + b)[0] == a[0]);
    } else {
        lemma_join_concat(a.drop_first(), b, sep);
        assert((a + b).drop_first() =~= a.drop_first() + b);
        assert((a + b)[0] == a[0]);
        assert(join(a + b, sep) == a[0] + sep + join(a.drop_first() + b, sep));
        assert(join(a, sep) == a[0] + sep + join(a.drop_first(), sep));
    }
}

/// Removing trailing whitespace from a text ending in two line breaks
/// after a visible character leaves the text before them.
proof fn lemma_trim_end_blank(x: Seq<char>)
    requires
        x.len() > 0,
        !is_ws(x.last()),
    ensures
        trim_end(x + seq!['\n', '\n']) == x,
{
    let s = x + seq!['\n', '\n'];
    let n = s.len() as int;
    assert(is_ws(s[n - 1]) && is_ws(s[n - 2]));
    assert(s[n - 3] == x.last());
    assert(trail_end(s, n - 2) == n - 2);
    assert(trail_end(s, n - 1) == n - 2);
    assert(trail_end(s, n) == n - 2);
    assert(s.take(n - 2) =~= x);
}

/// A WebVTT cue's block: its header lines, then its text lines.
pub open spec fn vtt_block(c: (Seq<char>, Seq<Seq<char>>)) -> Seq<char> {
    c.0 + seq!['\n'] + join(c.1, seq!['\n'])
}

proof fn lemma_vtt_body(cs: Seq<(Seq<char>, Seq<Seq<char>>)>)
    requires
        cs.len() > 0,
    ensures
        vtt_body(cs) == join(Seq::new(cs.len(), |i: int| vtt_block(cs[i])), seq!['\n', '\n']) + seq![
            '\n',
            '\n',
        ],
    decreases cs.len(),
{
    let bs = Seq::new(cs.len(), |i: int| vtt_block(cs[i]));
    let rest = cs.drop_first();
    let blank = seq!['\n', '\n'];
    assert(vtt_body(cs) == vtt_block(cs[0]) + blank + vtt_body(rest));
    if cs.len() == 1 {
        assert(vtt_body(rest) == Seq::<char>::empty());
        assert(join(bs, blank) == bs[0]);
        assert(vtt_body(cs) =~= join(bs, blank) + blank);
    } else {
        lemma_vtt_body(rest);
        let rbs = Seq::new(rest.len(), |i: int| vtt_block(rest[i]));
        assert(bs.drop_first() =~= rbs);
        assert(join(bs, blank) == bs[0] + blank + join(rbs, blank));
        assert(vtt_body(cs) =~= join(bs, blank) + blank);
    }
}

/// A cue as WebVTT parsing yields it, with no blank line in its header: the
/// header is trimmed non-empty lines, of which only the last holds `-->`,
/// the first does not open a skipped block, and the text is one or more
/// trimmed non-empty lines.
pub open spec fn vtt_cue_ok(c: (Seq<char>, Seq<Seq<char>>)) -> bool {
    let h = lines(c.0);
    &&& h.len() > 0
    &&& c.0 == join(h, seq!['\n'])
    &&& line_pieces(h)
    &&& contains(h.last(), arrow())
    &&& forall|j: int| 0 <= j < h.len() - 1 ==> !contains(#[trigger] h[j], arrow())
    &&& !vtt_skipped(h[0])
    &&& c.1.len() > 0
    &&& line_pieces(c.1)
}

/// No cue header holds a blank line.
pub open spec fn headers_blank_free(cs: Seq<(Seq<char>, Seq<Seq<char>>)>) -> bool {
    forall|i: int| 0 <= i < cs.len() ==> blank_free(#[trigger] cs[i].0)
}

/// The cue a block parses to, when it parses to one.
pub open spec fn vtt_parsed(block: Seq<char>) -> (Seq<char>, Seq<Seq<char>>) {
    vtt_cue(block)->0
}

proof fn lemma_vtt_cue_ok(block: Seq<char>)
    requires
        block.len() > 0,
        !is_ws(block[0]),
        vtt_cue(block) is Some,
        blank_free(vtt_parsed(block).0),
    ensures
        vtt_cue_ok(vtt_parsed(block)),
{
    let ls = lines(block);
    lemma_lines_nl_free(block);
    lemma_lines_first(block);
    let c = vtt_parsed(block);
    let idx = first_arrow_line(ls, 0);
    crate::subtitle::lemma_first_arrow_line(ls, 0);
    lemma_first_arrow_before(ls, 0);
    let hs = trim_each(ls.take(idx + 1));
    assert(c.0 == join(hs, seq!['\n']));
    lemma_blank_join_inner(hs);
    // Each header line: a trimmed, non-empty single line.
    assert forall|j: int| 0 <= j < hs.len() implies nl_free(#[trigger] hs[j]) && hs[j].len() > 0 && !is_ws(
        hs[j][0],
    ) && !is_ws(hs[j].last()) by {
        assert(hs[j] == trim(ls[j]));
        assert(nl_free(ls[j]));
        lemma_trim_nl_free(ls[j]);
        if j == 0 {
            lemma_trim_edges(ls[0]);
            let (a, b) = lemma_trim_stretch(ls[0]);
            assert(!is_ws(ls[0][0]));
            assert(a == 0) by {
                if a > 0 {
                    assert(is_ws(ls[0][0]));
                }
            }
            assert(b > 0) by {
                if b == 0 {
                    assert(is_ws(ls[0][0]));
                }
            }
        } else if j == hs.len() - 1 {
            lemma_trim_keeps_arrow(ls[j]);
            lemma_first_occ_props(trim(ls[j]), arrow(), 0);
        }
        lemma_trim_edges(ls[j]);
    }
    lemma_lines_join(hs);
    assert(lines(c.0) == hs);
    lemma_trim_keeps_arrow(ls[idx]);
    assert forall|j: int| 0 <= j < hs.len() - 1 implies !contains(#[trigger] hs[j], arrow()) by {
        if contains(hs[j], arrow()) {
            lemma_trim_no_arrow(ls[j]);
        }
    }
    // The text lines.
    let ts = trim_each(ls.skip(idx + 1));
    lemma_nonempty_elems(ts);
    assert(c.1 == nonempty(ts));
    assert forall|k: int| 0 <= k < c.1.len() implies nl_free(#[trigger] c.1[k]) && c.1[k].len() > 0 && !is_ws(
        c.1[k][0],
    ) && !is_ws(c.1[k].last()) by {
        let j = choose|j: int| 0 <= j < ts.len() && ts[j] == nonempty(ts)[k];
        assert(ts[j] == trim(ls[idx + 1 + j]));
        assert(nl_free(ls[idx + 1 + j]));
        lemma_trim_nl_free(ls[idx + 1 + j]);
        lemma_trim_edges(ls[idx + 1 + j]);
    }
}

proof fn lemma_vtt_cues_ok(blocks: Seq<Seq<char>>)
    requires
        forall|k: int| 0 <= k < blocks.len() ==> (#[trigger] blocks[k]).len() > 0 && !is_ws(blocks[k][0]),
        headers_blank_free(vtt_cues(blocks)),
    ensures
        forall|i: int| 0 <= i < vtt_cues(blocks).len() ==> vtt_cue_ok(#[trigger] vtt_cues(blocks)[i]),
    decreases blocks.len(),
{
    if blocks.len() > 0 {
        let head: Seq<(Seq<char>, Seq<Seq<char>>)> = match vtt_cue(blocks[0]) {
            Some(c) => seq![c],
            None => Seq::empty(),
        };
        let r = blocks.drop_first();
        let rest = vtt_cues(r);
        let cs = vtt_cues(blocks);
        assert(cs == head + rest);
        assert forall|k: int| 0 <= k < r.len() implies (#[trigger] r[k]).len() > 0 && !is_ws(r[k][0]) by {
            assert(r[k] == blocks[k + 1]);
        }
        assert(headers_blank_free(rest)) by {
            assert forall|i: int| 0 <= i < rest.len() implies blank_free(#[trigger] rest[i].0) by {
                assert(rest[i] == cs[i + head.len()]);
            }
        }
        lemma_vtt_cues_ok(r);
        if vtt_cue(blocks[0]) is Some {
            assert(cs[0] == vtt_parsed(blocks[0]));
            assert(blank_free(cs[0].0));
            lemma_vtt_cue_ok(blocks[0]);
        }
        assert forall|i: int| 0 <= i < cs.len() implies vtt_cue_ok(#[trigger] cs[i]) by {
            if i >= head.len() {
                assert(cs[i] == rest[i - head.len()]);
            }
        }
    }
}

proof fn lemma_vtt_cues_each(bs: Seq<Seq<char>>, want: Seq<(Seq<char>, Seq<Seq<char>>)>)
    requires
        bs.len() == want.len(),
        forall|k: int| 0 <= k < bs.len() ==> vtt_cue(#[trigger] bs[k]) == Some(want[k]),
    ensures
        vtt_cues(bs) == want,
    decreases bs.len(),
{
    if bs.len() > 0 {
        let r = bs.drop_first();
        let w = want.drop_first();
        assert forall|k: int| 0 <= k < r.len() implies vtt_cue(#[trigger] r[k]) == Some(w[k]) by {
            assert(r[k] == bs[k + 1]);
            assert(w[k] == want[k + 1]);
        }
        lemma_vtt_cues_each(r, w);
        assert(vtt_cue(bs[0]) == Some(want[0]));
        assert(want =~= seq![want[0]] + w);
    }
}

/// The `WEBVTT` line that opens a rendered file.
pub open spec fn webvtt() -> Seq<char> {
    seq!['W', 'E', 'B', 'V', 'T', 'T']
}

/// Rendering well-shaped cues and parsing the text gives them back.
proof fn lemma_vtt_read_back(cs: Seq<(Seq<char>, Seq<Seq<char>>)>)
    requires
        forall|i: int| 0 <= i < cs.len() ==> vtt_cue_ok(#[trigger] cs[i]),
    ensures
        vtt_cues(blocks_of(vtt_text(cs))) == cs,
{
    let n = cs.len();
    let nl = seq!['\n'];
    let blank = seq!['\n', '\n'];
    let crlf = seq!['\r', '\n'];
    let w = webvtt();
    let bs = Seq::new(n, |i: int| vtt_block(cs[i]));
    let all = seq![w] + bs;
    let text = vtt_text(cs);
    // The text is the header line and the cue blocks, joined by blank lines.
    if n == 0 {
        assert(vtt_body(cs) == Seq::<char>::empty());
        assert(seq!['W', 'E', 'B', 'V', 'T', 'T', '\n', '\n'] + vtt_body(cs) =~= w + blank);
        lemma_trim_end_blank(w);
        assert(text == w);
        assert(all =~= seq![w]);
        assert(join(all, blank) == w);
    } else {
        lemma_vtt_body(cs);
        assert(all.drop_first() =~= bs);
        assert(join(all, blank) == w + blank + join(bs, blank));
        assert(seq!['W', 'E', 'B', 'V', 'T', 'T', '\n', '\n'] + vtt_body(cs) =~= join(all, blank) + blank);
        lemma_join_last(all, blank);
        assert(all.last() == bs[n - 1]);
        let c = cs[n - 1];
        assert(vtt_cue_ok(c));
        lemma_join_last(c.1, nl);
        assert(bs[n - 1].last() == join(c.1, nl).last());
        lemma_trim_end_blank(join(all, blank));
        assert(text == join(all, blank));
    }
    assert(text == join(all, blank));
    // Each block.
    assert forall|k: int| 0 <= k < all.len() implies {
        &&& blank_free(#[trigger] all[k])
        &&& crlf_free(all[k])
        &&& all[k].len() > 0
        &&& !is_ws(all[k][0])
        &&& !is_ws(all[k].last())
        &&& trim(all[k]) == all[k]
        &&& (k == 0 ==> vtt_cue(all[k]) is None)
        &&& (k > 0 ==> vtt_cue(all[k]) == Some(cs[k - 1]))
    } by {
        if k == 0 {
            assert(all[0] == w);
            assert(line_pieces(seq![w]));
            lemma_blank_join(seq![w]);
            lemma_pieces_crlf(seq![w]);
            assert(join(seq![w], nl) == w);
            lemma_trim_fixed(w);
            lemma_lines_join(seq![w]);
            assert(lines(w) == seq![w]);
            assert(w.take(6) =~= w);
            assert(starts_with(w, w));
            assert(vtt_skipped(trim(lines(w)[0])));
        } else {
            let c = cs[k - 1];
            assert(vtt_cue_ok(c));
            let h = lines(c.0);
            let ps = h + c.1;
            lemma_join_concat(h, c.1, nl);
            assert(all[k] == bs[k - 1]);
            assert(all[k] == join(ps, nl));
            assert(line_pieces(ps)) by {
                assert forall|j: int| 0 <= j < ps.len() implies nl_free(#[trigger] ps[j]) && ps[j].len() > 0
                    && !is_ws(ps[j][0]) && !is_ws(ps[j].last()) by {
                    if j < h.len() {
                        assert(ps[j] == h[j]);
                    } else {
                        assert(ps[j] == c.1[j - h.len()]);
                    }
                }
            }
            lemma_blank_join(ps);
            lemma_pieces_crlf(ps);
            lemma_crlf_join(ps, nl);
            lemma_join_first(ps, nl);
            lemma_join_last(ps, nl);
            assert(ps.last() == c.1.last());
            lemma_trim_fixed(all[k]);
            // Parsing the block.
            lemma_lines_join(ps);
            let ls = lines(all[k]);
            assert(ls == ps);
            let m = h.len() - 1;
            assert forall|j: int| 0 <= j < m implies !contains(#[trigger] ls[j], arrow()) by {
                assert(ls[j] == h[j]);
            }
            assert(ls[m] == h[m]);
            lemma_first_arrow_is(ls, 0, m);
            lemma_trim_fixed(ls[0]);
            assert(ls[0] == h[0]);
            assert(ls.take(m + 1) =~= h);
            assert(ls.skip(m + 1) =~= c.1);
            assert(trim_each(h) =~= h) by {
                assert forall|j: int| 0 <= j < h.len() implies trim(#[trigger] h[j]) == h[j] by {
                    lemma_trim_fixed(h[j]);
                }
            }
            assert(trim_each(c.1) =~= c.1) by {
                assert forall|j: int| 0 <= j < c.1.len() implies trim(#[trigger] c.1[j]) == c.1[j] by {
                    lemma_trim_fixed(c.1[j]);
                }
            }
            lemma_nonempty_id(c.1);
            assert(vtt_cue(all[k]) == Some((join(h, nl), c.1)));
        }
    }
    // The whole text.
    assert forall|k: int| 0 <= k < all.len() implies crlf_free(#[trigger] all[k]) && all[k].len() > 0
        && all[k].last() != '\r' by {}
    assert forall|k: int| 0 <= k < blank.len() implies #[trigger] blank[k] == '\n' by {}
    lemma_crlf_join(all, blank);
    assert forall|k: int| !#[trigger] occurs_at(text, crlf, k) by {
        if occurs_at(text, crlf, k) {
            assert(text.subrange(k, k + 2)[0] == text[k]);
            assert(text.subrange(k, k + 2)[1] == text[k + 1]);
        }
    }
    crate::xml::lemma_replace_absent(text, crlf, nl);
    lemma_join_first(all, blank);
    lemma_join_last(all, blank);
    lemma_trim_fixed(text);
    assert forall|k: int| 0 <= k < all.len() implies blank_free(#[trigger] all[k]) && all[k].len() > 0
        && all[k].last() != '\n' by {}
    lemma_split_join(all);
    assert forall|k: int| 0 <= k < all.len() implies trim(#[trigger] all[k]) == all[k] && all[k].len() > 0 by {}
    lemma_nonempty_trimmed_id(all);
    assert(blocks_of(text) == all);
    assert forall|k: int| 0 <= k < bs.len() implies vtt_cue(#[trigger] bs[k]) == Some(cs[k]) by {
        assert(bs[k] == all[k + 1]);
    }
    lemma_vtt_cues_each(bs, cs);
    assert(all.drop_first() =~= bs);
    assert(vtt_cues(all) == vtt_cues(bs));
}

/// Non-empty pieces are all kept.
proof fn lemma_nonempty_id(xs: Seq<Seq<char>>)
    requires
        forall|k: int| 0 <= k < xs.len() ==> (#[trigger] xs[k]).len() > 0,
    ensures
        nonempty(xs) == xs,
    decreases xs.len(),
{
    if xs.len() > 0 {
        let r = xs.drop_first();
        assert forall|k: int| 0 <= k < r.len() implies (#[trigger] r[k]).len() > 0 by {
            assert(r[k] == xs[k + 1]);
        }
        lemma_nonempty_id(r);
        assert(xs =~= seq![xs[0]] + r);
    }
}

/// Parsing what `render_vtt` writes for parsed cues gives those cues back
/// unchanged, when no cue header holds a blank line.
pub proof fn lemma_vtt_roundtrip(input: Seq<char>)
    requires
        headers_blank_free(vtt_cues(blocks_of(input))),
    ensures
        vtt_cues(blocks_of(vtt_text(vtt_cues(blocks_of(input))))) == vtt_cues(blocks_of(input)),
{
    let blocks = blocks_of(input);
    lemma_nonempty_trimmed_elems(
        split_on(trim(replace(input, seq!['\r', '\n'], seq!['\n'])), seq!['\n', '\n']),
    );
    assert forall|k: int| 0 <= k < blocks.len() implies (#[trigger] blocks[k]).len() > 0 && !is_ws(blocks[k][0]) by {
        lemma_trim_edges(blocks[k]);
    }
    lemma_vtt_cues_ok(blocks);
    lemma_vtt_read_back(vtt_cues(blocks));
}

} // verus!

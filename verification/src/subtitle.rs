//! SRT and WebVTT subtitle parsing and rendering.
use vstd::prelude::*;
use crate::text::{
    chars_of, contains, contains_chars, copy_range, dv, extend_chars, join, join_chars, lines,
    lines_chars, replace, replace_chars, split_chars, split_on, starts_with, starts_with_chars,
    string_of, trim, trim_chars, trim_end, trim_end_chars, dec_str, push_decimal, first_occ,
    find_from, nonempty, nonempty_exec,
};

verus! {

broadcast use vstd::string::group_string_axioms;

/// A single subtitle cue (one caption block).
pub struct SubtitleCue {
    /// Raw lines before the text: for SRT this is `"<index>\n<timecode>"`,
    /// for VTT the optional cue identifier and the timecode line.
    pub header: String,
    /// Text lines of this cue (may be more than one line).
    pub lines: Vec<String>,
}

/// The view of a cue: its header and its text lines.
pub open spec fn cue_view(c: SubtitleCue) -> (Seq<char>, Seq<Seq<char>>) {
    (c.header@, c.lines@.map_values(|l: String| l@))
}

pub open spec fn cues_view(cs: Seq<SubtitleCue>) -> Seq<(Seq<char>, Seq<Seq<char>>)> {
    cs.map_values(|c: SubtitleCue| cue_view(c))
}

// ───────────────────────────── blocks ──────────────────────────────────────

/// The trimmed, non-empty pieces of `parts`, in order.
pub open spec fn nonempty_trimmed(parts: Seq<Seq<char>>) -> Seq<Seq<char>>
    decreases parts.len(),
{
    if parts.len() == 0 {
        Seq::empty()
    } else {
        let t = trim(parts[0]);
        (if t.len() > 0 {
            seq![t]
        } else {
            Seq::empty()
        }) + nonempty_trimmed(parts.drop_first())
    }
}

/// Each piece trimmed.
pub open spec fn trim_each(parts: Seq<Seq<char>>) -> Seq<Seq<char>> {
    parts.map_values(|p: Seq<char>| trim(p))
}

/// The cue blocks of a subtitle file: CRLF normalised to LF, the whole text
/// trimmed, split at blank lines (`"\n\n"`), each block trimmed, empty
/// blocks dropped.
pub open spec fn blocks_of(input: Seq<char>) -> Seq<Seq<char>> {
    nonempty_trimmed(
        split_on(trim(replace(input, seq!['\r', '\n'], seq!['\n'])), seq!['\n', '\n']),
    )
}

fn nonempty_trimmed_exec(parts: &Vec<Vec<char>>) -> (r: Vec<Vec<char>>)
    ensures
        dv(r@) == nonempty_trimmed(dv(parts@)),
{
    let n = parts.len();
    let mut r: Vec<Vec<char>> = Vec::new();
    let mut i: usize = 0;
    assert(dv(parts@).skip(0) =~= dv(parts@));
    assert(dv(r@) =~= Seq::<Seq<char>>::empty());
    while i < n
        invariant
            n == parts@.len(),
            i <= n,
            dv(r@) + nonempty_trimmed(dv(parts@).skip(i as int)) == nonempty_trimmed(dv(parts@)),
        decreases n - i,
    {
        let ghost rest = dv(parts@).skip(i as int);
        assert(rest[0] == parts@[i as int]@);
        assert(rest.drop_first() =~= dv(parts@).skip(i + 1));
        let t = trim_chars(parts[i].as_slice());
        let ghost old_r = dv(r@);
        if t.len() > 0 {
            r.push(t);
            assert(dv(r@) =~= old_r + seq![trim(rest[0])]);
        } else {
            assert(dv(r@) =~= old_r);
        }
        assert(dv(r@) + nonempty_trimmed(dv(parts@).skip(i + 1)) =~= old_r + nonempty_trimmed(
            rest,
        ));
        i = i + 1;
    }
    assert(dv(parts@).skip(n as int) =~= Seq::<Seq<char>>::empty());
    assert(dv(r@) + nonempty_trimmed(dv(parts@).skip(n as int)) =~= dv(r@));
    r
}

/// Splits a subtitle file into its cue blocks.
fn blocks_exec(input: &str) -> (r: Vec<Vec<char>>)
    ensures
        dv(r@) == blocks_of(input@),
{
    let v = chars_of(input);
    let crlf: [char; 2] = ['\r', '\n'];
    let lf: [char; 1] = ['\n'];
    let blank: [char; 2] = ['\n', '\n'];
    assert(crlf@ =~= seq!['\r', '\n']);
    assert(lf@ =~= seq!['\n']);
    assert(blank@ =~= seq!['\n', '\n']);
    let norm = replace_chars(v.as_slice(), crlf.as_slice(), lf.as_slice());
    let t = trim_chars(norm.as_slice());
    let parts = split_chars(t.as_slice(), blank.as_slice());
    nonempty_trimmed_exec(&parts)
}

fn trim_each_exec(parts: &Vec<Vec<char>>, lo: usize, hi: usize) -> (r: Vec<Vec<char>>)
    requires
        lo <= hi <= parts@.len(),
    ensures
        dv(r@) == trim_each(dv(parts@).subrange(lo as int, hi as int)),
{
    let mut r: Vec<Vec<char>> = Vec::new();
    let mut i = lo;
    while i < hi
        invariant
            lo <= i <= hi <= parts@.len(),
            dv(r@) == trim_each(dv(parts@).subrange(lo as int, i as int)),
        decreases hi - i,
    {
        let t = trim_chars(parts[i].as_slice());
        let ghost old_r = dv(r@);
        let ghost pre = dv(parts@).subrange(lo as int, i as int);
        r.push(t);
        assert(dv(r@) =~= old_r.push(trim(parts@[i as int]@)));
        assert(dv(parts@).subrange(lo as int, i + 1) =~= pre.push(parts@[i as int]@));
        assert(trim_each(pre.push(parts@[i as int]@)) =~= trim_each(pre).push(
            trim(parts@[i as int]@),
        ));
        i = i + 1;
    }
    r
}

fn strings_of(parts: &Vec<Vec<char>>) -> (r: Vec<String>)
    ensures
        r@.map_values(|l: String| l@) == dv(parts@),
{
    let mut r: Vec<String> = Vec::new();
    for i in 0..parts.len()
        invariant
            r@.map_values(|l: String| l@) == dv(parts@).take(i as int),
    {
        let ghost old_r = r@;
        let st = string_of(parts[i].as_slice());
        r.push(st);
        assert(r@ =~= old_r.push(st));
        assert(r@.map_values(|l: String| l@) =~= old_r.map_values(|l: String| l@).push(st@));
        assert(dv(parts@).take(i + 1) =~= dv(parts@).take(i as int).push(parts@[i as int]@));
    }
    assert(dv(parts@).take(parts@.len() as int) =~= dv(parts@));
    r
}

// ───────────────────────────── SRT ─────────────────────────────────────────

pub open spec fn arrow() -> Seq<char> {
    seq!['-', '-', '>']
}

/// The cue an SRT block yields, if any: a sequence-number line, a timecode
/// line containing `"-->"`, and at least one text line.
pub open spec fn srt_cue(block: Seq<char>) -> Option<(Seq<char>, Seq<Seq<char>>)> {
    let ls = lines(block);
    if ls.len() < 2 || !contains(ls[1], arrow()) {
        None
    } else if ls.len() == 2 {
        None
    } else {
        Some((trim(ls[0]) + seq!['\n'] + trim(ls[1]), trim_each(ls.skip(2))))
    }
}

/// The cues yielded by the blocks, in order.
pub open spec fn srt_cues(blocks: Seq<Seq<char>>) -> Seq<(Seq<char>, Seq<Seq<char>>)>
    decreases blocks.len(),
{
    if blocks.len() == 0 {
        Seq::empty()
    } else {
        (match srt_cue(blocks[0]) {
            Some(c) => seq![c],
            None => Seq::empty(),
        }) + srt_cues(blocks.drop_first())
    }
}

fn srt_cue_exec(block: &[char]) -> (r: Option<SubtitleCue>)
    ensures
        match r {
            Some(c) => srt_cue(block@) == Some(cue_view(c)),
            None => srt_cue(block@) is None,
        },
{
    let ls = lines_chars(block);
    let arr: [char; 3] = ['-', '-', '>'];
    assert(arr@ =~= arrow());
    if ls.len() < 2 {
        return None;
    }
    if !contains_chars(ls[1].as_slice(), arr.as_slice()) {
        return None;
    }
    if ls.len() == 2 {
        return None;
    }
    let mut header = trim_chars(ls[0].as_slice());
    header.push('\n');
    let second = trim_chars(ls[1].as_slice());
    extend_chars(&mut header, second.as_slice());
    let text = trim_each_exec(&ls, 2, ls.len());
    assert(dv(ls@).subrange(2, ls@.len() as int) =~= dv(ls@).skip(2));
    let lines_s = strings_of(&text);
    let cue = SubtitleCue { header: string_of(header.as_slice()), lines: lines_s };
    assert(cue_view(cue).1 =~= trim_each(lines(block@).skip(2)));
    Some(cue)
}

/// Parse an SRT subtitle file into cues.
pub fn parse_srt(input: &str) -> (r: Vec<SubtitleCue>)
    ensures
        cues_view(r@) == srt_cues(blocks_of(input@)),
{
    let blocks = blocks_exec(input);
    let n = blocks.len();
    let mut cues: Vec<SubtitleCue> = Vec::new();
    let mut i: usize = 0;
    assert(dv(blocks@).skip(0) =~= dv(blocks@));
    assert(cues_view(cues@) =~= Seq::<(Seq<char>, Seq<Seq<char>>)>::empty());
    while i < n
        invariant
            n == blocks@.len(),
            i <= n,
            dv(blocks@) == blocks_of(input@),
            cues_view(cues@) + srt_cues(dv(blocks@).skip(i as int)) == srt_cues(dv(blocks@)),
        decreases n - i,
    {
        let ghost rest = dv(blocks@).skip(i as int);
        assert(rest[0] == blocks@[i as int]@);
        assert(rest.drop_first() =~= dv(blocks@).skip(i + 1));
        let ghost old_c = cues_view(cues@);
        match srt_cue_exec(blocks[i].as_slice()) {
            Some(c) => {
                cues.push(c);
                assert(cues_view(cues@) =~= old_c + seq![srt_cue(rest[0])->0]);
            },
            None => {
                assert(cues_view(cues@) =~= old_c);
            },
        }
        assert(cues_view(cues@) + srt_cues(dv(blocks@).skip(i + 1)) =~= old_c + srt_cues(rest));
        i = i + 1;
    }
    assert(dv(blocks@).skip(n as int) =~= Seq::<Seq<char>>::empty());
    assert(cues_view(cues@) + srt_cues(dv(blocks@).skip(n as int)) =~= cues_view(cues@));
    cues
}

// ───────────────────────────── VTT ─────────────────────────────────────────

/// First index `>= i` of a line containing `"-->"`, or -1.
pub open spec fn first_arrow_line(ls: Seq<Seq<char>>, i: int) -> int
    decreases ls.len() + 1 - i,
{
    if i < 0 || i >= ls.len() {
        -1
    } else if contains(ls[i], arrow()) {
        i
    } else {
        first_arrow_line(ls, i + 1)
    }
}

pub proof fn lemma_first_arrow_line(ls: Seq<Seq<char>>, i: int)
    requires
        0 <= i,
    ensures
        first_arrow_line(ls, i) == -1 || (i <= first_arrow_line(ls, i) < ls.len()),
    decreases ls.len() + 1 - i,
{
    if i < ls.len() && !contains(ls[i], arrow()) {
        lemma_first_arrow_line(ls, i + 1);
    }
}

/// A block whose first line opens the file header or a NOTE, STYLE or
/// REGION block.
pub open spec fn vtt_skipped(first: Seq<char>) -> bool {
    ||| starts_with(first, seq!['W', 'E', 'B', 'V', 'T', 'T'])
    ||| starts_with(first, seq!['N', 'O', 'T', 'E'])
    ||| starts_with(first, seq!['S', 'T', 'Y', 'L', 'E'])
    ||| starts_with(first, seq!['R', 'E', 'G', 'I', 'O', 'N'])
}

/// The cue a WebVTT block yields, if any: the header is every line up to and
/// including the first timecode line (containing `"-->"`), the text is the
/// remaining non-blank lines, trimmed.
pub open spec fn vtt_cue(block: Seq<char>) -> Option<(Seq<char>, Seq<Seq<char>>)> {
    let ls = lines(block);
    let first = if ls.len() > 0 {
        trim(ls[0])
    } else {
        Seq::empty()
    };
    let idx = first_arrow_line(ls, 0);
    if vtt_skipped(first) || ls.len() == 0 || idx < 0 {
        None
    } else {
        let text = nonempty(trim_each(ls.skip(idx + 1)));
        if text.len() == 0 {
            None
        } else {
            Some((join(trim_each(ls.take(idx + 1)), seq!['\n']), text))
        }
    }
}

/// The cues yielded by the blocks, in order.
pub open spec fn vtt_cues(blocks: Seq<Seq<char>>) -> Seq<(Seq<char>, Seq<Seq<char>>)>
    decreases blocks.len(),
{
    if blocks.len() == 0 {
        Seq::empty()
    } else {
        (match vtt_cue(blocks[0]) {
            Some(c) => seq![c],
            None => Seq::empty(),
        }) + vtt_cues(blocks.drop_first())
    }
}

fn vtt_cue_exec(block: &[char]) -> (r: Option<SubtitleCue>)
    ensures
        match r {
            Some(c) => vtt_cue(block@) == Some(cue_view(c)),
            None => vtt_cue(block@) is None,
        },
{
    let ls = lines_chars(block);
    let ghost lsv = dv(ls@);
    let first = if ls.len() > 0 {
        trim_chars(ls[0].as_slice())
    } else {
        Vec::new()
    };
    assert(first@ =~= (if lsv.len() > 0 {
        trim(lsv[0])
    } else {
        Seq::<char>::empty()
    }));
    let webvtt: [char; 6] = ['W', 'E', 'B', 'V', 'T', 'T'];
    let note: [char; 4] = ['N', 'O', 'T', 'E'];
    let style: [char; 5] = ['S', 'T', 'Y', 'L', 'E'];
    let region: [char; 6] = ['R', 'E', 'G', 'I', 'O', 'N'];
    assert(webvtt@ =~= seq!['W', 'E', 'B', 'V', 'T', 'T']);
    assert(note@ =~= seq!['N', 'O', 'T', 'E']);
    assert(style@ =~= seq!['S', 'T', 'Y', 'L', 'E']);
    assert(region@ =~= seq!['R', 'E', 'G', 'I', 'O', 'N']);
    if starts_with_chars(first.as_slice(), webvtt.as_slice()) || starts_with_chars(
        first.as_slice(),
        note.as_slice(),
    ) || starts_with_chars(first.as_slice(), style.as_slice()) || starts_with_chars(
        first.as_slice(),
        region.as_slice(),
    ) {
        return None;
    }
    if ls.len() == 0 {
        return None;
    }
    let arr: [char; 3] = ['-', '-', '>'];
    assert(arr@ =~= arrow());
    let mut idx: usize = 0;
    while idx < ls.len() && !contains_chars(ls[idx].as_slice(), arr.as_slice())
        invariant
            idx <= ls@.len(),
            lsv == dv(ls@),
            arr@ == arrow(),
            first_arrow_line(lsv, idx as int) == first_arrow_line(lsv, 0),
        decreases ls@.len() - idx,
    {
        idx = idx + 1;
    }
    if idx == ls.len() {
        return None;
    }
    assert(first_arrow_line(lsv, 0) == idx);
    let head = trim_each_exec(&ls, 0, idx + 1);
    assert(lsv.subrange(0, idx + 1) =~= lsv.take(idx + 1));
    let rest = trim_each_exec(&ls, idx + 1, ls.len());
    assert(lsv.subrange(idx + 1, lsv.len() as int) =~= lsv.skip(idx + 1));
    let text = nonempty_exec(&rest);
    if text.len() == 0 {
        return None;
    }
    let nl: [char; 1] = ['\n'];
    assert(nl@ =~= seq!['\n']);
    let header = join_chars(&head, nl.as_slice());
    let cue = SubtitleCue { header: string_of(header.as_slice()), lines: strings_of(&text) };
    Some(cue)
}

/// Parse a WebVTT subtitle file into cues.
pub fn parse_vtt(input: &str) -> (r: Vec<SubtitleCue>)
    ensures
        cues_view(r@) == vtt_cues(blocks_of(input@)),
{
    let blocks = blocks_exec(input);
    let n = blocks.len();
    let mut cues: Vec<SubtitleCue> = Vec::new();
    let mut i: usize = 0;
    assert(dv(blocks@).skip(0) =~= dv(blocks@));
    assert(cues_view(cues@) =~= Seq::<(Seq<char>, Seq<Seq<char>>)>::empty());
    while i < n
        invariant
            n == blocks@.len(),
            i <= n,
            dv(blocks@) == blocks_of(input@),
            cues_view(cues@) + vtt_cues(dv(blocks@).skip(i as int)) == vtt_cues(dv(blocks@)),
        decreases n - i,
    {
        let ghost rest = dv(blocks@).skip(i as int);
        assert(rest[0] == blocks@[i as int]@);
        assert(rest.drop_first() =~= dv(blocks@).skip(i + 1));
        let ghost old_c = cues_view(cues@);
        match vtt_cue_exec(blocks[i].as_slice()) {
            Some(c) => {
                cues.push(c);
                assert(cues_view(cues@) =~= old_c + seq![vtt_cue(rest[0])->0]);
            },
            None => {
                assert(cues_view(cues@) =~= old_c);
            },
        }
        assert(cues_view(cues@) + vtt_cues(dv(blocks@).skip(i + 1)) =~= old_c + vtt_cues(rest));
        i = i + 1;
    }
    assert(dv(blocks@).skip(n as int) =~= Seq::<Seq<char>>::empty());
    assert(cues_view(cues@) + vtt_cues(dv(blocks@).skip(n as int)) =~= cues_view(cues@));
    cues
}

// ───────────────────────────── rendering ───────────────────────────────────

/// The timecode part of a header: everything after its first line break,
/// or the whole header if it has none.
pub open spec fn srt_timecode(h: Seq<char>) -> Seq<char> {
    let k = first_occ(h, seq!['\n'], 0);
    if k < 0 {
        h
    } else {
        h.skip(k + 1)
    }
}

/// The SRT text of cue `c` numbered `i + 1`.
pub open spec fn srt_block(i: int, c: (Seq<char>, Seq<Seq<char>>)) -> Seq<char> {
    dec_str((i + 1) as nat) + seq!['\n'] + srt_timecode(c.0) + seq!['\n'] + join(c.1, seq!['\n'])
}

/// What `render_srt` writes: the cues renumbered from 1, separated by blank lines.
pub open spec fn srt_text(cs: Seq<(Seq<char>, Seq<Seq<char>>)>) -> Seq<char> {
    join(Seq::new(cs.len(), |i: int| srt_block(i, cs[i])), seq!['\n', '\n'])
}

/// What `render_vtt` writes before trailing whitespace is removed.
pub open spec fn vtt_body(cs: Seq<(Seq<char>, Seq<Seq<char>>)>) -> Seq<char>
    decreases cs.len(),
{
    if cs.len() == 0 {
        Seq::empty()
    } else {
        cs[0].0 + seq!['\n'] + join(cs[0].1, seq!['\n']) + seq!['\n', '\n'] + vtt_body(
            cs.drop_first(),
        )
    }
}

/// What `render_vtt` writes: the `WEBVTT` header, then each cue's header
/// and lines followed by a blank line, with trailing whitespace removed.
pub open spec fn vtt_text(cs: Seq<(Seq<char>, Seq<Seq<char>>)>) -> Seq<char> {
    trim_end(seq!['W', 'E', 'B', 'V', 'T', 'T', '\n', '\n'] + vtt_body(cs))
}

fn lines_chars_of(c: &SubtitleCue) -> (r: Vec<Vec<char>>)
    ensures
        dv(r@) == cue_view(*c).1,
{
    let mut r: Vec<Vec<char>> = Vec::new();
    for i in 0..c.lines.len()
        invariant
            dv(r@) == cue_view(*c).1.take(i as int),
    {
        let ghost old_r = dv(r@);
        r.push(chars_of(c.lines[i].as_str()));
        assert(dv(r@) =~= old_r.push(c.lines@[i as int]@));
        assert(cue_view(*c).1.take(i + 1) =~= cue_view(*c).1.take(i as int).push(
            c.lines@[i as int]@,
        ));
    }
    assert(cue_view(*c).1.take(c.lines@.len() as int) =~= cue_view(*c).1);
    r
}

/// Render cues back to SRT format, re-numbering them sequentially.
pub fn render_srt(cues: &[SubtitleCue]) -> (r: String)
    requires
        cues@.len() < usize::MAX,
    ensures
        r@ == srt_text(cues_view(cues@)),
{
    let ghost cs = cues_view(cues@);
    let nl: [char; 1] = ['\n'];
    assert(nl@ =~= seq!['\n']);
    let mut blocks: Vec<Vec<char>> = Vec::new();
    let n = cues.len();
    for i in 0..n
        invariant
            n == cues@.len() < usize::MAX,
            cs == cues_view(cues@),
            nl@ == seq!['\n'],
            dv(blocks@) == Seq::new(i as nat, |k: int| srt_block(k, cs[k])),
    {
        let c = &cues[i];
        assert(cue_view(*c) == cs[i as int]);
        let h = chars_of(c.header.as_str());
        let mut b: Vec<char> = Vec::new();
        push_decimal(&mut b, i + 1);
        b.push('\n');
        proof {
            crate::text::lemma_first_occ_props(h@, seq!['\n'], 0);
        }
        match find_from(h.as_slice(), nl.as_slice(), 0) {
            Some(k) => {
                let hl = h.len();
                let t = copy_range(h.as_slice(), k + 1, hl);
                assert(t@ =~= h@.skip(k + 1));
                extend_chars(&mut b, t.as_slice());
            },
            None => {
                extend_chars(&mut b, h.as_slice());
            },
        }
        b.push('\n');
        let ls = lines_chars_of(c);
        let body = join_chars(&ls, nl.as_slice());
        extend_chars(&mut b, body.as_slice());
        assert(b@ =~= srt_block(i as int, cs[i as int]));
        let ghost old_b = dv(blocks@);
        let ghost bv = b@;
        blocks.push(b);
        assert(dv(blocks@) =~= old_b.push(bv));
        assert(dv(blocks@) =~= Seq::new((i + 1) as nat, |k: int| srt_block(k, cs[k])));
    }
    let sep: [char; 2] = ['\n', '\n'];
    assert(sep@ =~= seq!['\n', '\n']);
    let out = join_chars(&blocks, sep.as_slice());
    assert(Seq::new(n as nat, |k: int| srt_block(k, cs[k])) =~= Seq::new(
        cs.len(),
        |i: int| srt_block(i, cs[i]),
    ));
    string_of(out.as_slice())
}

/// Render cues back to VTT format.
pub fn render_vtt(cues: &[SubtitleCue]) -> (r: String)
    ensures
        r@ == vtt_text(cues_view(cues@)),
{
    let ghost cs = cues_view(cues@);
    let nl: [char; 1] = ['\n'];
    assert(nl@ =~= seq!['\n']);
    let mut out: Vec<char> = Vec::new();
    let hdr: [char; 8] = ['W', 'E', 'B', 'V', 'T', 'T', '\n', '\n'];
    extend_chars(&mut out, hdr.as_slice());
    let ghost start = seq!['W', 'E', 'B', 'V', 'T', 'T', '\n', '\n'];
    assert(out@ =~= start);
    let n = cues.len();
    assert(cs.skip(0) =~= cs);
    for i in 0..n
        invariant
            n == cues@.len(),
            cs == cues_view(cues@),
            nl@ == seq!['\n'],
            out@ + vtt_body(cs.skip(i as int)) == start + vtt_body(cs),
    {
        let c = &cues[i];
        let ghost rest = cs.skip(i as int);
        assert(rest[0] == cue_view(*c));
        assert(rest.drop_first() =~= cs.skip(i + 1));
        let ghost old_out = out@;
        let h = chars_of(c.header.as_str());
        extend_chars(&mut out, h.as_slice());
        out.push('\n');
        let ls = lines_chars_of(c);
        let body = join_chars(&ls, nl.as_slice());
        extend_chars(&mut out, body.as_slice());
        out.push('\n');
        out.push('\n');
        assert(out@ =~= old_out + (rest[0].0 + seq!['\n'] + join(rest[0].1, seq!['\n']) + seq![
            '\n',
            '\n',
        ]));
        assert(out@ + vtt_body(cs.skip(i + 1)) =~= old_out + vtt_body(rest));
    }
    assert(cs.skip(n as int) =~= Seq::<(Seq<char>, Seq<Seq<char>>)>::empty());
    assert(out@ + vtt_body(cs.skip(n as int)) =~= out@);
    let t = trim_end_chars(out.as_slice());
    string_of(t.as_slice())
}

} // verus!

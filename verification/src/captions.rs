//! Translating a subtitle file cue by cue: checking the upload, the text of
//! each cue that is sent, how a translation replaces a cue's lines, and the
//! translated file that is returned.
use vstd::prelude::*;
use vstd::utf8::{decode_utf8, encode_utf8, valid_utf8};
use crate::access::{api_error, err_view, ApiError};
use crate::archive::utf8_string;
use crate::media::{base64_encode, base64_of, file_extension, lower_ext};
use crate::subtitle::{
    blocks_of, cue_view, cues_view, parse_srt, parse_vtt, render_srt, render_vtt, srt_cues,
    srt_text, vtt_cues, vtt_text, SubtitleCue,
};
use crate::text::{
    chars_of, dec_str, dv, join, join_chars, lines, lines_chars, push_decimal, push_str, str_eq,
    string_of, strs, trim, trim_chars,
};

verus! {

broadcast use vstd::string::group_string_axioms;

/// Largest accepted subtitle upload, in bytes.
pub const MAX_SUBTITLE_BYTES: usize = 5242880;

/// The two subtitle formats.
#[derive(Clone, Copy, PartialEq, Eq, Structural, Debug)]
pub enum SubtitleFormat {
    Srt,
    Vtt,
}

/// Whether an upload that has reached `size` bytes is over the limit.
pub fn subtitle_too_large(size: usize) -> (r: bool)
    ensures
        r == (size > MAX_SUBTITLE_BYTES),
{
    size > MAX_SUBTITLE_BYTES
}

/// The format named by a (lowercased) extension.
pub open spec fn format_of_ext(ext: Seq<char>) -> Option<SubtitleFormat> {
    if ext == "srt"@ {
        Some(SubtitleFormat::Srt)
    } else if ext == "vtt"@ {
        Some(SubtitleFormat::Vtt)
    } else {
        None
    }
}

/// The format of an uploaded subtitle file, from its extension: `.srt` or
/// `.vtt` (any case), otherwise HTTP 422 naming the extension.
pub fn subtitle_format(filename: &str) -> (r: Result<SubtitleFormat, ApiError>)
    ensures
        match format_of_ext(lower_ext(filename@)) {
            Some(f) => r == Ok::<SubtitleFormat, ApiError>(f),
            None => r matches Err(e) && err_view(e) == (
                422u16,
                "Unsupported file type: ."@ + lower_ext(filename@)
                    + ". Only .srt and .vtt are supported."@,
            ),
        },
{
    let ext = file_extension(filename);
    if str_eq(ext.as_str(), "srt") {
        Ok(SubtitleFormat::Srt)
    } else if str_eq(ext.as_str(), "vtt") {
        Ok(SubtitleFormat::Vtt)
    } else {
        let mut out: Vec<char> = Vec::new();
        push_str(&mut out, "Unsupported file type: .");
        push_str(&mut out, ext.as_str());
        push_str(&mut out, ". Only .srt and .vtt are supported.");
        Err(ApiError { status: 422, error: string_of(out.as_slice()) })
    }
}

/// The uploaded bytes as text, or HTTP 422 when they are not UTF-8.
pub fn subtitle_text(bytes: Vec<u8>) -> (r: Result<String, ApiError>)
    ensures
        valid_utf8(bytes@) ==> (r matches Ok(s) && s@ == decode_utf8(bytes@)),
        !valid_utf8(bytes@) ==> (r matches Err(e) && err_view(e) == (422u16, "File is not valid UTF-8"@)),
{
    match utf8_string(bytes) {
        Some(s) => Ok(s),
        None => Err(api_error(422, "File is not valid UTF-8")),
    }
}

/// The cues of a subtitle text in the given format.
pub open spec fn cues_of(fmt: SubtitleFormat, text: Seq<char>) -> Seq<(Seq<char>, Seq<Seq<char>>)> {
    match fmt {
        SubtitleFormat::Srt => srt_cues(blocks_of(text)),
        SubtitleFormat::Vtt => vtt_cues(blocks_of(text)),
    }
}

/// Parses the cues of a subtitle text; a file without cues is refused with
/// HTTP 422.
pub fn parse_subtitle(fmt: SubtitleFormat, text: &str) -> (r: Result<Vec<SubtitleCue>, ApiError>)
    ensures
        cues_of(fmt, text@).len() > 0 ==> (r matches Ok(cs) && cues_view(cs@) == cues_of(fmt, text@)),
        cues_of(fmt, text@).len() == 0 ==> (r matches Err(e) && err_view(e) == (
            422u16,
            "No subtitle cues found in file"@,
        )),
{
    let cues = match fmt {
        SubtitleFormat::Srt => parse_srt(text),
        SubtitleFormat::Vtt => parse_vtt(text),
    };
    if cues.len() == 0 {
        assert(cues_view(cues@).len() == 0);
        Err(api_error(422, "No subtitle cues found in file"))
    } else {
        Ok(cues)
    }
}

/// The number of characters in the lines of the cues.
pub open spec fn line_chars(cs: Seq<(Seq<char>, Seq<Seq<char>>)>) -> int
    decreases cs.len(),
{
    if cs.len() == 0 {
        0
    } else {
        line_chars(cs.drop_last()) + text_chars(cs.last().1)
    }
}

/// The number of characters in some lines.
pub open spec fn text_chars(ls: Seq<Seq<char>>) -> int
    decreases ls.len(),
{
    if ls.len() == 0 {
        0
    } else {
        text_chars(ls.drop_last()) + ls.last().len()
    }
}

proof fn lemma_text_chars_prefix(ls: Seq<Seq<char>>, k: int)
    requires
        0 <= k <= ls.len(),
    ensures
        0 <= text_chars(ls.take(k)) <= text_chars(ls),
    decreases ls.len(),
{
    if k == ls.len() {
        assert(ls.take(k) =~= ls);
        if ls.len() > 0 {
            lemma_text_chars_prefix(ls.drop_last(), k - 1);
            assert(ls.drop_last().take(k - 1) =~= ls.drop_last());
        }
    } else {
        lemma_text_chars_prefix(ls.drop_last(), k);
        assert(ls.drop_last().take(k) =~= ls.take(k));
    }
}

proof fn lemma_line_chars_prefix(cs: Seq<(Seq<char>, Seq<Seq<char>>)>, k: int)
    requires
        0 <= k <= cs.len(),
    ensures
        0 <= line_chars(cs.take(k)) <= line_chars(cs),
    decreases cs.len(),
{
    if cs.len() > 0 {
        lemma_text_chars_prefix(cs.last().1, cs.last().1.len() as int);
        assert(cs.last().1.take(cs.last().1.len() as int) =~= cs.last().1);
    }
    if k == cs.len() {
        assert(cs.take(k) =~= cs);
        if cs.len() > 0 {
            lemma_line_chars_prefix(cs.drop_last(), k - 1);
            assert(cs.drop_last().take(k - 1) =~= cs.drop_last());
        }
    } else {
        lemma_line_chars_prefix(cs.drop_last(), k);
        assert(cs.drop_last().take(k) =~= cs.take(k));
    }
}

fn cue_chars(c: &SubtitleCue) -> (r: usize)
    requires
        text_chars(cue_view(*c).1) <= usize::MAX,
    ensures
        r as int == text_chars(cue_view(*c).1),
{
    let ghost ls = cue_view(*c).1;
    let mut total: usize = 0;
    for k in 0..c.lines.len()
        invariant
            ls == cue_view(*c).1,
            ls.len() == c.lines@.len(),
            text_chars(ls) <= usize::MAX,
            total as int == text_chars(ls.take(k as int)),
    {
        assert(ls.take(k + 1).drop_last() =~= ls.take(k as int));
        assert(ls.take(k + 1).last() == c.lines@[k as int]@);
        proof {
            lemma_text_chars_prefix(ls, k + 1);
        }
        let v = chars_of(c.lines[k].as_str());
        total = total + v.len();
    }
    assert(ls.take(c.lines@.len() as int) =~= ls);
    total
}

/// Counts the characters in the lines of the cues.
pub fn subtitle_chars(cues: &Vec<SubtitleCue>) -> (r: usize)
    requires
        line_chars(cues_view(cues@)) <= usize::MAX,
    ensures
        r as int == line_chars(cues_view(cues@)),
{
    let ghost cs = cues_view(cues@);
    let mut total: usize = 0;
    for k in 0..cues.len()
        invariant
            cs == cues_view(cues@),
            line_chars(cs) <= usize::MAX,
            total as int == line_chars(cs.take(k as int)),
    {
        assert(cs.take(k + 1).drop_last() =~= cs.take(k as int));
        assert(cs.take(k + 1).last() == cue_view(cues@[k as int]));
        proof {
            lemma_line_chars_prefix(cs, k + 1);
        }
        let c = cue_chars(&cues[k]);
        total = total + c;
    }
    assert(cs.take(cues@.len() as int) =~= cs);
    total
}

/// Refuses subtitles whose lines hold more characters than the tier's
/// limit (HTTP 413).
pub fn check_subtitle_limit(cues: &Vec<SubtitleCue>, limit: Option<usize>) -> (r: Result<(), ApiError>)
    requires
        line_chars(cues_view(cues@)) <= usize::MAX,
    ensures
        match limit {
            None => r is Ok,
            Some(l) => if line_chars(cues_view(cues@)) <= l {
                r is Ok
            } else {
                r matches Err(e) && err_view(e) == (
                    413u16,
                    "Subtitle content is "@ + dec_str(line_chars(cues_view(cues@)) as nat)
                        + " characters, which exceeds the "@ + dec_str(l as nat)
                        + "-character limit for your access tier."@,
                )
            },
        },
{
    match limit {
        None => Ok(()),
        Some(l) => {
            let n = subtitle_chars(cues);
            if n > l {
                let mut out: Vec<char> = Vec::new();
                push_str(&mut out, "Subtitle content is ");
                push_decimal(&mut out, n);
                push_str(&mut out, " characters, which exceeds the ");
                push_decimal(&mut out, l);
                push_str(&mut out, "-character limit for your access tier.");
                Err(ApiError { status: 413, error: string_of(out.as_slice()) })
            } else {
                Ok(())
            }
        },
    }
}

/// The text sent for a cue: its lines joined by line breaks.
pub fn cue_text(cue: &SubtitleCue) -> (r: String)
    ensures
        r@ == join(cue_view(*cue).1, seq!['\n']),
{
    let mut parts: Vec<Vec<char>> = Vec::new();
    for k in 0..cue.lines.len()
        invariant
            dv(parts@) == cue_view(*cue).1.take(k as int),
    {
        let ghost before = dv(parts@);
        let lc = chars_of(cue.lines[k].as_str());
        assert(lc@ == cue_view(*cue).1[k as int]);
        parts.push(lc);
        assert(dv(parts@) =~= before.push(lc@));
        assert(cue_view(*cue).1.take(k + 1) =~= cue_view(*cue).1.take(k as int).push(lc@));
    }
    assert(cue_view(*cue).1.take(cue.lines@.len() as int) =~= cue_view(*cue).1);
    let nl: [char; 1] = ['\n'];
    assert(nl@ =~= seq!['\n']);
    let j = join_chars(&parts, nl.as_slice());
    string_of(j.as_slice())
}

/// A cue after its translation arrived: a translation that is blank once
/// trimmed leaves the cue as it was; otherwise its lines become the lines
/// of the trimmed translation. The header is kept.
pub open spec fn translated_cue(c: (Seq<char>, Seq<Seq<char>>), translated: Seq<char>) -> (Seq<char>, Seq<Seq<char>>) {
    if trim(translated).len() == 0 {
        c
    } else {
        (c.0, lines(trim(translated)))
    }
}

/// Puts a cue's translation in place (see `translated_cue`).
pub fn apply_cue_translation(cue: &mut SubtitleCue, translated: &str)
    ensures
        cue_view(*final(cue)) == translated_cue(cue_view(*old(cue)), translated@),
{
    let v = chars_of(translated);
    let t = trim_chars(v.as_slice());
    if t.len() > 0 {
        let ls = lines_chars(t.as_slice());
        let mut new_lines: Vec<String> = Vec::new();
        for k in 0..ls.len()
            invariant
                strs(new_lines@) == dv(ls@).take(k as int),
        {
            let ghost before = strs(new_lines@);
            let ln = string_of(ls[k].as_slice());
            assert(ln@ == dv(ls@)[k as int]);
            new_lines.push(ln);
            assert(strs(new_lines@) =~= before.push(ln@));
            assert(dv(ls@).take(k + 1) =~= dv(ls@).take(k as int).push(ln@));
        }
        assert(dv(ls@).take(ls@.len() as int) =~= dv(ls@));
        cue.lines = new_lines;
        assert(cue_view(*cue).1 =~= lines(trim(translated@)));
    }
}

/// The progress of a subtitle translation, as the JSON object
/// `{"done":N,"total":M}`.
pub fn progress_data(done: usize, total: usize) -> (r: String)
    ensures
        r@ == "{\"done\":"@ + dec_str(done as nat) + ",\"total\":"@ + dec_str(total as nat) + "}"@,
{
    let mut out: Vec<char> = Vec::new();
    push_str(&mut out, "{\"done\":");
    push_decimal(&mut out, done);
    push_str(&mut out, ",\"total\":");
    push_decimal(&mut out, total);
    push_str(&mut out, "}");
    string_of(out.as_slice())
}

/// The translated file's text in its format.
pub open spec fn rendered(fmt: SubtitleFormat, cs: Seq<(Seq<char>, Seq<Seq<char>>)>) -> Seq<char> {
    match fmt {
        SubtitleFormat::Srt => srt_text(cs),
        SubtitleFormat::Vtt => vtt_text(cs),
    }
}

/// Renders the translated cues in their format.
pub fn render_subtitle(fmt: SubtitleFormat, cues: &Vec<SubtitleCue>) -> (r: String)
    requires
        cues@.len() < usize::MAX,
    ensures
        r@ == rendered(fmt, cues_view(cues@)),
{
    match fmt {
        SubtitleFormat::Srt => render_srt(cues.as_slice()),
        SubtitleFormat::Vtt => render_vtt(cues.as_slice()),
    }
}

/// The translated file as base64 of its UTF-8 text.
pub fn encoded_subtitle(text: &str) -> (r: String)
    requires
        encode_utf8(text@).len() <= usize::MAX / 2,
    ensures
        r@ == base64_of(encode_utf8(text@)),
{
    base64_encode(text.as_bytes())
}

} // verus!

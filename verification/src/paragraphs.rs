//! Paragraph-aligned translation: a text is cut at blank lines, its
//! non-blank paragraphs are sent as one request joined by a marker line, and
//! the reply is cut at the marker and matched back to the paragraphs.
use vstd::prelude::*;
use crate::models::ParagraphPair;
use crate::office::nonblank_texts;
use crate::text::{
    chars_of, dv, extend_chars, join, lemma_join_push, push_str, split_chars, split_on, string_of,
    strs, trim, trim_chars,
};

verus! {

broadcast use vstd::string::group_string_axioms;

/// The marker line placed between paragraphs in a request.
pub open spec fn para_marker() -> Seq<char> {
    "\n§§§\n"@
}

/// The marker the reply is cut at.
pub open spec fn reply_marker() -> Seq<char> {
    "§§§"@
}

/// The paragraphs of a text: the pieces between blank lines (`\n\n`).
pub open spec fn source_paragraphs(text: Seq<char>) -> Seq<Seq<char>> {
    split_on(text, "\n\n"@)
}

/// Cuts a text into paragraphs at each `\n\n`.
pub fn split_source_paragraphs(text: &str) -> (r: Vec<String>)
    ensures
        strs(r@) == source_paragraphs(text@),
{
    let v = chars_of(text);
    let sep = chars_of("\n\n");
    proof {
        reveal_strlit("\n\n");
    }
    let parts = split_chars(v.as_slice(), sep.as_slice());
    let mut out: Vec<String> = Vec::new();
    for k in 0..parts.len()
        invariant
            dv(parts@) == split_on(text@, "\n\n"@),
            v@ == text@,
            strs(out@) == dv(parts@).take(k as int),
    {
        let piece = string_of(parts[k].as_slice());
        assert(piece@ == dv(parts@)[k as int]);
        let ghost before = strs(out@);
        out.push(piece);
        assert(strs(out@) =~= before.push(dv(parts@)[k as int]));
        assert(dv(parts@).take(k + 1) =~= dv(parts@).take(k as int).push(dv(parts@)[k as int]));
    }
    assert(dv(parts@).take(parts@.len() as int) =~= dv(parts@));
    out
}

/// The request text: the non-blank paragraphs joined by the marker line.
pub open spec fn joined_request(ps: Seq<Seq<char>>) -> Seq<char> {
    join(nonblank_texts(ps), para_marker())
}

/// Joins the non-blank paragraphs for one translation request.
pub fn join_for_translation(ps: &Vec<String>) -> (r: String)
    ensures
        r@ == joined_request(strs(ps@)),
{
    let ghost all = strs(ps@);
    let mut out: Vec<char> = Vec::new();
    let mut first = true;
    for k in 0..ps.len()
        invariant
            all == strs(ps@),
            first == (nonblank_texts(all.take(k as int)).len() == 0),
            out@ == join(nonblank_texts(all.take(k as int)), para_marker()),
    {
        assert(all.take(k + 1).drop_last() =~= all.take(k as int));
        assert(all.take(k + 1).last() == ps@[k as int]@);
        let pv = chars_of(ps[k].as_str());
        let t = trim_chars(pv.as_slice());
        if t.len() > 0 {
            proof {
                lemma_join_push(nonblank_texts(all.take(k as int)), para_marker(), pv@);
            }
            if !first {
                push_str(&mut out, "\n§§§\n");
            }
            extend_chars(&mut out, pv.as_slice());
            first = false;
        }
    }
    assert(all.take(ps@.len() as int) =~= all);
    string_of(out.as_slice())
}

/// How many of the first `i` paragraphs are non-blank.
pub open spec fn rank(ps: Seq<Seq<char>>, i: int) -> int {
    nonblank_texts(ps.take(i)).len() as int
}

/// The translation of paragraph `i`: for the `k`-th non-blank paragraph,
/// the `k`-th piece of the reply trimmed (empty if the reply has fewer
/// pieces); empty for blank paragraphs.
pub open spec fn translation_of(ps: Seq<Seq<char>>, reply: Seq<char>, i: int) -> Seq<char> {
    let parts = split_on(reply, reply_marker());
    if trim(ps[i]).len() > 0 && rank(ps, i) < parts.len() {
        trim(parts[rank(ps, i)])
    } else {
        Seq::empty()
    }
}

proof fn lemma_rank_step(ps: Seq<Seq<char>>, i: int)
    requires
        0 <= i < ps.len(),
    ensures
        rank(ps, i + 1) == rank(ps, i) + if trim(ps[i]).len() > 0 {
            1int
        } else {
            0int
        },
{
    assert(ps.take(i + 1).drop_last() =~= ps.take(i));
    assert(ps.take(i + 1).last() == ps[i]);
}

/// Pairs every source paragraph with its translation (see `translation_of`).
pub fn paragraph_pairs(ps: &Vec<String>, reply: &str) -> (r: Vec<ParagraphPair>)
    ensures
        r@.len() == ps@.len(),
        forall|i: int|
            0 <= i < ps@.len() ==> (#[trigger] r@[i]).source@ == ps@[i]@ && r@[i].translation@
                == translation_of(strs(ps@), reply@, i),
{
    let ghost all = strs(ps@);
    let rv = chars_of(reply);
    let mk = chars_of("§§§");
    proof {
        reveal_strlit("§§§");
    }
    let parts = split_chars(rv.as_slice(), mk.as_slice());
    let mut out: Vec<ParagraphPair> = Vec::new();
    let mut slot: usize = 0;
    assert(all.take(0) =~= Seq::<Seq<char>>::empty());
    for i in 0..ps.len()
        invariant
            all == strs(ps@),
            dv(parts@) == split_on(reply@, reply_marker()),
            slot as int == rank(all, i as int),
            slot <= i,
            out@.len() == i,
            forall|j: int|
                0 <= j < i ==> (#[trigger] out@[j]).source@ == ps@[j]@ && out@[j].translation@
                    == translation_of(all, reply@, j),
    {
        proof {
            lemma_rank_step(all, i as int);
        }
        assert(all[i as int] == ps@[i as int]@);
        let pv = chars_of(ps[i].as_str());
        let t = trim_chars(pv.as_slice());
        let source = string_of(pv.as_slice());
        let translation = if t.len() > 0 {
            let tr = if slot < parts.len() {
                let tp = trim_chars(parts[slot].as_slice());
                string_of(tp.as_slice())
            } else {
                String::new()
            };
            slot = slot + 1;
            tr
        } else {
            String::new()
        };
        out.push(ParagraphPair { source, translation });
    }
    out
}

} // verus!

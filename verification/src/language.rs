//! Languages: the list of target languages offered to clients, and the
//! checks around automatic language detection (the snippet that is sent and
//! how the model's answer is turned into a language code).
use vstd::prelude::*;
use crate::client::chat_messages;
use crate::models::{ChatMessage, Language, LanguagesResponse};
use crate::text::{
    ascii_lower, ascii_lower_exec, chars_of, copy_range, string_of, trim, trim_chars,
};

verus! {

broadcast use vstd::string::group_string_axioms;

/// The supported target languages, as (code, name) pairs, in display order.
pub open spec fn target_langs() -> Seq<(Seq<char>, Seq<char>)> {
    seq![
        ("en"@, "English"@),
        ("de"@, "German"@),
        ("fr"@, "French"@),
        ("es"@, "Spanish"@),
        ("it"@, "Italian"@),
        ("pt"@, "Portuguese"@),
        ("nl"@, "Dutch"@),
        ("pl"@, "Polish"@),
        ("ru"@, "Russian"@),
        ("zh"@, "Chinese (Simplified)"@),
        ("zh-TW"@, "Chinese (Traditional)"@),
        ("ja"@, "Japanese"@),
        ("ko"@, "Korean"@),
        ("vi"@, "Vietnamese"@),
        ("id"@, "Indonesian"@),
        ("ar"@, "Arabic"@),
        ("tr"@, "Turkish"@),
        ("uk"@, "Ukrainian"@),
        ("cs"@, "Czech"@),
        ("sv"@, "Swedish"@),
        ("da"@, "Danish"@),
        ("fi"@, "Finnish"@),
        ("no"@, "Norwegian"@),
        ("ro"@, "Romanian"@),
        ("hu"@, "Hungarian"@),
        ("bg"@, "Bulgarian"@),
        ("el"@, "Greek"@),
        ("hi"@, "Hindi"@),
    ]
}

/// A language entry as a (code, name) pair.
pub open spec fn language_view(l: Language) -> (Seq<char>, Seq<char>) {
    (l.code@, l.name@)
}

/// The entries of a language list.
pub open spec fn languages_view(v: Seq<Language>) -> Seq<(Seq<char>, Seq<char>)> {
    v.map_values(|l: Language| language_view(l))
}

fn language(code: &str, name: &str) -> (r: Language)
    ensures
        language_view(r) == (code@, name@),
{
    Language { code: string_of(chars_of(code).as_slice()), name: string_of(chars_of(name).as_slice()) }
}

fn push_language(v: &mut Vec<Language>, code: &str, name: &str)
    ensures
        languages_view(final(v)@) == languages_view(old(v)@).push((code@, name@)),
{
    let l = language(code, name);
    v.push(l);
    assert(languages_view(v@) =~= languages_view(old(v)@).push((code@, name@)));
}

/// The language list offered to clients: "auto" (auto-detect) first, then
/// every supported target language.
pub fn get_languages() -> (r: LanguagesResponse)
    ensures
        languages_view(r.languages@) == seq![("auto"@, "Auto-detect"@)] + target_langs(),
{
    let mut v: Vec<Language> = Vec::new();
    assert(languages_view(v@) =~= Seq::empty());
    push_language(&mut v, "auto", "Auto-detect");
    push_language(&mut v, "en", "English");
    push_language(&mut v, "de", "German");
    push_language(&mut v, "fr", "French");
    push_language(&mut v, "es", "Spanish");
    push_language(&mut v, "it", "Italian");
    push_language(&mut v, "pt", "Portuguese");
    push_language(&mut v, "nl", "Dutch");
    push_language(&mut v, "pl", "Polish");
    push_language(&mut v, "ru", "Russian");
    push_language(&mut v, "zh", "Chinese (Simplified)");
    push_language(&mut v, "zh-TW", "Chinese (Traditional)");
    push_language(&mut v, "ja", "Japanese");
    push_language(&mut v, "ko", "Korean");
    push_language(&mut v, "vi", "Vietnamese");
    push_language(&mut v, "id", "Indonesian");
    push_language(&mut v, "ar", "Arabic");
    push_language(&mut v, "tr", "Turkish");
    push_language(&mut v, "uk", "Ukrainian");
    push_language(&mut v, "cs", "Czech");
    push_language(&mut v, "sv", "Swedish");
    push_language(&mut v, "da", "Danish");
    push_language(&mut v, "fi", "Finnish");
    push_language(&mut v, "no", "Norwegian");
    push_language(&mut v, "ro", "Romanian");
    push_language(&mut v, "hu", "Hungarian");
    push_language(&mut v, "bg", "Bulgarian");
    push_language(&mut v, "el", "Greek");
    push_language(&mut v, "hi", "Hindi");
    assert(languages_view(v@) =~= seq![("auto"@, "Auto-detect"@)] + target_langs());
    LanguagesResponse { languages: v }
}

// ───────────────────────────── detection ───────────────────────────────────

/// Number of leading characters of a text that are sent for detection.
pub const DETECT_SNIPPET_CHARS: usize = 500;

/// The part of a text sent for detection: its first 500 characters.
pub open spec fn snippet_of(text: Seq<char>) -> Seq<char> {
    if text.len() <= DETECT_SNIPPET_CHARS {
        text
    } else {
        text.take(DETECT_SNIPPET_CHARS as int)
    }
}

/// The snippet of `text` to send for detection, or `None` when it holds
/// nothing but whitespace ("text is required").
pub fn detection_snippet(text: &str) -> (r: Option<String>)
    ensures
        match r {
            Some(s) => s@ == snippet_of(text@) && trim(snippet_of(text@)).len() > 0,
            None => trim(snippet_of(text@)).len() == 0,
        },
{
    let v = chars_of(text);
    let n = if v.len() <= DETECT_SNIPPET_CHARS {
        v.len()
    } else {
        DETECT_SNIPPET_CHARS
    };
    let s = copy_range(v.as_slice(), 0, n);
    assert(s@ =~= snippet_of(text@));
    let t = trim_chars(s.as_slice());
    if t.len() == 0 {
        None
    } else {
        Some(string_of(s.as_slice()))
    }
}

/// ASCII letters and digits.
pub open spec fn is_ascii_alnum(c: char) -> bool {
    ('a' <= c && c <= 'z') || ('A' <= c && c <= 'Z') || ('0' <= c && c <= '9')
}

/// The characters of a detection reply that can belong to a language code:
/// ASCII letters, digits and `-`, in order.
pub open spec fn code_chars(s: Seq<char>) -> Seq<char>
    decreases s.len(),
{
    if s.len() == 0 {
        s
    } else if is_ascii_alnum(s.last()) || s.last() == '-' {
        code_chars(s.drop_last()).push(s.last())
    } else {
        code_chars(s.drop_last())
    }
}

/// ASCII lowercase of every character.
pub open spec fn lower_all(s: Seq<char>) -> Seq<char> {
    s.map_values(|c: char| ascii_lower(c))
}

/// The cleaned reply in canonical case: lowercase, except that the
/// Traditional Chinese tag is written `zh-TW`.
pub open spec fn canonical_code(s: Seq<char>) -> Seq<char> {
    let l = lower_all(code_chars(s));
    if l == "zh-tw"@ {
        "zh-TW"@
    } else {
        l
    }
}

/// Every character is an ASCII lowercase letter.
pub open spec fn all_lower(s: Seq<char>) -> bool {
    forall|i: int| 0 <= i < s.len() ==> 'a' <= #[trigger] s[i] && s[i] <= 'z'
}

/// Every character is an ASCII uppercase letter.
pub open spec fn all_upper(s: Seq<char>) -> bool {
    forall|i: int| 0 <= i < s.len() ==> 'A' <= #[trigger] s[i] && s[i] <= 'Z'
}

/// Index of the first `-` in `s`, or its length.
pub open spec fn first_dash(s: Seq<char>) -> int
    decreases s.len(),
{
    if s.len() == 0 {
        0
    } else if s[0] == '-' {
        0
    } else {
        1 + first_dash(s.drop_first())
    }
}

/// Whether a code looks like an ISO 639-1 code: two or three lowercase
/// letters, optionally followed by `-` and a region of two to four
/// uppercase letters.
pub open spec fn plausible_code(code: Seq<char>) -> bool {
    let d = first_dash(code);
    let base = code.take(d);
    &&& 2 <= base.len() <= 3
    &&& all_lower(base)
    &&& (d == code.len() || {
        let region = code.skip(d + 1);
        2 <= region.len() <= 4 && all_upper(region)
    })
}

proof fn lemma_first_dash(s: Seq<char>)
    ensures
        0 <= first_dash(s) <= s.len(),
        first_dash(s) < s.len() ==> s[first_dash(s)] == '-',
        forall|i: int| 0 <= i < first_dash(s) ==> s[i] != '-',
    decreases s.len(),
{
    if s.len() > 0 && s[0] != '-' {
        lemma_first_dash(s.drop_first());
        assert forall|i: int| 0 <= i < first_dash(s) implies s[i] != '-' by {
            if i > 0 {
                assert(s[i] == s.drop_first()[i - 1]);
            }
        }
    }
}

proof fn lemma_first_dash_at(s: Seq<char>, d: int)
    requires
        0 <= d <= s.len(),
        d < s.len() ==> s[d] == '-',
        forall|i: int| 0 <= i < d ==> s[i] != '-',
    ensures
        first_dash(s) == d,
    decreases s.len(),
{
    if s.len() > 0 && s[0] != '-' {
        lemma_first_dash_at(s.drop_first(), d - 1);
    }
}

fn code_chars_exec(v: &[char]) -> (r: Vec<char>)
    ensures
        r@ == lower_all(code_chars(v@)),
{
    let mut r: Vec<char> = Vec::new();
    let n = v.len();
    for i in 0..n
        invariant
            n == v@.len(),
            r@ == lower_all(code_chars(v@.take(i as int))),
    {
        let c = v[i];
        assert(v@.take(i + 1).drop_last() =~= v@.take(i as int));
        assert(v@.take(i + 1).last() == c);
        let keep = ('a' <= c && c <= 'z') || ('A' <= c && c <= 'Z') || ('0' <= c && c <= '9') || c
            == '-';
        if keep {
            r.push(ascii_lower_exec(c));
            assert(r@ =~= lower_all(code_chars(v@.take(i + 1))));
        } else {
            assert(r@ =~= lower_all(code_chars(v@.take(i + 1))));
        }
    }
    assert(v@.take(n as int) =~= v@);
    r
}

fn all_in(v: &[char], lo: char, hi: char) -> (r: bool)
    ensures
        r == forall|i: int| 0 <= i < v@.len() ==> lo <= #[trigger] v@[i] && v@[i] <= hi,
{
    let mut i: usize = 0;
    while i < v.len()
        invariant
            i <= v@.len(),
            forall|k: int| 0 <= k < i ==> lo <= #[trigger] v@[k] && v@[k] <= hi,
        decreases v@.len() - i,
    {
        if v[i] < lo || v[i] > hi {
            return false;
        }
        i = i + 1;
    }
    true
}

/// Turns a detection reply into a language code: the code in canonical case
/// when it is plausible, `None` when the reply is not a recognisable code.
pub fn normalise_language_code(raw: &str) -> (r: Option<String>)
    ensures
        match r {
            Some(code) => code@ == canonical_code(raw@) && plausible_code(canonical_code(raw@)),
            None => !plausible_code(canonical_code(raw@)),
        },
{
    let v = chars_of(raw);
    let lowered = code_chars_exec(v.as_slice());
    let zh_tw_lower = chars_of("zh-tw");
    let is_zh_tw = crate::text::chars_eq(lowered.as_slice(), zh_tw_lower.as_slice());
    let code: Vec<char> = if is_zh_tw {
        chars_of("zh-TW")
    } else {
        lowered
    };
    assert(code@ == canonical_code(raw@));
    let ghost cs = code@;
    // Find the first '-'.
    let mut d: usize = 0;
    while d < code.len() && code[d] != '-'
        invariant
            d <= code@.len(),
            forall|i: int| 0 <= i < d ==> code@[i] != '-',
        decreases code@.len() - d,
    {
        d = d + 1;
    }
    proof {
        lemma_first_dash_at(cs, d as int);
    }
    let base = copy_range(code.as_slice(), 0, d);
    assert(base@ =~= cs.take(d as int));
    let base_ok = 2 <= base.len() && base.len() <= 3 && all_in(base.as_slice(), 'a', 'z');
    let region_ok = if d == code.len() {
        true
    } else {
        let cl = code.len();
        let region = copy_range(code.as_slice(), d + 1, cl);
        assert(region@ =~= cs.skip(d + 1));
        2 <= region.len() && region.len() <= 4 && all_in(region.as_slice(), 'A', 'Z')
    };
    if base_ok && region_ok {
        Some(string_of(code.as_slice()))
    } else {
        None
    }
}

/// The instruction given to the model for language detection.
pub open spec fn detection_prompt() -> Seq<char> {
    "Identify the language of the user's text. Respond with ONLY the ISO 639-1 language code (e.g. 'en', 'de', 'fr', 'zh'). For Traditional Chinese respond with 'zh-TW'. Output nothing else — no punctuation, no explanation."@
}

/// The messages of a detection request: the instruction, then the snippet.
pub fn detection_messages(snippet: String) -> (r: Vec<ChatMessage>)
    ensures
        r@.len() == 2,
        r@[0].role@ == "system"@,
        r@[0].content@ == detection_prompt(),
        r@[1].role@ == "user"@,
        r@[1].content@ == snippet@,
{
    chat_messages(
        "Identify the language of the user's text. Respond with ONLY the ISO 639-1 language code (e.g. 'en', 'de', 'fr', 'zh'). For Traditional Chinese respond with 'zh-TW'. Output nothing else — no punctuation, no explanation.",
        snippet,
    )
}

} // verus!

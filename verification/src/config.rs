//! Server configuration: the settings read from the environment and the
//! rules that turn their raw text into configuration values.
use vstd::prelude::*;
use crate::chunker::{parse_usize, parse_usize_chars};
use crate::text::{
    chars_of, chars_eq, copy_range, dv, find_from, first_occ, lemma_first_occ_props, lowercase,
    nonempty, nonempty_exec, split_chars, split_on, str_is, string_of, strs, to_lowercase, trim,
    trim_chars, trail_c,
};

verus! {

broadcast use vstd::string::group_string_axioms;

/// A single entry in `TTS_VOICE_MAP`, parsed from `lang:voice@model`.
pub struct TtsVoiceEntry {
    pub voice: String,
    pub model: String,
}

/// Server configuration (the chars-per-token tuning ratios are kept by the
/// server next to it).
pub struct AppConfig {
    pub api_base_url: String,
    pub api_key: String,
    pub gated_api_base_url: String,
    pub gated_api_key: String,
    pub gated_access_key: String,
    pub translation_model: String,
    pub whisper_model: String,
    pub translation_models: Vec<String>,
    pub whisper_models: Vec<String>,
    pub listen_addr: String,
    pub bitvault_url: Option<String>,
    pub bitvault_api_key: Option<String>,
    pub tts_api_base_url: String,
    pub tts_api_key: String,
    /// Maximum bytes per TTS request chunk; `None` disables chunking.
    pub tts_chunk_size: Option<usize>,
    /// Per-language TTS voice and model, one entry per language code.
    pub tts_voice_map: Vec<(String, TtsVoiceEntry)>,
    /// Fallback context size (tokens) when the model ID does not encode one.
    pub default_context_size: usize,
    /// Maximum input characters for free-tier sessions; `None` = unlimited.
    pub free_tier_char_limit: Option<usize>,
    /// Maximum input characters for gated sessions; `None` = unlimited.
    pub gated_char_limit: Option<usize>,
}

/// The raw values of the environment variables the configuration is read
/// from; `None` where a variable is unset (or not valid Unicode).
pub struct EnvSettings {
    pub api_base_url: Option<String>,
    pub api_key: Option<String>,
    pub gated_api_base_url: Option<String>,
    pub gated_api_key: Option<String>,
    pub gated_access_key: Option<String>,
    pub translation_model: Option<String>,
    pub whisper_model: Option<String>,
    pub translation_models: Option<String>,
    pub whisper_models: Option<String>,
    pub listen_addr: Option<String>,
    pub bitvault_url: Option<String>,
    pub bitvault_api_key: Option<String>,
    pub tts_api_base_url: Option<String>,
    pub tts_api_key: Option<String>,
    pub tts_chunk_size: Option<String>,
    pub tts_voice_map: Option<String>,
    pub default_context_size: Option<String>,
    pub free_tier_char_limit: Option<String>,
    pub gated_char_limit: Option<String>,
}

pub open spec fn opt_view(o: Option<String>) -> Option<Seq<char>> {
    match o {
        Some(s) => Some(s@),
        None => None,
    }
}

/// The value of a variable, or the empty string when it is unset.
pub open spec fn or_empty(o: Option<Seq<char>>) -> Seq<char> {
    match o {
        Some(s) => s,
        None => Seq::empty(),
    }
}

fn string_or_empty(o: &Option<String>) -> (r: String)
    ensures
        r@ == or_empty(opt_view(*o)),
{
    match o {
        Some(s) => s.clone(),
        None => String::new(),
    }
}

fn string_or(o: &Option<String>, default: &str) -> (r: String)
    ensures
        r@ == match opt_view(*o) {
            Some(s) => s,
            None => default@,
        },
{
    match o {
        Some(s) => s.clone(),
        None => chars_of_string(default),
    }
}

fn chars_of_string(s: &str) -> (r: String)
    ensures
        r@ == s@,
{
    let v = chars_of(s);
    string_of(v.as_slice())
}

// ───────────────────────────── parsing rules ───────────────────────────────

/// A comma-separated list: items trimmed, empty items dropped.
pub open spec fn parse_list(raw: Option<Seq<char>>) -> Seq<Seq<char>> {
    nonempty(split_on(or_empty(raw), seq![',']).map_values(|p: Seq<char>| trim(p)))
}

/// Parses a comma-separated list of model IDs.
pub fn parse_model_list(raw: &Option<String>) -> (r: Vec<String>)
    ensures
        strs(r@) == parse_list(opt_view(*raw)),
{
    let s = string_or_empty(raw);
    let v = chars_of(s.as_str());
    let comma: [char; 1] = [','];
    assert(comma@ =~= seq![',']);
    let parts = split_chars(v.as_slice(), comma.as_slice());
    let mut trimmed: Vec<Vec<char>> = Vec::new();
    for i in 0..parts.len()
        invariant
            dv(trimmed@) == dv(parts@).take(i as int).map_values(|p: Seq<char>| trim(p)),
    {
        let ghost old = dv(trimmed@);
        let t = trim_chars(parts[i].as_slice());
        let ghost tv = t@;
        trimmed.push(t);
        assert(dv(trimmed@) =~= old.push(tv));
        assert(dv(parts@).take(i + 1) =~= dv(parts@).take(i as int).push(parts@[i as int]@));
        assert(dv(parts@).take(i + 1).map_values(|p: Seq<char>| trim(p)) =~= dv(parts@).take(
            i as int,
        ).map_values(|p: Seq<char>| trim(p)).push(trim(parts@[i as int]@)));
    }
    assert(dv(parts@).take(parts@.len() as int) =~= dv(parts@));
    let kept = nonempty_exec(&trimmed);
    strings_from(&kept)
}

fn strings_from(parts: &Vec<Vec<char>>) -> (r: Vec<String>)
    ensures
        strs(r@) == dv(parts@),
{
    let mut r: Vec<String> = Vec::new();
    for i in 0..parts.len()
        invariant
            strs(r@) == dv(parts@).take(i as int),
    {
        let ghost old = r@;
        let st = string_of(parts[i].as_slice());
        r.push(st);
        assert(r@ =~= old.push(st));
        assert(strs(r@) =~= strs(old).push(st@));
        assert(dv(parts@).take(i + 1) =~= dv(parts@).take(i as int).push(parts@[i as int]@));
    }
    assert(dv(parts@).take(parts@.len() as int) =~= dv(parts@));
    r
}

/// `BITVAULT_URL`: trimmed, trailing slashes removed; unset if empty.
pub open spec fn parse_url_setting(raw: Option<Seq<char>>) -> Option<Seq<char>> {
    match raw {
        Some(s) => {
            let t = trim(s);
            let u = t.take(trail_c(t, '/', t.len() as int));
            if u.len() > 0 {
                Some(u)
            } else {
                None
            }
        },
        None => None,
    }
}

/// `BITVAULT_API_KEY`: trimmed; unset if empty.
pub open spec fn parse_key_setting(raw: Option<Seq<char>>) -> Option<Seq<char>> {
    match raw {
        Some(s) => if trim(s).len() > 0 {
            Some(trim(s))
        } else {
            None
        },
        None => None,
    }
}

fn parse_url_exec(raw: &Option<String>) -> (r: Option<String>)
    ensures
        opt_view(r) == parse_url_setting(opt_view(*raw)),
{
    match raw {
        Some(s) => {
            let t = trim_chars(chars_of(s.as_str()).as_slice());
            let mut j = t.len();
            while j > 0 && t[j - 1] == '/'
                invariant
                    j <= t@.len(),
                    trail_c(t@, '/', j as int) == trail_c(t@, '/', t@.len() as int),
                decreases j,
            {
                j = j - 1;
            }
            let u = copy_range(t.as_slice(), 0, j);
            assert(u@ =~= t@.take(j as int));
            if u.len() > 0 {
                Some(string_of(u.as_slice()))
            } else {
                None
            }
        },
        None => None,
    }
}

fn parse_key_exec(raw: &Option<String>) -> (r: Option<String>)
    ensures
        opt_view(r) == parse_key_setting(opt_view(*raw)),
{
    match raw {
        Some(s) => {
            let t = trim_chars(chars_of(s.as_str()).as_slice());
            if t.len() > 0 {
                Some(string_of(t.as_slice()))
            } else {
                None
            }
        },
        None => None,
    }
}

/// `TTS_CHUNK_SIZE`: unset or `"0"` disables chunking; otherwise a positive
/// number, and anything else disables it too.
pub open spec fn parse_chunk_size(raw: Option<Seq<char>>) -> Option<usize> {
    match raw {
        None => None,
        Some(s) => if s == seq!['0'] {
            None
        } else {
            match parse_usize(s) {
                Some(n) => if n > 0 {
                    Some(n)
                } else {
                    None
                },
                None => None,
            }
        },
    }
}

/// Parses `TTS_CHUNK_SIZE`.
pub fn parse_tts_chunk_size(raw: &Option<String>) -> (r: Option<usize>)
    ensures
        r == parse_chunk_size(opt_view(*raw)),
{
    match raw {
        None => None,
        Some(s) => {
            let v = chars_of(s.as_str());
            let zero: [char; 1] = ['0'];
            assert(zero@ =~= seq!['0']);
            if chars_eq(v.as_slice(), zero.as_slice()) {
                None
            } else {
                match parse_usize_chars(v.as_slice()) {
                    Some(n) => if n > 0 {
                        Some(n)
                    } else {
                        None
                    },
                    None => None,
                }
            }
        },
    }
}

/// `DEFAULT_CONTEXT_SIZE`: a number raised to at least 1024; 4096 when
/// unset or not a number.
pub open spec fn parse_context_size(raw: Option<Seq<char>>) -> usize {
    match raw {
        Some(s) => match parse_usize(s) {
            Some(n) => if n < 1024 {
                1024
            } else {
                n
            },
            None => 4096,
        },
        None => 4096,
    }
}

/// Parses `DEFAULT_CONTEXT_SIZE`.
pub fn parse_default_context_size(raw: &Option<String>) -> (r: usize)
    ensures
        r == parse_context_size(opt_view(*raw)),
{
    match raw {
        Some(s) => {
            let v = chars_of(s.as_str());
            match parse_usize_chars(v.as_slice()) {
                Some(n) => if n < 1024 {
                    1024
                } else {
                    n
                },
                None => 4096,
            }
        },
        None => 4096,
    }
}

/// A per-tier character limit: `"0"` (after trimming) means unlimited, a
/// positive number is the limit, anything else falls back to `default`
/// (and is reported), and an unset variable gives `default`.
/// Returns the limit and whether the value was invalid.
pub open spec fn parse_limit(raw: Option<Seq<char>>, default: usize) -> (Option<usize>, bool) {
    match raw {
        Some(s) => {
            let t = trim(s);
            if t == seq!['0'] {
                (None, false)
            } else {
                match parse_usize(t) {
                    Some(n) => if n > 0 {
                        (Some(n), false)
                    } else {
                        (Some(default), true)
                    },
                    None => (Some(default), true),
                }
            }
        },
        None => (Some(default), false),
    }
}

/// Parses a per-tier character limit (`FREE_TIER_CHAR_LIMIT`,
/// `GATED_CHAR_LIMIT`); the flag tells whether the value was invalid.
pub fn parse_char_limit(raw: &Option<String>, default: usize) -> (r: (Option<usize>, bool))
    ensures
        r == parse_limit(opt_view(*raw), default),
{
    match raw {
        Some(s) => {
            let t = trim_chars(chars_of(s.as_str()).as_slice());
            let zero: [char; 1] = ['0'];
            assert(zero@ =~= seq!['0']);
            if chars_eq(t.as_slice(), zero.as_slice()) {
                (None, false)
            } else {
                match parse_usize_chars(t.as_slice()) {
                    Some(n) => if n > 0 {
                        (Some(n), false)
                    } else {
                        (Some(default), true)
                    },
                    None => (Some(default), true),
                }
            }
        },
        None => (Some(default), false),
    }
}

// ───────────────────────────── TTS voice map ───────────────────────────────

/// The text before the first `sep` in `s`, and what follows it, if any
/// (`s.splitn(2, sep)`).
pub open spec fn split_once(s: Seq<char>, sep: char) -> (Seq<char>, Option<Seq<char>>) {
    let k = first_occ(s, seq![sep], 0);
    if k < 0 {
        (s, None)
    } else {
        (s.take(k), Some(s.skip(k + 1)))
    }
}

pub fn split_once_exec(v: &[char], sep: char) -> (r: (Vec<char>, Option<Vec<char>>))
    ensures
        r.0@ == split_once(v@, sep).0,
        match r.1 {
            Some(x) => split_once(v@, sep).1 == Some(x@),
            None => split_once(v@, sep).1 is None,
        },
{
    let s: [char; 1] = [sep];
    assert(s@ =~= seq![sep]);
    proof {
        lemma_first_occ_props(v@, seq![sep], 0);
    }
    match find_from(v, s.as_slice(), 0) {
        Some(k) => {
            let a = copy_range(v, 0, k);
            let vl = v.len();
            let b = copy_range(v, k + 1, vl);
            assert(a@ =~= v@.take(k as int));
            assert(b@ =~= v@.skip(k + 1));
            (a, Some(b))
        },
        None => {
            let a = copy_range(v, 0, v.len());
            assert(a@ =~= v@);
            (a, None)
        },
    }
}

pub open spec fn zh_tw_lower() -> Seq<char> {
    seq!['z', 'h', '-', 't', 'w']
}

pub open spec fn zh_tw() -> Seq<char> {
    seq!['z', 'h', '-', 'T', 'W']
}

/// One `lang:voice@model` entry: language lowercased (`zh-tw` becomes
/// `zh-TW`), voice and model trimmed; `None` for a malformed entry.
pub open spec fn voice_entry(pair: Seq<char>) -> Option<(Seq<char>, (Seq<char>, Seq<char>))> {
    let (lang_raw, rest) = split_once(trim(pair), ':');
    match rest {
        None => None,
        Some(value_raw) => {
            let lang = trim(lang_raw);
            let value = trim(value_raw);
            if lang.len() == 0 || value.len() == 0 {
                None
            } else {
                let (voice_raw, model_raw) = split_once(value, '@');
                match model_raw {
                    None => None,
                    Some(m) => {
                        let voice = trim(voice_raw);
                        let model = trim(m);
                        if voice.len() == 0 || model.len() == 0 {
                            None
                        } else {
                            let l = lowercase(lang);
                            Some(
                                (
                                    if l == zh_tw_lower() {
                                        zh_tw()
                                    } else {
                                        l
                                    },
                                    (voice, model),
                                ),
                            )
                        }
                    },
                }
            }
        },
    }
}

/// The voice map of the first `k` entries: later entries for a language
/// replace earlier ones.
pub open spec fn voice_map_of(pairs: Seq<Seq<char>>, k: int) -> Map<
    Seq<char>,
    (Seq<char>, Seq<char>),
>
    decreases k,
{
    if k <= 0 {
        Map::empty()
    } else {
        match voice_entry(pairs[k - 1]) {
            Some((lang, e)) => voice_map_of(pairs, k - 1).insert(lang, e),
            None => voice_map_of(pairs, k - 1),
        }
    }
}

/// `TTS_VOICE_MAP`: comma-separated `lang:voice@model` entries.
pub open spec fn parse_voice_map(raw: Option<Seq<char>>) -> Map<Seq<char>, (Seq<char>, Seq<char>)> {
    let pairs = split_on(or_empty(raw), seq![',']);
    voice_map_of(pairs, pairs.len() as int)
}

/// The language → (voice, model) map an entry list denotes.
pub open spec fn voice_map_view(v: Seq<(String, TtsVoiceEntry)>) -> Map<
    Seq<char>,
    (Seq<char>, Seq<char>),
> {
    Map::new(
        |k: Seq<char>| exists|i: int| 0 <= i < v.len() && v[i].0@ == k,
        |k: Seq<char>|
            {
                let i = choose|i: int| 0 <= i < v.len() && v[i].0@ == k;
                (v[i].1.voice@, v[i].1.model@)
            },
    )
}

/// Each language appears at most once.
pub open spec fn unique_langs(v: Seq<(String, TtsVoiceEntry)>) -> bool {
    forall|a: int, b: int| 0 <= a < b < v.len() ==> v[a].0@ != v[b].0@
}

fn voice_entry_exec(pair: &[char]) -> (r: Option<(String, TtsVoiceEntry)>)
    ensures
        match r {
            Some((l, e)) => voice_entry(pair@) == Some((l@, (e.voice@, e.model@))),
            None => voice_entry(pair@) is None,
        },
{
    let p = trim_chars(pair);
    let (lang_raw, rest) = split_once_exec(p.as_slice(), ':');
    let value_raw = match rest {
        None => return None,
        Some(x) => x,
    };
    let lang = trim_chars(lang_raw.as_slice());
    let value = trim_chars(value_raw.as_slice());
    if lang.len() == 0 || value.len() == 0 {
        return None;
    }
    let (voice_raw, model_raw) = split_once_exec(value.as_slice(), '@');
    let m = match model_raw {
        None => return None,
        Some(x) => x,
    };
    let voice = trim_chars(voice_raw.as_slice());
    let model = trim_chars(m.as_slice());
    if voice.len() == 0 || model.len() == 0 {
        return None;
    }
    let lang_s = string_of(lang.as_slice());
    let l = to_lowercase(lang_s.as_str());
    let zl: [char; 5] = ['z', 'h', '-', 't', 'w'];
    assert(zl@ =~= zh_tw_lower());
    let key = if str_is(l.as_str(), zl.as_slice()) {
        let z: [char; 5] = ['z', 'h', '-', 'T', 'W'];
        assert(z@ =~= zh_tw());
        string_of(z.as_slice())
    } else {
        l
    };
    Some((key, TtsVoiceEntry { voice: string_of(voice.as_slice()), model: string_of(model.as_slice()) }))
}

/// Parses `TTS_VOICE_MAP`, silently skipping malformed entries.
pub fn parse_tts_voice_map(raw: &Option<String>) -> (r: Vec<(String, TtsVoiceEntry)>)
    ensures
        unique_langs(r@),
        voice_map_view(r@) == parse_voice_map(opt_view(*raw)),
{
    let s = string_or_empty(raw);
    let v = chars_of(s.as_str());
    let comma: [char; 1] = [','];
    assert(comma@ =~= seq![',']);
    let pairs = split_chars(v.as_slice(), comma.as_slice());
    let ghost pv = dv(pairs@);
    let mut r: Vec<(String, TtsVoiceEntry)> = Vec::new();
    assert(voice_map_view(r@) =~= Map::<Seq<char>, (Seq<char>, Seq<char>)>::empty());
    for k in 0..pairs.len()
        invariant
            pv == dv(pairs@),
            unique_langs(r@),
            voice_map_view(r@) == voice_map_of(pv, k as int),
    {
        assert(pv[k as int] == pairs@[k as int]@);
        match voice_entry_exec(pairs[k].as_slice()) {
            None => {},
            Some((lang, e)) => {
                let ghost old_r = r@;
                let ghost ev = (e.voice@, e.model@);
                let mut found: Option<usize> = None;
                let mut j: usize = 0;
                while j < r.len()
                    invariant_except_break
                        r@ == old_r,
                        j <= r@.len(),
                        found is None,
                        forall|i: int| 0 <= i < j ==> r@[i].0@ != lang@,
                    ensures
                        r@ == old_r,
                        match found {
                            Some(f) => f < r@.len() && r@[f as int].0@ == lang@,
                            None => forall|i: int| 0 <= i < r@.len() ==> r@[i].0@ != lang@,
                        },
                    decreases r@.len() - j,
                {
                    if str_is(r[j].0.as_str(), chars_of(lang.as_str()).as_slice()) {
                        found = Some(j);
                        break ;
                    }
                    j = j + 1;
                }
                let ghost lv = lang@;
                match found {
                    Some(j) => {
                        r.set(j, (lang, e));
                        assert forall|a: int, b: int| 0 <= a < b < r@.len() implies r@[a].0@
                            != r@[b].0@ by {
                            if a == j {
                                assert(old_r[b].0@ != old_r[j as int].0@);
                            } else if b == j {
                                assert(old_r[a].0@ != old_r[j as int].0@);
                            }
                        }
                        assert(voice_map_view(r@) =~= voice_map_view(old_r).insert(lv, ev)) by {
                            assert forall|key: Seq<char>| #[trigger]
                                voice_map_view(r@).contains_key(key) <==> voice_map_view(
                                old_r,
                            ).insert(lv, ev).contains_key(key) by {
                                if key != lv {
                                    if voice_map_view(old_r).contains_key(key) {
                                        let i = choose|i: int|
                                            0 <= i < old_r.len() && old_r[i].0@ == key;
                                        assert(r@[i].0@ == key);
                                    }
                                    if voice_map_view(r@).contains_key(key) {
                                        let i = choose|i: int| 0 <= i < r@.len() && r@[i].0@ == key;
                                        assert(old_r[i].0@ == key);
                                    }
                                } else {
                                    assert(r@[j as int].0@ == key);
                                }
                            }
                            assert forall|key: Seq<char>|
                                #[trigger] voice_map_view(r@).contains_key(key) implies voice_map_view(
                                r@,
                            )[key] == voice_map_view(old_r).insert(lv, ev)[key] by {
                                let i = choose|i: int| 0 <= i < r@.len() && r@[i].0@ == key;
                                if key == lv {
                                    assert(i == j);
                                } else {
                                    let i2 = choose|i: int|
                                        0 <= i < old_r.len() && old_r[i].0@ == key;
                                    assert(i == i2);
                                }
                            }
                        }
                    },
                    None => {
                        r.push((lang, e));
                        assert forall|a: int, b: int| 0 <= a < b < r@.len() implies r@[a].0@
                            != r@[b].0@ by {
                            if b == old_r.len() {
                                assert(old_r[a].0@ != lv);
                            } else {
                                assert(r@[a] == old_r[a] && r@[b] == old_r[b]);
                            }
                        }
                        assert(voice_map_view(r@) =~= voice_map_view(old_r).insert(lv, ev)) by {
                            assert forall|key: Seq<char>| #[trigger]
                                voice_map_view(r@).contains_key(key) <==> voice_map_view(
                                old_r,
                            ).insert(lv, ev).contains_key(key) by {
                                if key != lv {
                                    if voice_map_view(old_r).contains_key(key) {
                                        let i = choose|i: int|
                                            0 <= i < old_r.len() && old_r[i].0@ == key;
                                        assert(r@[i].0@ == key);
                                    }
                                } else {
                                    assert(r@[old_r.len() as int].0@ == key);
                                }
                            }
                            assert forall|key: Seq<char>|
                                #[trigger] voice_map_view(r@).contains_key(key) implies voice_map_view(
                                r@,
                            )[key] == voice_map_view(old_r).insert(lv, ev)[key] by {
                                let i = choose|i: int| 0 <= i < r@.len() && r@[i].0@ == key;
                                if key == lv {
                                    assert(i == old_r.len());
                                } else {
                                    let i2 = choose|i: int|
                                        0 <= i < old_r.len() && old_r[i].0@ == key;
                                    assert(r@[i2] == old_r[i2]);
                                    assert(i == i2);
                                }
                            }
                        }
                    },
                }
            },
        }
    }
    r
}

// ───────────────────────────── configuration ───────────────────────────────

/// Default free-tier limit (~4 096 tokens).
pub const FREE_TIER_DEFAULT_LIMIT: usize = 16_000;

/// Default gated-tier limit (~16 384 tokens).
pub const GATED_DEFAULT_LIMIT: usize = 65_536;

/// The host of a URL, as the `url` crate parses it.
pub uninterp spec fn url_host_of(s: Seq<char>) -> Option<Seq<char>>;

/// `url::Url::parse` followed by `Url::host_str`: the host of `s` if it
/// parses as an absolute URL that has one. Trusted: the result is
/// `url_host_of` of the input; the URL grammar is not restated here.
#[verifier::external_body]
fn url_host(s: &str) -> (r: Option<String>)
    ensures
        opt_view(r) == url_host_of(s@),
{
    url::Url::parse(s).ok().and_then(|u| u.host_str().map(|h| h.to_string()))
}

/// The configuration `from_settings` builds from the raw settings.
pub open spec fn config_from(c: AppConfig, s: EnvSettings) -> bool {
    &&& c.api_base_url@ == or_empty(opt_view(s.api_base_url))
    &&& c.api_key@ == or_empty(opt_view(s.api_key))
    &&& c.gated_api_base_url@ == or_empty(opt_view(s.gated_api_base_url))
    &&& c.gated_api_key@ == or_empty(opt_view(s.gated_api_key))
    &&& c.gated_access_key@ == or_empty(opt_view(s.gated_access_key))
    &&& c.translation_model@ == match opt_view(s.translation_model) {
        Some(v) => v,
        None => "gpgpu/qwen3:14b-q5_k_m-32768"@,
    }
    &&& c.whisper_model@ == match opt_view(s.whisper_model) {
        Some(v) => v,
        None => "gpgpu/whisper"@,
    }
    &&& strs(c.translation_models@) == parse_list(opt_view(s.translation_models))
    &&& strs(c.whisper_models@) == parse_list(opt_view(s.whisper_models))
    &&& c.listen_addr@ == match opt_view(s.listen_addr) {
        Some(v) => v,
        None => "0.0.0.0:3000"@,
    }
    &&& opt_view(c.bitvault_url) == parse_url_setting(opt_view(s.bitvault_url))
    &&& opt_view(c.bitvault_api_key) == parse_key_setting(opt_view(s.bitvault_api_key))
    &&& c.tts_api_base_url@ == or_empty(opt_view(s.tts_api_base_url))
    &&& c.tts_api_key@ == or_empty(opt_view(s.tts_api_key))
    &&& c.tts_chunk_size == parse_chunk_size(opt_view(s.tts_chunk_size))
    &&& unique_langs(c.tts_voice_map@)
    &&& voice_map_view(c.tts_voice_map@) == parse_voice_map(opt_view(s.tts_voice_map))
    &&& c.default_context_size == parse_context_size(opt_view(s.default_context_size))
    &&& c.free_tier_char_limit == parse_limit(
        opt_view(s.free_tier_char_limit),
        FREE_TIER_DEFAULT_LIMIT,
    ).0
    &&& c.gated_char_limit == parse_limit(opt_view(s.gated_char_limit), GATED_DEFAULT_LIMIT).0
}

impl AppConfig {
    /// Builds the configuration from the raw environment settings. The two
    /// flags tell whether `FREE_TIER_CHAR_LIMIT` and `GATED_CHAR_LIMIT` held
    /// invalid values (which fall back to their defaults).
    pub fn from_settings(s: &EnvSettings) -> (r: (AppConfig, bool, bool))
        ensures
            config_from(r.0, *s),
            r.1 == parse_limit(opt_view(s.free_tier_char_limit), FREE_TIER_DEFAULT_LIMIT).1,
            r.2 == parse_limit(opt_view(s.gated_char_limit), GATED_DEFAULT_LIMIT).1,
    {
        let (free, free_bad) = parse_char_limit(&s.free_tier_char_limit, FREE_TIER_DEFAULT_LIMIT);
        let (gated, gated_bad) = parse_char_limit(&s.gated_char_limit, GATED_DEFAULT_LIMIT);
        let c = AppConfig {
            api_base_url: string_or_empty(&s.api_base_url),
            api_key: string_or_empty(&s.api_key),
            gated_api_base_url: string_or_empty(&s.gated_api_base_url),
            gated_api_key: string_or_empty(&s.gated_api_key),
            gated_access_key: string_or_empty(&s.gated_access_key),
            translation_model: string_or(&s.translation_model, "gpgpu/qwen3:14b-q5_k_m-32768"),
            whisper_model: string_or(&s.whisper_model, "gpgpu/whisper"),
            translation_models: parse_model_list(&s.translation_models),
            whisper_models: parse_model_list(&s.whisper_models),
            listen_addr: string_or(&s.listen_addr, "0.0.0.0:3000"),
            bitvault_url: parse_url_exec(&s.bitvault_url),
            bitvault_api_key: parse_key_exec(&s.bitvault_api_key),
            tts_api_base_url: string_or_empty(&s.tts_api_base_url),
            tts_api_key: string_or_empty(&s.tts_api_key),
            tts_chunk_size: parse_tts_chunk_size(&s.tts_chunk_size),
            tts_voice_map: parse_tts_voice_map(&s.tts_voice_map),
            default_context_size: parse_default_context_size(&s.default_context_size),
            free_tier_char_limit: free,
            gated_char_limit: gated,
        };
        (c, free_bad, gated_bad)
    }

    /// The languages that have a voice, sorted.
    pub fn tts_languages(&self) -> (r: Vec<String>)
        ensures
            crate::text::lex_sorted(strs(r@)),
            strs(r@).to_multiset() == self.tts_voice_map@.map_values(
                |e: (String, TtsVoiceEntry)| e.0@,
            ).to_multiset(),
    {
        let mut keys: Vec<String> = Vec::new();
        for k in 0..self.tts_voice_map.len()
            invariant
                strs(keys@) == self.tts_voice_map@.map_values(|e: (String, TtsVoiceEntry)| e.0@).take(
                    k as int,
                ),
        {
            let ghost before = strs(keys@);
            let key = self.tts_voice_map[k].0.clone();
            assert(key@ == self.tts_voice_map@[k as int].0@);
            keys.push(key);
            assert(strs(keys@) =~= before.push(key@));
            assert(strs(keys@) =~= self.tts_voice_map@.map_values(|e: (String, TtsVoiceEntry)| e.0@).take(
                k + 1,
            ));
        }
        assert(self.tts_voice_map@.map_values(|e: (String, TtsVoiceEntry)| e.0@).take(
            self.tts_voice_map@.len() as int,
        ) =~= self.tts_voice_map@.map_values(|e: (String, TtsVoiceEntry)| e.0@));
        crate::text::sorted_strings(&keys)
    }

    /// The first model, in `str` order, among the configured voices.
    pub fn tts_model(&self) -> (r: Option<String>)
        ensures
            r is None <==> self.tts_voice_map@.len() == 0,
            r matches Some(m) ==> (exists|i: int|
                0 <= i < self.tts_voice_map@.len() && (#[trigger] self.tts_voice_map@[i]).1.model@ == m@)
                && forall|i: int|
                0 <= i < self.tts_voice_map@.len() ==> crate::text::lex_le(
                    m@,
                    (#[trigger] self.tts_voice_map@[i]).1.model@,
                ),
    {
        if self.tts_voice_map.len() == 0 {
            return None;
        }
        let mut best: usize = 0;
        let mut k: usize = 1;
        proof {
            crate::text::lemma_lex_total(self.tts_voice_map@[0].1.model@, self.tts_voice_map@[0].1.model@);
        }
        while k < self.tts_voice_map.len()
            invariant
                1 <= k <= self.tts_voice_map@.len(),
                best < k,
                forall|i: int|
                    0 <= i < k ==> crate::text::lex_le(
                        self.tts_voice_map@[best as int].1.model@,
                        (#[trigger] self.tts_voice_map@[i]).1.model@,
                    ),
            decreases self.tts_voice_map@.len() - k,
        {
            let cand = chars_of(self.tts_voice_map[k].1.model.as_str());
            let cur = chars_of(self.tts_voice_map[best].1.model.as_str());
            if !crate::text::lex_le_exec(cur.as_slice(), cand.as_slice()) {
                proof {
                    crate::text::lemma_lex_total(cur@, cand@);
                    assert forall|i: int| 0 <= i < k + 1 implies crate::text::lex_le(
                        cand@,
                        (#[trigger] self.tts_voice_map@[i]).1.model@,
                    ) by {
                        if i < k {
                            crate::text::lemma_lex_trans(cand@, cur@, self.tts_voice_map@[i].1.model@);
                        } else {
                            crate::text::lemma_lex_total(cand@, cand@);
                        }
                    }
                }
                best = k;
            } else {
                assert(crate::text::lex_le(cur@, self.tts_voice_map@[k as int].1.model@));
            }
            k = k + 1;
        }
        Some(self.tts_voice_map[best].1.model.clone())
    }

    /// The voice and model configured for a language, if any.
    pub fn voice_for(&self, lang: &str) -> (r: Option<&TtsVoiceEntry>)
        ensures
            match r {
                Some(e) => exists|i: int|
                    0 <= i < self.tts_voice_map@.len() && (#[trigger] self.tts_voice_map@[i]).0@ == lang@
                        && self.tts_voice_map@[i].1 == *e,
                None => forall|i: int|
                    0 <= i < self.tts_voice_map@.len() ==> (#[trigger] self.tts_voice_map@[i]).0@ != lang@,
            },
    {
        let mut k: usize = 0;
        while k < self.tts_voice_map.len()
            invariant
                k <= self.tts_voice_map@.len(),
                forall|i: int| 0 <= i < k ==> (#[trigger] self.tts_voice_map@[i]).0@ != lang@,
            decreases self.tts_voice_map@.len() - k,
        {
            if crate::text::str_eq(self.tts_voice_map[k].0.as_str(), lang) {
                return Some(&self.tts_voice_map[k].1);
            }
            k = k + 1;
        }
        None
    }

    /// The server has its own backend credentials.
    pub fn is_configured(&self) -> (r: bool)
        ensures
            r == (self.api_base_url@.len() > 0 && self.api_key@.len() > 0),
    {
        !self.api_base_url.as_str().is_empty() && !self.api_key.as_str().is_empty()
    }

    /// The gated tier is fully configured (endpoint, key and access key).
    pub fn is_gated_configured(&self) -> (r: bool)
        ensures
            r == (self.gated_api_base_url@.len() > 0 && self.gated_api_key@.len() > 0
                && self.gated_access_key@.len() > 0),
    {
        !self.gated_api_base_url.as_str().is_empty() && !self.gated_api_key.as_str().is_empty()
            && !self.gated_access_key.as_str().is_empty()
    }

    /// Bitvault integration is configured.
    pub fn is_bitvault_configured(&self) -> (r: bool)
        ensures
            r == self.bitvault_url.is_some(),
    {
        self.bitvault_url.is_some()
    }

    /// A TTS endpoint and key are configured.
    pub fn is_tts_configured(&self) -> (r: bool)
        ensures
            r == (self.tts_api_base_url@.len() > 0 && self.tts_api_key@.len() > 0),
    {
        !self.tts_api_base_url.as_str().is_empty() && !self.tts_api_key.as_str().is_empty()
    }

    /// The hostname of the TTS endpoint for UI display, or `None` if TTS is
    /// not configured, the URL does not parse, or its host is empty.
    pub fn tts_hostname(&self) -> (r: Option<String>)
        ensures
            opt_view(r) == if self.tts_api_base_url@.len() > 0 && self.tts_api_key@.len() > 0 {
                match url_host_of(self.tts_api_base_url@) {
                    Some(h) => if h.len() > 0 {
                        Some(h)
                    } else {
                        None
                    },
                    None => None,
                }
            } else {
                None
            },
    {
        if !self.is_tts_configured() {
            return None;
        }
        match url_host(self.tts_api_base_url.as_str()) {
            Some(h) => if !h.as_str().is_empty() {
                Some(h)
            } else {
                None
            },
            None => None,
        }
    }
}

} // verus!

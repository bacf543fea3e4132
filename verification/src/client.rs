//! The OpenAI-compatible backend: endpoint URLs, how probe responses
//! classify a model, and the fixed audio used to probe speech-to-text.
use vstd::prelude::*;
use crate::chunker::context_size_from_model_id;
use crate::chunker::model_context_size;
use crate::config::AppConfig;
use crate::access::SessionTier;
use crate::models::{ChatMessage, ChatResponse, ModelInfo};
use crate::prompt::{strip_think_tags, without_think_blocks};
use crate::text::{
    chars_of, chars_eq, copy_range, push_str, starts_with, starts_with_chars, string_of, strs,
    trail_c, trim,
};

verus! {

broadcast use vstd::string::group_string_axioms;

/// The functional kind of a model, determined by probing its API endpoints.
#[derive(Clone, Copy, PartialEq, Eq, Structural, Debug)]
pub enum ModelKind {
    /// Accepts text, returns text — usable for translation.
    Translation,
    /// Accepts audio, returns text — speech-to-text.
    Transcription,
    /// Accepts text, returns audio — text-to-speech.
    Tts,
    /// All probes gave definitive non-success (4xx). Excluded from all dropdowns.
    Unknown,
}

/// Endpoint and credentials of an OpenAI-compatible backend.
pub struct OpenAiClient {
    pub base_url: String,
    pub api_key: String,
}

impl OpenAiClient {
    /// The client for the server's own backend.
    pub fn new(config: &AppConfig) -> (r: Self)
        ensures
            r.base_url@ == config.api_base_url@.take(
                trail_c(config.api_base_url@, '/', config.api_base_url@.len() as int),
            ),
            r.api_key@ == config.api_key@,
    {
        Self::with_credentials(config.api_base_url.as_str(), config.api_key.as_str())
    }

    /// A client for `endpoint` (trailing slashes removed) and `api_key`.
    pub fn with_credentials(endpoint: &str, api_key: &str) -> (r: Self)
        ensures
            r.base_url@ == endpoint@.take(trail_c(endpoint@, '/', endpoint@.len() as int)),
            r.api_key@ == api_key@,
    {
        let v = chars_of(endpoint);
        let mut j = v.len();
        while j > 0 && v[j - 1] == '/'
            invariant
                j <= v@.len(),
                trail_c(v@, '/', j as int) == trail_c(v@, '/', v@.len() as int),
            decreases j,
        {
            j = j - 1;
        }
        let b = copy_range(v.as_slice(), 0, j);
        assert(b@ =~= v@.take(j as int));
        let k = chars_of(api_key);
        OpenAiClient { base_url: string_of(b.as_slice()), api_key: string_of(k.as_slice()) }
    }

    fn url_with(&self, path: &str) -> (r: String)
        ensures
            r@ == self.base_url@ + path@,
    {
        let mut out = chars_of(self.base_url.as_str());
        push_str(&mut out, path);
        string_of(out.as_slice())
    }

    /// The chat-completions endpoint.
    pub fn chat_url(&self) -> (r: String)
        ensures
            r@ == self.base_url@ + "/v1/chat/completions"@,
    {
        self.url_with("/v1/chat/completions")
    }

    /// The speech-to-text endpoint.
    pub fn transcription_url(&self) -> (r: String)
        ensures
            r@ == self.base_url@ + "/v1/audio/transcriptions"@,
    {
        self.url_with("/v1/audio/transcriptions")
    }

    /// The text-to-speech endpoint.
    pub fn speech_url(&self) -> (r: String)
        ensures
            r@ == self.base_url@ + "/v1/audio/speech"@,
    {
        self.url_with("/v1/audio/speech")
    }

    /// The model-listing endpoint.
    pub fn models_url(&self) -> (r: String)
        ensures
            r@ == self.base_url@ + "/v1/models"@,
    {
        self.url_with("/v1/models")
    }

    /// A copy of this client.
    pub fn duplicate(&self) -> (r: Self)
        ensures
            r.base_url@ == self.base_url@,
            r.api_key@ == self.api_key@,
    {
        OpenAiClient { base_url: self.base_url.clone(), api_key: self.api_key.clone() }
    }
}

// ───────────────────────────── probing ─────────────────────────────────────

/// A 2xx status.
pub open spec fn is_success(status: u16) -> bool {
    200 <= status <= 299
}

/// A status that says "try again later": 429 or 5xx.
pub open spec fn is_transient(status: u16) -> bool {
    status == 429 || (500 <= status <= 599)
}

/// Outcome of the chat probe from its response status (`None` for a
/// network error or timeout): `Some(true)` on 2xx, `None` on a transient
/// failure, `Some(false)` on any other status.
pub open spec fn chat_probe_outcome(status: Option<u16>) -> Option<bool> {
    match status {
        None => None,
        Some(s) => if is_success(s) {
            Some(true)
        } else if is_transient(s) {
            None
        } else {
            Some(false)
        },
    }
}

/// Classifies the response of the chat probe.
pub fn classify_chat_probe(status: Option<u16>) -> (r: Option<bool>)
    ensures
        r == chat_probe_outcome(status),
{
    match status {
        None => None,
        Some(s) => if 200 <= s && s <= 299 {
            Some(true)
        } else if s == 429 || (500 <= s && s <= 599) {
            None
        } else {
            Some(false)
        },
    }
}

/// Outcome of the speech-to-text probe: transient failures give `None`, other
/// non-2xx give `Some(false)`, and a 2xx counts only if its JSON body has a
/// `text` field.
pub open spec fn stt_probe_outcome(status: Option<u16>, has_text: bool) -> Option<bool> {
    match status {
        None => None,
        Some(s) => if is_transient(s) {
            None
        } else if !is_success(s) {
            Some(false)
        } else {
            Some(has_text)
        },
    }
}

/// Classifies the response of the speech-to-text probe.
pub fn classify_stt_probe(status: Option<u16>, has_text: bool) -> (r: Option<bool>)
    ensures
        r == stt_probe_outcome(status, has_text),
{
    match status {
        None => None,
        Some(s) => if s == 429 || (500 <= s && s <= 599) {
            None
        } else if !(200 <= s && s <= 299) {
            Some(false)
        } else {
            Some(has_text)
        },
    }
}

/// A content type that carries audio.
pub open spec fn is_audio_type(ct: Seq<char>) -> bool {
    starts_with(ct, "audio/"@) || ct == "application/octet-stream"@
}

/// Outcome of the text-to-speech probe: transient failures give `None`;
/// otherwise whether it answered 2xx with an audio content type.
pub open spec fn tts_probe_outcome(status: Option<u16>, content_type: Option<Seq<char>>) -> Option<
    bool,
> {
    match status {
        None => None,
        Some(s) => if is_transient(s) {
            None
        } else {
            Some(
                is_success(s) && match content_type {
                    Some(ct) => is_audio_type(ct),
                    None => false,
                },
            )
        },
    }
}

/// Classifies the response of the text-to-speech probe.
pub fn classify_tts_probe(status: Option<u16>, content_type: Option<&str>) -> (r: Option<bool>)
    ensures
        r == tts_probe_outcome(
            status,
            match content_type {
                Some(c) => Some(c@),
                None => None,
            },
        ),
{
    match status {
        None => None,
        Some(s) => if s == 429 || (500 <= s && s <= 599) {
            None
        } else {
            let audio = match content_type {
                Some(ct) => {
                    let v = chars_of(ct);
                    let a = chars_of("audio/");
                    let o = chars_of("application/octet-stream");
                    starts_with_chars(v.as_slice(), a.as_slice()) || chars_eq(
                        v.as_slice(),
                        o.as_slice(),
                    )
                },
                None => false,
            };
            Some(200 <= s && s <= 299 && audio)
        },
    }
}

/// The probes tried, in order.
#[derive(Clone, Copy, PartialEq, Eq, Structural, Debug)]
pub enum ProbeStage {
    Chat,
    Stt,
    Tts,
}

/// What to do after a probe.
#[derive(Clone, Copy, PartialEq, Eq, Structural, Debug)]
pub enum ProbeNext {
    /// Run this probe next.
    Probe(ProbeStage),
    /// Classification finished: the kind, or `None` if a probe hit a
    /// transient failure (the result must not be cached).
    Done(Option<ModelKind>),
}

/// The decision after a probe: a transient outcome ends the run without a
/// result; success classifies the model; a definitive failure moves on to
/// the next probe, and after the last one the model is `Unknown`.
pub open spec fn probe_next(stage: ProbeStage, outcome: Option<bool>) -> ProbeNext {
    match outcome {
        None => ProbeNext::Done(None),
        Some(true) => ProbeNext::Done(
            Some(
                match stage {
                    ProbeStage::Chat => ModelKind::Translation,
                    ProbeStage::Stt => ModelKind::Transcription,
                    ProbeStage::Tts => ModelKind::Tts,
                },
            ),
        ),
        Some(false) => match stage {
            ProbeStage::Chat => ProbeNext::Probe(ProbeStage::Stt),
            ProbeStage::Stt => ProbeNext::Probe(ProbeStage::Tts),
            ProbeStage::Tts => ProbeNext::Done(Some(ModelKind::Unknown)),
        },
    }
}

/// One step of `probe_model_kind`: chat → speech-to-text → text-to-speech.
pub fn probe_step(stage: ProbeStage, outcome: Option<bool>) -> (r: ProbeNext)
    ensures
        r == probe_next(stage, outcome),
{
    match outcome {
        None => ProbeNext::Done(None),
        Some(true) => ProbeNext::Done(
            Some(
                match stage {
                    ProbeStage::Chat => ModelKind::Translation,
                    ProbeStage::Stt => ModelKind::Transcription,
                    ProbeStage::Tts => ModelKind::Tts,
                },
            ),
        ),
        Some(false) => match stage {
            ProbeStage::Chat => ProbeNext::Probe(ProbeStage::Stt),
            ProbeStage::Stt => ProbeNext::Probe(ProbeStage::Tts),
            ProbeStage::Tts => ProbeNext::Done(Some(ModelKind::Unknown)),
        },
    }
}

/// The voice used for the text-to-speech probe when none is configured.
pub fn probe_voice(configured: Option<&str>) -> (r: String)
    ensures
        r@ == match configured {
            Some(v) => v@,
            None => "alloy"@,
        },
{
    match configured {
        Some(v) => string_of(chars_of(v).as_slice()),
        None => string_of(chars_of("alloy").as_slice()),
    }
}

/// Where a model is listed.
#[derive(Clone, Copy, PartialEq, Eq, Structural, Debug)]
pub enum ModelBucket {
    Translation,
    Transcription,
    Hidden,
}

/// The list a probed model goes to. An inconclusive probe counts as a
/// translation model, so the model is not silently hidden.
pub open spec fn bucket_of(probe: Option<ModelKind>) -> ModelBucket {
    match probe {
        None => ModelBucket::Translation,
        Some(ModelKind::Translation) => ModelBucket::Translation,
        Some(ModelKind::Transcription) => ModelBucket::Transcription,
        Some(_) => ModelBucket::Hidden,
    }
}

/// Which list a model goes to after probing (`categorize_models`).
pub fn model_bucket(probe: Option<ModelKind>) -> (r: ModelBucket)
    ensures
        r == bucket_of(probe),
{
    match probe {
        None => ModelBucket::Translation,
        Some(ModelKind::Translation) => ModelBucket::Translation,
        Some(ModelKind::Transcription) => ModelBucket::Transcription,
        Some(_) => ModelBucket::Hidden,
    }
}

/// Where the model lists of a request come from.
#[derive(Clone, Copy, PartialEq, Eq, Structural, Debug)]
pub enum ModelsSource {
    /// Fetched from the gated backend; probes go through the shared cache.
    GatedCached,
    /// Fetched from the user's own endpoint; probes do not touch the shared
    /// cache, so one user's results never reach another.
    ByokUncached,
    /// The server's configured lists, as they stand.
    Configured,
    /// No list is configured: fetched from the server's backend, probing
    /// through the shared cache.
    ServerCached,
}

/// Where the model lists come from: a gated session fetches from the gated
/// backend with the cache, a BYOK session from its own endpoint without it;
/// free and anonymous requests use the configured lists, fetched from the
/// server's backend only when both are empty and the server is configured.
pub open spec fn source_of(tier: Option<SessionTier>, lists_empty: bool, configured: bool) -> ModelsSource {
    match tier {
        Some(SessionTier::Gated) => ModelsSource::GatedCached,
        Some(SessionTier::Byok) => ModelsSource::ByokUncached,
        _ => if lists_empty && configured {
            ModelsSource::ServerCached
        } else {
            ModelsSource::Configured
        },
    }
}

/// Where the model lists come from (see `source_of`).
pub fn models_source(tier: Option<SessionTier>, lists_empty: bool, configured: bool) -> (r: ModelsSource)
    ensures
        r == source_of(tier, lists_empty, configured),
{
    match tier {
        Some(SessionTier::Gated) => ModelsSource::GatedCached,
        Some(SessionTier::Byok) => ModelsSource::ByokUncached,
        _ => if lists_empty && configured {
            ModelsSource::ServerCached
        } else {
            ModelsSource::Configured
        },
    }
}

/// Whether a probe result is written back to the shared cache: only when
/// the cache is in use, held nothing for the model, and the probe was
/// conclusive (an inconclusive probe is retried next time).
pub fn cache_write(cached: Option<ModelKind>, probed: Option<ModelKind>, use_cache: bool) -> (r: bool)
    ensures
        r == (use_cache && cached is None && probed is Some),
{
    use_cache && cached.is_none() && probed.is_some()
}

/// The IDs of `ids` whose kind puts them in list `b`, in order.
pub open spec fn bucket_ids(ids: Seq<Seq<char>>, kinds: Seq<Option<ModelKind>>, b: ModelBucket) -> Seq<Seq<char>>
    decreases ids.len(),
{
    if ids.len() == 0 {
        Seq::empty()
    } else {
        let rest = bucket_ids(ids.drop_last(), kinds.drop_last(), b);
        if bucket_of(kinds[ids.len() - 1]) == b {
            rest.push(ids.last())
        } else {
            rest
        }
    }
}

/// Sorts model IDs, given the kind found for each, into the translation and
/// the transcription list, keeping their order; the others are hidden.
pub fn categorize(ids: Vec<String>, kinds: Vec<Option<ModelKind>>) -> (r: (Vec<String>, Vec<String>))
    requires
        ids@.len() == kinds@.len(),
    ensures
        strs(r.0@) == bucket_ids(strs(ids@), kinds@, ModelBucket::Translation),
        strs(r.1@) == bucket_ids(strs(ids@), kinds@, ModelBucket::Transcription),
{
    let mut translation: Vec<String> = Vec::new();
    let mut transcription: Vec<String> = Vec::new();
    let ghost all = strs(ids@);
    let n = ids.len();
    for i in 0..n
        invariant
            n == ids@.len() == kinds@.len(),
            all == strs(ids@),
            strs(translation@) == bucket_ids(all.take(i as int), kinds@.take(i as int), ModelBucket::Translation),
            strs(transcription@) == bucket_ids(
                all.take(i as int),
                kinds@.take(i as int),
                ModelBucket::Transcription,
            ),
    {
        proof {
            assert(all.take(i + 1).drop_last() =~= all.take(i as int));
            assert(kinds@.take(i + 1).drop_last() =~= kinds@.take(i as int));
            assert(all.take(i + 1).last() == ids@[i as int]@);
            assert(kinds@.take(i + 1)[i as int] == kinds@[i as int]);
        }
        let id = ids[i].clone();
        let ghost t0 = strs(translation@);
        let ghost c0 = strs(transcription@);
        match model_bucket(kinds[i]) {
            ModelBucket::Translation => {
                translation.push(id);
                assert(strs(translation@) =~= t0.push(ids@[i as int]@));
            },
            ModelBucket::Transcription => {
                transcription.push(id);
                assert(strs(transcription@) =~= c0.push(ids@[i as int]@));
            },
            ModelBucket::Hidden => {},
        }
    }
    proof {
        assert(all.take(n as int) =~= all);
        assert(kinds@.take(n as int) =~= kinds@);
    }
    (translation, transcription)
}

/// The model entries shown for a list of IDs: each named by its ID, with
/// the context size its ID encodes.
pub fn model_infos(ids: &Vec<String>, default_context_size: usize) -> (r: Vec<ModelInfo>)
    ensures
        r@.len() == ids@.len(),
        forall|i: int|
            0 <= i < ids@.len() ==> {
                &&& (#[trigger] r@[i]).id@ == ids@[i]@
                &&& r@[i].name@ == ids@[i]@
                &&& r@[i].context_size == model_context_size(ids@[i]@, default_context_size)
            },
{
    let mut r: Vec<ModelInfo> = Vec::new();
    for i in 0..ids.len()
        invariant
            r@.len() == i,
            forall|k: int|
                0 <= k < i ==> {
                    &&& (#[trigger] r@[k]).id@ == ids@[k]@
                    &&& r@[k].name@ == ids@[k]@
                    &&& r@[k].context_size == model_context_size(ids@[k]@, default_context_size)
                },
    {
        let id = &ids[i];
        r.push(
            ModelInfo {
                id: id.clone(),
                name: id.clone(),
                context_size: context_size_from_model_id(id.as_str(), default_context_size),
            },
        );
    }
    r
}

/// A model list for the client: the given IDs, or the configured default
/// model alone when there are none.
pub fn ids_or_default(ids: Vec<String>, default: &str) -> (r: Vec<String>)
    ensures
        r@.len() > 0,
        ids@.len() > 0 ==> r@ == ids@,
        ids@.len() == 0 ==> r@.len() == 1 && r@[0]@ == default@,
{
    if ids.len() > 0 {
        ids
    } else {
        let mut r: Vec<String> = Vec::new();
        r.push(string_of(chars_of(default).as_slice()));
        r
    }
}

// ───────────────────────────── chat replies ────────────────────────────────

/// The text of a chat-completion reply: the first choice's message with its
/// reasoning blocks removed and trimmed; empty if there is no choice.
pub fn chat_reply_text(resp: &ChatResponse) -> (r: String)
    ensures
        r@ == trim(
            without_think_blocks(
                if resp.choices@.len() > 0 {
                    resp.choices@[0].message.content@
                } else {
                    Seq::empty()
                },
            ),
        ),
{
    if resp.choices.len() > 0 {
        strip_think_tags(resp.choices[0].message.content.as_str())
    } else {
        proof {
            reveal_strlit("");
        }
        assert(""@ =~= Seq::<char>::empty());
        strip_think_tags("")
    }
}

/// Whether the first choice of a reply was cut off by the output limit.
pub fn truncated_by_length(resp: &ChatResponse) -> (r: bool)
    ensures
        r == (resp.choices@.len() > 0 && match resp.choices@[0].finish_reason {
            Some(f) => f@ == "length"@,
            None => false,
        }),
{
    if resp.choices.len() > 0 {
        match &resp.choices[0].finish_reason {
            Some(f) => {
                let v = chars_of(f.as_str());
                let l = chars_of("length");
                chars_eq(v.as_slice(), l.as_slice())
            },
            None => false,
        }
    } else {
        false
    }
}

/// The two messages of a chat request: the system prompt and the user text.
pub fn chat_messages(system_prompt: &str, user_content: String) -> (r: Vec<ChatMessage>)
    ensures
        r@.len() == 2,
        r@[0].role@ == "system"@,
        r@[0].content@ == system_prompt@,
        r@[1].role@ == "user"@,
        r@[1].content@ == user_content@,
{
    let mut r: Vec<ChatMessage> = Vec::new();
    r.push(
        ChatMessage {
            role: string_of(chars_of("system").as_slice()),
            content: string_of(chars_of(system_prompt).as_slice()),
        },
    );
    r.push(ChatMessage { role: string_of(chars_of("user").as_slice()), content: user_content });
    r
}

// ───────────────────────────── probe audio ─────────────────────────────────

/// `v` as 4 little-endian bytes.
pub open spec fn le32(v: nat) -> Seq<u8> {
    seq![(v % 256) as u8, ((v / 256) % 256) as u8, ((v / 65536) % 256) as u8, ((v / 16777216) % 256) as u8]
}

/// `v` as 2 little-endian bytes.
pub open spec fn le16(v: nat) -> Seq<u8> {
    seq![(v % 256) as u8, ((v / 256) % 256) as u8]
}

pub open spec fn wav_sample_rate() -> nat {
    8000
}

/// 0.1 s of samples.
pub open spec fn wav_samples() -> nat {
    800
}

/// 16-bit mono: two bytes per sample.
pub open spec fn wav_data_size() -> nat {
    wav_samples() * 2
}

/// The 44-byte header of a PCM WAV file: 8 kHz, 16-bit, mono.
pub open spec fn wav_header() -> Seq<u8> {
    seq![82u8, 73, 70, 70] + le32(36 + wav_data_size()) + seq![87u8, 65, 86, 69] + seq![
        102u8,
        109,
        116,
        32,
    ] + le32(16) + le16(1) + le16(1) + le32(wav_sample_rate()) + le32(wav_sample_rate() * 2)
        + le16(2) + le16(16) + seq![100u8, 97, 116, 97] + le32(wav_data_size())
}

/// Build a minimal valid WAV: 8 kHz, 16-bit, mono, 0.1 s of silence. Used
/// by the speech-to-text probe to avoid sending real audio data.
pub fn minimal_wav() -> (r: Vec<u8>)
    ensures
        r@ == wav_header() + Seq::new(wav_data_size(), |i: int| 0u8),
{
    let bytes: [u8; 44] = [
        82, 73, 70, 70, 0x64, 0x06, 0, 0, 87, 65, 86, 69, 102, 109, 116, 32, 16, 0, 0, 0, 1, 0, 1,
        0, 0x40, 0x1F, 0, 0, 0x80, 0x3E, 0, 0, 2, 0, 16, 0, 100, 97, 116, 97, 0x40, 0x06, 0, 0,
    ];
    assert(bytes@ =~= wav_header());
    let mut wav: Vec<u8> = Vec::new();
    for i in 0..44
        invariant
            wav@ == bytes@.take(i as int),
    {
        wav.push(bytes[i]);
        assert(bytes@.take(i + 1) =~= bytes@.take(i as int).push(bytes@[i as int]));
    }
    assert(bytes@.take(44) =~= bytes@);
    for i in 0..1600usize
        invariant
            wav@ == wav_header() + Seq::new(i as nat, |k: int| 0u8),
    {
        wav.push(0u8);
        assert(wav@ =~= wav_header() + Seq::new((i + 1) as nat, |k: int| 0u8));
    }
    wav
}

} // verus!

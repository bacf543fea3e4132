//! Request and response data of the HTTP API and of the OpenAI-compatible
//! backends it talks to.
use vstd::prelude::*;

verus! {

// ── Inbound API requests ────────────────────────────────────────────────────

pub struct TranslateRequest {
    pub text: String,
    pub source_lang: Option<String>,
    pub target_lang: String,
    pub context: Option<String>,
    pub model: Option<String>,
    pub endpoint: Option<String>,
    pub api_key: Option<String>,
}

pub struct TranslateParagraphsRequest {
    pub text: String,
    pub source_lang: Option<String>,
    pub target_lang: String,
    pub context: Option<String>,
    pub model: Option<String>,
    pub endpoint: Option<String>,
    pub api_key: Option<String>,
}

pub struct ParagraphPair {
    pub source: String,
    pub translation: String,
}

pub struct TranslateParagraphsResponse {
    pub paragraphs: Vec<ParagraphPair>,
    pub chunks_total: usize,
    pub chunks_completed: usize,
}

pub struct ConfigTestRequest {
    pub endpoint: String,
    pub api_key: String,
}

// ── Outbound API responses ──────────────────────────────────────────────────

pub struct TranslateResponse {
    pub translated_text: String,
    pub chunks_total: usize,
    pub chunks_completed: usize,
}

pub struct TranscribeResponse {
    pub text: String,
}

pub struct LanguagesResponse {
    pub languages: Vec<Language>,
}

pub struct Language {
    pub code: String,
    pub name: String,
}

pub struct ModelsResponse {
    pub translation_models: Vec<ModelInfo>,
    pub transcription_models: Vec<ModelInfo>,
}

pub struct ModelInfo {
    pub id: String,
    pub name: String,
    pub context_size: usize,
}

pub struct OpenAiModelsResponse {
    pub data: Vec<OpenAiModel>,
}

pub struct OpenAiModel {
    pub id: String,
}

pub struct StatusResponse {
    pub server_configured: bool,
    pub gated_configured: bool,
    /// True when the request carries a valid session.
    pub session_active: bool,
    /// Which tier the active session belongs to: "free", "byok" or "gated".
    pub session_tier: Option<String>,
    pub bitvault_configured: bool,
    pub tts_configured: bool,
    /// Language codes that have a TTS voice configured, sorted.
    pub tts_languages: Vec<String>,
    /// Hostname of the TTS endpoint for UI display.
    pub tts_hostname: Option<String>,
    /// Representative TTS model (the first in order among the configured ones).
    pub tts_model: Option<String>,
    /// Input character limit applicable to this session. None = unlimited.
    pub char_limit: Option<usize>,
    /// Short git commit hash baked in at compile time.
    pub git_commit: String,
}

pub struct TtsRequest {
    pub text: String,
    /// Language code used to select a voice and model (e.g. "en", "de").
    pub target_lang: String,
    /// Optional per-request TTS endpoint base URL.
    pub tts_endpoint: Option<String>,
    /// Optional per-request TTS API key.
    pub tts_api_key: Option<String>,
}

pub struct DetectLanguageRequest {
    pub text: String,
    pub endpoint: Option<String>,
    pub api_key: Option<String>,
}

pub struct DetectLanguageResponse {
    pub language: String,
}

pub struct GatedAccessRequest {
    pub access_key: String,
}

pub struct SaveToBitvaultRequest {
    pub text: String,
}

pub struct SaveToBitvaultResponse {
    pub url: String,
}

pub struct ConfigTestResponse {
    pub ok: bool,
    pub message: String,
}

pub struct ErrorResponse {
    pub error: String,
}

pub enum UploadResult {
    Text { filename: String, text: String },
}

pub struct UploadResponse {
    pub results: Vec<UploadResult>,
}

// ── OpenAI-compatible structures ────────────────────────────────────────────

pub struct ChatMessage {
    pub role: String,
    pub content: String,
}

pub struct ChatResponse {
    pub choices: Vec<ChatChoice>,
}

pub struct ChatChoice {
    pub message: ChatMessage,
    pub finish_reason: Option<String>,
}

pub struct StreamResponse {
    pub choices: Vec<StreamChoice>,
}

pub struct StreamChoice {
    pub delta: StreamDelta,
    pub finish_reason: Option<String>,
}

pub struct StreamDelta {
    pub content: Option<String>,
}

pub struct WhisperResponse {
    pub text: String,
}

} // verus!

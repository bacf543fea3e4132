use translation_inference::chunker::is_cjk;
use translation_inference::client::{
    chat_reply_text, classify_chat_probe, classify_tts_probe, ids_or_default, minimal_wav,
    model_bucket, model_infos, probe_step, truncated_by_length, ModelBucket, ModelKind, OpenAiClient,
    ProbeNext, ProbeStage,
};
use translation_inference::config::{parse_char_limit, parse_default_context_size, parse_tts_chunk_size};
use translation_inference::document::{
    document_route, join_batch, nonblank_paragraph_indices, plan_batches, scatter_translations,
    split_batch_reply, DocumentRoute, OutputFormat,
};
use translation_inference::media::static_asset_path;
use translation_inference::models::{ChatChoice, ChatMessage, ChatResponse};
use translation_inference::office::translate_content_xml;
use translation_inference::prompt::{filter_stream_token, TranslationPlan};
use translation_inference::tts::split_sentences;

fn strings(v: &[&str]) -> Vec<String> {
    v.iter().map(|s| s.to_string()).collect()
}

#[test]
fn batches_fit_and_keep_order() {
    let ps = strings(&["aaaa", "bbbb", "cccc"]);
    let batches = plan_batches(&ps, 40);
    assert_eq!(batches, vec![vec![0, 1], vec![2]]);
    assert_eq!(join_batch(&ps, &batches[0]), "aaaa\n\n[---PARAGRAPH_SEPARATOR---]\n\nbbbb");
    // A paragraph longer than the budget gets a batch of its own.
    let long = strings(&["x", &"y".repeat(100), "z"]);
    assert_eq!(plan_batches(&long, 40), vec![vec![0], vec![1], vec![2]]);
}

#[test]
fn batch_reply_is_split_back() {
    let parts = split_batch_reply("\nEins\n\n[---PARAGRAPH_SEPARATOR---]\n\nZwei\n", 3);
    assert_eq!(parts, vec!["Eins", "Zwei", ""]);
}

#[test]
fn blank_paragraphs_keep_their_place() {
    let ps = strings(&["a", "  ", "b"]);
    let idx = nonblank_paragraph_indices(&ps);
    assert_eq!(idx, vec![0, 2]);
    let out = scatter_translations(3, &idx, &strings(&["A", "B"]));
    assert_eq!(out, strings(&["A", "", "B"]));
}

#[test]
fn document_routes() {
    assert_eq!(document_route("ODT", OutputFormat::Odt), Some(DocumentRoute::OdtToOdt));
    assert_eq!(document_route("docx", OutputFormat::Pdf), Some(DocumentRoute::DocxToPdf));
    assert_eq!(document_route("pdf", OutputFormat::Odt), Some(DocumentRoute::PdfToOdt));
    assert_eq!(document_route("txt", OutputFormat::Pdf), None);
    assert_eq!(OutputFormat::Pdf.ext(), "pdf");
    assert_eq!(OutputFormat::Odt.mime(), "application/vnd.oasis.opendocument.text");
    assert_eq!(OutputFormat::default_for("PDF"), OutputFormat::Pdf);
    assert_eq!(OutputFormat::from_str("Odt"), Some(OutputFormat::Odt));
    assert_eq!(OutputFormat::from_str("doc"), None);
}

#[test]
fn plan_translates_chunk_by_chunk() {
    let mut plan = TranslationPlan::new("One. Two.", 64536);
    assert_eq!(plan.total(), 1);
    let (chunk, overlap) = plan.next_request().unwrap();
    assert_eq!(chunk, "One. Two.");
    assert_eq!(overlap, None);
    plan.record("Eins. Zwei.".to_string());
    assert!(plan.next_request().is_none());
    assert_eq!(plan.finish(), ("Eins. Zwei.".to_string(), 1, 1));
}

#[test]
fn plan_hands_overlap_to_next_chunk() {
    let text = "First sentence here. Second sentence here. Third sentence here.";
    let mut plan = TranslationPlan::new(text, 30);
    assert!(plan.total() > 1);
    let (_, overlap) = plan.next_request().unwrap();
    assert_eq!(overlap, None);
    plan.record("A. B. C.".to_string());
    let (_, overlap) = plan.next_request().unwrap();
    assert_eq!(overlap, Some("B. C.".to_string()));
}

#[test]
fn stream_tokens_skip_reasoning() {
    assert_eq!(filter_stream_token(false, "<think>a</think>b"), (false, Some("b".to_string())));
    assert_eq!(filter_stream_token(true, "still thinking"), (true, None));
    assert_eq!(filter_stream_token(false, "hi<think>x"), (true, None));
    assert_eq!(filter_stream_token(true, "done</think>Hallo"), (false, Some("Hallo".to_string())));
    assert_eq!(filter_stream_token(false, "plain"), (false, Some("plain".to_string())));
}

#[test]
fn chat_reply_and_truncation() {
    let resp = ChatResponse {
        choices: vec![ChatChoice {
            message: ChatMessage { role: "assistant".into(), content: "<think>x</think> Hallo ".into() },
            finish_reason: Some("length".into()),
        }],
    };
    assert_eq!(chat_reply_text(&resp), "Hallo");
    assert!(truncated_by_length(&resp));
    let empty = ChatResponse { choices: vec![] };
    assert_eq!(chat_reply_text(&empty), "");
    assert!(!truncated_by_length(&empty));
}

#[test]
fn client_urls_and_probe_decisions() {
    let c = OpenAiClient::with_credentials("http://host:8080//", "k");
    assert_eq!(c.base_url, "http://host:8080");
    assert_eq!(c.models_url(), "http://host:8080/v1/models");
    assert_eq!(c.transcription_url(), "http://host:8080/v1/audio/transcriptions");
    assert_eq!(c.speech_url(), "http://host:8080/v1/audio/speech");
    assert_eq!(classify_chat_probe(Some(200)), Some(true));
    assert_eq!(classify_chat_probe(Some(404)), Some(false));
    assert_eq!(classify_chat_probe(Some(429)), None);
    assert_eq!(classify_chat_probe(Some(503)), None);
    assert_eq!(classify_chat_probe(None), None);
    assert_eq!(classify_tts_probe(Some(200), Some("audio/mpeg")), Some(true));
    assert_eq!(classify_tts_probe(Some(200), Some("text/html")), Some(false));
    assert_eq!(probe_step(ProbeStage::Chat, Some(false)), ProbeNext::Probe(ProbeStage::Stt));
    assert_eq!(probe_step(ProbeStage::Stt, Some(true)), ProbeNext::Done(Some(ModelKind::Transcription)));
    assert_eq!(probe_step(ProbeStage::Tts, Some(false)), ProbeNext::Done(Some(ModelKind::Unknown)));
    assert_eq!(probe_step(ProbeStage::Stt, None), ProbeNext::Done(None));
    assert_eq!(model_bucket(None), ModelBucket::Translation);
    assert_eq!(model_bucket(Some(ModelKind::Tts)), ModelBucket::Hidden);
}

#[test]
fn model_lists() {
    let infos = model_infos(&strings(&["m-32768", "plain"]), 4096);
    assert_eq!(infos[0].context_size, 32768);
    assert_eq!(infos[1].context_size, 4096);
    assert_eq!(infos[1].name, "plain");
    assert_eq!(ids_or_default(vec![], "default"), strings(&["default"]));
    assert_eq!(ids_or_default(strings(&["a"]), "default"), strings(&["a"]));
}

#[test]
fn probe_audio_is_a_wav_header_and_silence() {
    let wav = minimal_wav();
    assert_eq!(wav.len(), 44 + 1600);
    assert_eq!(&wav[0..4], b"RIFF");
    assert_eq!(&wav[8..16], b"WAVEfmt ");
    assert!(wav[44..].iter().all(|&b| b == 0));
}

#[test]
fn settings_parsing() {
    assert_eq!(parse_tts_chunk_size(&Some("0".into())), None);
    assert_eq!(parse_tts_chunk_size(&Some("4000".into())), Some(4000));
    assert_eq!(parse_tts_chunk_size(&Some("x".into())), None);
    assert_eq!(parse_tts_chunk_size(&None), None);
    assert_eq!(parse_default_context_size(&Some("512".into())), 1024);
    assert_eq!(parse_default_context_size(&Some("8192".into())), 8192);
    assert_eq!(parse_default_context_size(&None), 4096);
    assert_eq!(parse_char_limit(&Some(" 0 ".into()), 16000), (None, false));
    assert_eq!(parse_char_limit(&Some("abc".into()), 16000), (Some(16000), true));
    assert_eq!(parse_char_limit(&Some("200".into()), 16000), (Some(200), false));
    assert_eq!(parse_char_limit(&None, 16000), (Some(16000), false));
}

#[test]
fn untranslated_content_is_unchanged() {
    let xml = "<a><text:p x=\"1\">One</text:p> <text:h>Two</text:h><text:p/></a>";
    assert_eq!(translate_content_xml(xml, &strings(&["", "", ""])), xml);
}

#[test]
fn asset_paths() {
    assert_eq!(static_asset_path("/static/app.js"), "app.js");
    assert_eq!(static_asset_path("/"), "index.html");
    assert_eq!(static_asset_path("//index.html"), "index.html");
    assert_eq!(static_asset_path("/static/"), "index.html");
    assert_eq!(static_asset_path("/css/site.css"), "css/site.css");
}

#[test]
fn sentences_rejoin_to_text() {
    let text = "A. B!  C? D\nE";
    let parts = split_sentences(text);
    assert_eq!(parts, strings(&["A. ", "B!  ", "C? ", "D\n", "E"]));
    assert_eq!(parts.concat(), text);
}

#[test]
fn cjk_detection() {
    assert!(is_cjk('中'));
    assert!(is_cjk('ア'));
    assert!(is_cjk('한'));
    assert!(!is_cjk('a'));
}

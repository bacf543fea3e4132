use translation_inference::access::SessionTier;
use translation_inference::client::{cache_write, categorize, models_source, ModelKind, ModelsSource};
use translation_inference::bitvault::{bitvault_authorization, check_proxy_url, paste_endpoint, ProxyQuery};
use translation_inference::document::OutputFormat;
use translation_inference::language::{detection_snippet, get_languages, normalise_language_code};
use translation_inference::media::{
    check_document_ext, document_file, file_extension, is_audio_video, is_media_file, is_video_file,
    join_transcripts, needs_segmentation, output_format_for, translated_filename, upload_too_large,
};
use translation_inference::paragraphs::{join_for_translation, paragraph_pairs, split_source_paragraphs};
use translation_inference::prompt::{build_user_content, strip_think_tags};

#[test]
fn video_files_by_extension() {
    assert!(is_video_file("clip.MP4"));
    assert!(is_video_file("/tmp/a.b/movie.webm"));
    assert!(!is_video_file("song.mp3"));
    assert!(!is_video_file("mp4"));
    assert_eq!(file_extension("Talk.WAV"), "wav");
    assert_eq!(file_extension("noext"), "");
}

#[test]
fn media_uploads() {
    assert!(is_audio_video("m4a"));
    assert!(!is_audio_video("txt"));
    assert!(is_media_file("lecture.M2TS"));
    assert!(upload_too_large(100 * 1024 * 1024 + 1));
    assert!(!upload_too_large(100 * 1024 * 1024));
    assert!(needs_segmentation(5 * 1024 * 1024 + 1));
    assert!(!needs_segmentation(5 * 1024 * 1024));
    assert_eq!(join_transcripts(&vec!["a".into(), "b c".into()]), "a b c");
}

#[test]
fn document_requests() {
    assert!(check_document_ext("docx").is_ok());
    let e = check_document_ext("txt").err().unwrap();
    assert_eq!((e.status, e.error.as_str()), (400, "Unsupported file type: .txt"));
    assert_eq!(output_format_for(Some("PDF"), "odt"), OutputFormat::Pdf);
    assert_eq!(output_format_for(Some("bogus"), "pdf"), OutputFormat::Pdf);
    assert_eq!(output_format_for(None, "docx"), OutputFormat::Odt);
    assert_eq!(translated_filename("dir/report.final.odt", "document", "pdf"), "report.final_translated.pdf");
    let f = document_file("report.docx", OutputFormat::Odt, b"hi");
    assert_eq!(f.filename, "report_translated.odt");
    assert_eq!(f.data, "aGk=");
    assert_eq!(f.mime, "application/vnd.oasis.opendocument.text");
}

#[test]
fn languages_list() {
    let r = get_languages();
    assert_eq!(r.languages.len(), 29);
    assert_eq!(r.languages[0].code, "auto");
    assert_eq!(r.languages[0].name, "Auto-detect");
    assert_eq!(r.languages[11].code, "zh-TW");
    assert_eq!(r.languages[28].name, "Hindi");
}

#[test]
fn detected_codes_are_normalised() {
    assert_eq!(normalise_language_code(" en.\n"), Some("en".to_string()));
    assert_eq!(normalise_language_code("ZH-tw"), Some("zh-TW".to_string()));
    assert_eq!(normalise_language_code("'DE'"), Some("de".to_string()));
    assert_eq!(normalise_language_code("english please"), None);
    assert_eq!(normalise_language_code("pt-br"), None);
    assert_eq!(normalise_language_code(""), None);
}

#[test]
fn detection_snippet_limits() {
    assert_eq!(detection_snippet("   \n"), None);
    let long: String = "x".repeat(600);
    assert_eq!(detection_snippet(&long).map(|s| s.chars().count()), Some(500));
}

#[test]
fn bitvault_rules() {
    assert_eq!(paste_endpoint(Some("https://bv.example")).ok(), Some("https://bv.example/api/v1/paste".to_string()));
    let e = paste_endpoint(None).err().unwrap();
    assert_eq!((e.status, e.error.as_str()), (404, "Bitvault not configured"));
    assert_eq!(bitvault_authorization(Some("k")), Some("Bearer k".to_string()));
    assert_eq!(bitvault_authorization(None), None);
    let ok = ProxyQuery { url: "https://bv.example/raw/1".into() };
    assert!(check_proxy_url(Some("https://bv.example"), &ok).is_ok());
    let bad = ProxyQuery { url: "https://evil.example/".into() };
    let e = check_proxy_url(Some("https://bv.example"), &bad).err().unwrap();
    assert_eq!(e.status, 403);
}

#[test]
fn paragraph_translation_alignment() {
    let ps = split_source_paragraphs("One\n\n  \n\nTwo");
    assert_eq!(ps, vec!["One", "  ", "Two"]);
    assert_eq!(join_for_translation(&ps), "One\n§§§\nTwo");
    let pairs = paragraph_pairs(&ps, " Eins \n§§§\n Zwei ");
    assert_eq!(pairs.len(), 3);
    assert_eq!(pairs[0].translation, "Eins");
    assert_eq!(pairs[1].translation, "");
    assert_eq!(pairs[2].source, "Two");
    assert_eq!(pairs[2].translation, "Zwei");
    let short = paragraph_pairs(&ps, "Eins");
    assert_eq!(short[2].translation, "");
}

#[test]
fn think_blocks_are_removed() {
    assert_eq!(strip_think_tags("<think>hmm</think>  Hallo "), "Hallo");
    let u = build_user_content(None, "hi");
    assert!(u.contains("hi"));
}

#[test]
fn model_lists_come_from_the_tier() {
    assert_eq!(models_source(Some(SessionTier::Gated), true, true), ModelsSource::GatedCached);
    assert_eq!(models_source(Some(SessionTier::Byok), false, false), ModelsSource::ByokUncached);
    assert_eq!(models_source(Some(SessionTier::Free), true, true), ModelsSource::ServerCached);
    assert_eq!(models_source(None, true, false), ModelsSource::Configured);
    assert_eq!(models_source(None, false, true), ModelsSource::Configured);
}

#[test]
fn probes_are_cached_only_when_conclusive() {
    assert!(cache_write(None, Some(ModelKind::Tts), true));
    assert!(!cache_write(None, None, true));
    assert!(!cache_write(None, Some(ModelKind::Tts), false));
    assert!(!cache_write(Some(ModelKind::Translation), Some(ModelKind::Tts), true));
}

#[test]
fn models_are_sorted_by_kind_in_order() {
    let ids = vec!["a".to_string(), "b".to_string(), "c".to_string(), "d".to_string(), "e".to_string()];
    let kinds = vec![
        Some(ModelKind::Transcription),
        None,
        Some(ModelKind::Tts),
        Some(ModelKind::Translation),
        Some(ModelKind::Unknown),
    ];
    let (t, s) = categorize(ids, kinds);
    assert_eq!(t, vec!["b", "d"]);
    assert_eq!(s, vec!["a"]);
}

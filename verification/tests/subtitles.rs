use translation_inference::captions::{
    apply_cue_translation, check_subtitle_limit, cue_text, parse_subtitle, progress_data,
    render_subtitle, subtitle_chars, subtitle_format, subtitle_text, SubtitleFormat,
};
use translation_inference::subtitle::{parse_srt, parse_vtt, render_srt, render_vtt, SubtitleCue};

const SRT: &str = "1\n00:00:01,000 --> 00:00:02,000\nHello\nworld\n\n2\n00:00:03,000 --> 00:00:04,000\nBye\n";

#[test]
fn srt_parse_and_render_roundtrip() {
    let cues = parse_srt(SRT);
    assert_eq!(cues.len(), 2);
    assert_eq!(cues[0].header, "1\n00:00:01,000 --> 00:00:02,000");
    assert_eq!(cues[0].lines, vec!["Hello".to_string(), "world".to_string()]);
    assert_eq!(cues[1].lines, vec!["Bye".to_string()]);
    let out = render_srt(&cues);
    assert_eq!(
        out,
        "1\n00:00:01,000 --> 00:00:02,000\nHello\nworld\n\n2\n00:00:03,000 --> 00:00:04,000\nBye"
    );
}

#[test]
fn srt_crlf_is_normalised() {
    let cues = parse_srt("1\r\n00:00:01,000 --> 00:00:02,000\r\nHi\r\n");
    assert_eq!(cues.len(), 1);
    assert_eq!(cues[0].lines, vec!["Hi".to_string()]);
}

#[test]
fn vtt_skips_header_and_notes() {
    let input = "WEBVTT\n\nNOTE a comment\n\nid1\n00:01.000 --> 00:02.000\nLine one\n\n00:03.000 --> 00:04.000\nLine two\n";
    let cues = parse_vtt(input);
    assert_eq!(cues.len(), 2);
    assert_eq!(cues[0].header, "id1\n00:01.000 --> 00:02.000");
    assert_eq!(cues[1].header, "00:03.000 --> 00:04.000");
    let out = render_vtt(&cues);
    assert_eq!(
        out,
        "WEBVTT\n\nid1\n00:01.000 --> 00:02.000\nLine one\n\n00:03.000 --> 00:04.000\nLine two"
    );
}

#[test]
fn subtitle_format_from_extension() {
    assert_eq!(subtitle_format("movie.SRT").ok(), Some(SubtitleFormat::Srt));
    assert_eq!(subtitle_format("clip.vtt").ok(), Some(SubtitleFormat::Vtt));
    let e = subtitle_format("notes.txt").err().unwrap();
    assert_eq!(e.status, 422);
    assert_eq!(e.error, "Unsupported file type: .txt. Only .srt and .vtt are supported.");
}

#[test]
fn subtitle_text_rejects_invalid_utf8() {
    assert_eq!(subtitle_text(b"ok".to_vec()).ok(), Some("ok".to_string()));
    let e = subtitle_text(vec![0xff, 0xfe]).err().unwrap();
    assert_eq!(e.status, 422);
    assert_eq!(e.error, "File is not valid UTF-8");
}

#[test]
fn subtitle_without_cues_is_refused() {
    let e = parse_subtitle(SubtitleFormat::Srt, "just text").err().unwrap();
    assert_eq!(e.status, 422);
    assert_eq!(e.error, "No subtitle cues found in file");
    assert_eq!(parse_subtitle(SubtitleFormat::Srt, SRT).ok().map(|c| c.len()), Some(2));
}

#[test]
fn subtitle_limit_counts_line_characters() {
    let cues = parse_srt(SRT);
    assert_eq!(subtitle_chars(&cues), 13);
    assert!(check_subtitle_limit(&cues, None).is_ok());
    assert!(check_subtitle_limit(&cues, Some(13)).is_ok());
    let e = check_subtitle_limit(&cues, Some(12)).err().unwrap();
    assert_eq!(e.status, 413);
    assert_eq!(
        e.error,
        "Subtitle content is 13 characters, which exceeds the 12-character limit for your access tier."
    );
}

#[test]
fn cue_translation_replaces_lines_and_keeps_header() {
    let mut cue = SubtitleCue { header: "1\n00:00:01,000 --> 00:00:02,000".to_string(), lines: vec!["a".into(), "b".into()] };
    assert_eq!(cue_text(&cue), "a\nb");
    apply_cue_translation(&mut cue, "  Hallo\r\nWelt \n");
    assert_eq!(cue.lines, vec!["Hallo".to_string(), "Welt".to_string()]);
    assert_eq!(cue.header, "1\n00:00:01,000 --> 00:00:02,000");
    apply_cue_translation(&mut cue, "   ");
    assert_eq!(cue.lines, vec!["Hallo".to_string(), "Welt".to_string()]);
}

#[test]
fn progress_and_render_by_format() {
    assert_eq!(progress_data(3, 10), "{\"done\":3,\"total\":10}");
    let cues = parse_srt(SRT);
    assert_eq!(render_subtitle(SubtitleFormat::Srt, &cues), render_srt(&cues));
    assert_eq!(render_subtitle(SubtitleFormat::Vtt, &cues), render_vtt(&cues));
}

#[test]
fn srt_read_back_renumbers_and_keeps_text() {
    let input = "7\n  00:00:01,000 --> 00:00:02,000  \n  Hello  \n\n\n42\n00:00:03,000 --> 00:00:04,000\nBye\nnow\n";
    let cues = parse_srt(input);
    let back = parse_srt(&render_srt(&cues));
    assert_eq!(back.len(), cues.len());
    assert_eq!(back[0].header, "1\n00:00:01,000 --> 00:00:02,000");
    assert_eq!(back[1].header, "2\n00:00:03,000 --> 00:00:04,000");
    for i in 0..cues.len() {
        assert_eq!(back[i].lines, cues[i].lines);
    }
}

#[test]
fn vtt_read_back_keeps_cues() {
    let input = "WEBVTT\n\nNOTE skip\n\nintro\n00:01.000 --> 00:02.000 align:start\n  One  \n\n  \nTwo\n\n00:03.000 --> 00:04.000\nThree\n";
    let cues = parse_vtt(input);
    let back = parse_vtt(&render_vtt(&cues));
    assert_eq!(back.len(), cues.len());
    for i in 0..cues.len() {
        assert_eq!(back[i].header, cues[i].header);
        assert_eq!(back[i].lines, cues[i].lines);
    }
}

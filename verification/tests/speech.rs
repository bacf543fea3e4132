use translation_inference::tts::{split_into_chunks, split_sentences, TTS_CHUNK_SIZE};

#[test]
fn short_text_is_single_chunk() {
    let chunks = split_into_chunks("Hello world.");
    assert_eq!(chunks.len(), 1);
}

#[test]
fn long_text_splits_at_sentence_boundary() {
    let sentence = "This is a sentence. ";
    // Repeat until we exceed TTS_CHUNK_SIZE
    let text = sentence.repeat((TTS_CHUNK_SIZE / sentence.len()) + 5);
    let chunks = split_into_chunks(&text);
    assert!(chunks.len() > 1);
    for chunk in &chunks {
        assert!(chunk.len() <= TTS_CHUNK_SIZE);
    }
}

#[test]
fn tts_chunks_cover_the_text() {
    let sentence = "Another sentence follows here. ";
    let text = sentence.repeat(300);
    let chunks = split_into_chunks(&text);
    let joined: String = chunks.join(" ");
    assert_eq!(joined.split_whitespace().collect::<Vec<_>>(), text.split_whitespace().collect::<Vec<_>>());
}

#[test]
fn cut_after_leading_space_keeps_chunks_within_limit() {
    // One sentence: a space, 3999 letters, then multi-byte characters. The
    // cut at the space leaves too much for the limit, so the letters are
    // cut off as well.
    let text = format!(" {}\u{e9}\u{e9}", "a".repeat(3999));
    let chunks = split_into_chunks(&text);
    assert_eq!(chunks, vec!["a".repeat(3999), "\u{e9}\u{e9}".to_string()]);
    for chunk in &chunks {
        assert!(chunk.len() <= TTS_CHUNK_SIZE);
    }
    let text = format!(" {}\u{1F600}", "a".repeat(3999));
    let chunks = split_into_chunks(&text);
    assert_eq!(chunks, vec!["a".repeat(3999), "\u{1F600}".to_string()]);
}

#[test]
fn sentences_end_in_one_mark_and_spaces() {
    let spans = split_sentences("Hi.  Who? Me!\nok. tail");
    assert_eq!(spans, vec!["Hi.  ", "Who? ", "Me!", "\n", "ok. ", "tail"]);
    assert_eq!(spans.concat(), "Hi.  Who? Me!\nok. tail");
}

use translation_inference::chunker::{context_size_from_model_id, last_sentences, split_into_chunks};

#[test]
fn test_context_size_from_model_id() {
    assert_eq!(context_size_from_model_id("gpgpu/qwen3:14b-q5_k_m-32768", 4096), 32768);
    assert_eq!(context_size_from_model_id("gpgpu/qwen3-5:9b-q5_k_m-40960", 4096), 40960);
    assert_eq!(context_size_from_model_id("deepseek-chat", 4096), 4096);
}

#[test]
fn test_context_size_from_model_id_custom_default() {
    assert_eq!(context_size_from_model_id("deepseek-chat", 8192), 8192);
    // A model with an explicit size still wins over the default.
    assert_eq!(context_size_from_model_id("some-model-32768", 8192), 32768);
}

#[test]
fn test_no_chunking_needed() {
    let text = "Hello world.";
    // The input budget of a 32768-token context for Latin text:
    // (32768 - 500) * 0.5 tokens at 4 characters per token.
    let max = 64536;
    let chunks = split_into_chunks(text, max);
    assert_eq!(chunks.len(), 1);
    assert_eq!(chunks[0].text, text);
}

#[test]
fn test_chunking_splits_into_multiple() {
    let long_text =
        "First sentence. Second sentence. Third sentence. Fourth sentence. Fifth sentence.";
    let chunks = split_into_chunks(long_text, 40);
    assert!(chunks.len() > 1);
}

#[test]
fn test_lossless_chunking() {
    let text = "Line 1.\n\nLine 2. Sentence part 1. Part 2.\nLine 3 with  multiple   spaces.";
    let chunks = split_into_chunks(text, 10);
    let reconstructed: String = chunks.into_iter().map(|c| c.text).collect();
    assert_eq!(reconstructed, text);
}

#[test]
fn test_last_sentences_ascii() {
    let text = "First sentence. Second sentence. Third sentence.";
    let result = last_sentences(text, 2);
    assert_eq!(result, "Second sentence. Third sentence.");
}

#[test]
fn test_last_sentences_fallback() {
    // No sentence-ending punctuation followed by space
    let text = "no punctuation here";
    let result = last_sentences(text, 2);
    assert!(!result.is_empty());
}

#[test]
fn test_last_sentences_cjk_exclamation() {
    let text = "第一句话！第二句话！第三句话！";
    let result = last_sentences(text, 2);
    assert!(result.contains("第二句话！"));
    assert!(result.contains("第三句话！"));
    assert!(!result.contains("第一句话！"));
}

#[test]
fn test_last_sentences_cjk_question() {
    let text = "你好吗？我很好。真的吗？";
    let result = last_sentences(text, 2);
    assert!(result.contains("真的吗？"));
    assert!(result.contains("我很好。"));
    assert!(!result.contains("你好吗？"));
}

#[test]
fn chunks_respect_budget_and_reassemble() {
    let text = "Alpha beta gamma. Delta epsilon zeta. Eta theta iota. Kappa lambda mu.";
    let chunks = split_into_chunks(text, 20);
    for c in &chunks {
        assert!(c.text.chars().count() <= 20, "chunk too long: {:?}", c.text);
    }
    let joined: String = chunks.iter().map(|c| c.text.as_str()).collect();
    assert_eq!(joined, text);
}

#[test]
fn context_size_ignores_small_numbers() {
    // Numbers below 1024 are not context sizes; the last qualifying one wins.
    assert_eq!(context_size_from_model_id("model-7b-8", 2048), 2048);
    assert_eq!(context_size_from_model_id("m-4096-x-16384", 2048), 16384);
}

#[test]
fn last_sentences_of_short_text_is_whole_text() {
    assert_eq!(last_sentences("One. Two.", 3), "One. Two.");
}

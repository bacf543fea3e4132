use translation_inference::archive::{
    build_odt_from_paragraphs, build_odt_from_text, extract_docx_paragraphs, extract_odt_paragraphs,
    odt_content_of, odt_with_translations, repack_zip, DocError,
};
use translation_inference::office::{
    docx_paragraph_texts, odt_content_xml, odt_paragraph_texts, replace_para_content,
    split_text_paragraphs, translate_content_xml,
};
use translation_inference::xml::{xml_escape, xml_unescape};

fn chars(s: &str) -> Vec<char> {
    s.chars().collect()
}

fn text(v: Vec<char>) -> String {
    v.into_iter().collect()
}

#[test]
fn escape_and_unescape() {
    assert_eq!(xml_escape("a < b & \"c\" > d"), "a &lt; b &amp; &quot;c&quot; &gt; d");
    assert_eq!(xml_unescape("a &lt; b &amp; &quot;c&quot; &gt; d &apos;e&apos;"), "a < b & \"c\" > d 'e'");
    // Entities are read one kind after the other.
    assert_eq!(xml_unescape("&amp;lt;"), "<");
}

#[test]
fn escape_roundtrip_without_entities() {
    let s = "x <y> \"z\" & w &amp; 'v'";
    assert_eq!(xml_unescape(&xml_escape(s)), s);
}

#[test]
fn escape_roundtrip_fails_on_text_holding_an_entity() {
    assert_eq!(xml_unescape(&xml_escape("&lt;")), "<");
    assert_eq!(xml_unescape(&xml_escape("&apos;")), "'");
}

#[test]
fn built_odt_with_untrimmed_paragraph_reads_back_trimmed() {
    let paras = vec![" padded ".to_string()];
    let bytes = build_odt_from_paragraphs(&paras).ok().unwrap();
    assert_eq!(extract_odt_paragraphs(&bytes).ok().unwrap(), vec!["padded"]);
}

#[test]
fn odt_paragraphs_are_found_in_order() {
    let xml = "<office:text><text:h text:outline-level=\"1\">Title</text:h>\
               <text:p text:style-name=\"P1\">Hello <text:span text:style-name=\"T1\">big</text:span> world</text:p>\
               <text:p/><text:p>A &amp; B</text:p></office:text>";
    let texts = odt_paragraph_texts(xml);
    assert_eq!(texts, vec!["Title", "Hello big world", "", "A & B"]);
}

#[test]
fn odt_paragraph_prefix_is_not_a_paragraph() {
    // `<text:page-break>` and `<text:pX>` are not paragraph tags.
    let xml = "<text:page-break/><text:pX>no</text:pX><text:p>yes</text:p>";
    assert_eq!(odt_paragraph_texts(xml), vec!["yes"]);
}

#[test]
fn docx_runs_are_joined_and_blank_paragraphs_dropped() {
    let xml = "<w:body><w:p><w:pPr/><w:r><w:t>Hel</w:t></w:r><w:r><w:t xml:space=\"preserve\">lo &lt;3</w:t></w:r></w:p>\
               <w:p><w:r><w:t> </w:t></w:r></w:p><w:p/><w:p><w:r><w:tab/><w:t>Two</w:t></w:r></w:p></w:body>";
    assert_eq!(docx_paragraph_texts(xml), vec!["Hello <3", "Two"]);
}

#[test]
fn replacing_paragraph_text_keeps_first_span_style() {
    let p = "<text:p text:style-name=\"P1\"><text:span text:style-name=\"T1\">Hello</text:span> <text:span text:style-name=\"T2\">world</text:span></text:p>";
    let out = text(replace_para_content(&chars(p), "Hallo & Welt"));
    assert_eq!(
        out,
        "<text:p text:style-name=\"P1\"><text:span text:style-name=\"T1\">Hallo &amp; Welt</text:span> <text:span text:style-name=\"T2\"></text:span></text:p>"
    );
}

#[test]
fn replacing_paragraph_text_without_spans() {
    let p = "<text:p text:style-name=\"P1\">Hello</text:p>";
    assert_eq!(text(replace_para_content(&chars(p), "Hallo")), "<text:p text:style-name=\"P1\">Hallo</text:p>");
    let h = "<text:h text:outline-level=\"2\">Title</text:h>";
    assert_eq!(text(replace_para_content(&chars(h), "Titel")), "<text:h text:outline-level=\"2\">Titel</text:h>");
    let e = "<text:p/>";
    assert_eq!(text(replace_para_content(&chars(e), "x")), "<text:p/>");
}

#[test]
fn translated_content_replaces_only_translated_paragraphs() {
    let xml = "<r><text:p>One</text:p><text:p>Two</text:p></r>";
    let out = translate_content_xml(xml, &vec!["Eins".to_string(), String::new()]);
    assert_eq!(out, "<r><text:p>Eins</text:p><text:p>Two</text:p></r>");
}

#[test]
fn text_paragraphs_split_on_blank_lines() {
    assert_eq!(split_text_paragraphs("a\r\nb\n\nc"), vec!["a\nb", "c"]);
    assert_eq!(split_text_paragraphs("a\n\n\nb"), vec!["a", "", "b"]);
    assert_eq!(split_text_paragraphs("a\n\n\n\nb"), vec!["a", "", "b"]);
    assert_eq!(split_text_paragraphs("a\nb\rc"), vec!["a", "b", "c"]);
}

#[test]
fn built_content_lists_paragraphs() {
    let xml = odt_content_xml(&["x < y".to_string(), "z".to_string()]);
    assert!(xml.starts_with("<?xml version=\"1.0\" encoding=\"UTF-8\"?>\n<office:document-content "));
    assert!(xml.contains("<office:body><office:text><text:p text:style-name=\"Standard\">x &lt; y</text:p><text:p text:style-name=\"Standard\">z</text:p></office:text></office:body></office:document-content>"));
    assert_eq!(odt_paragraph_texts(&xml), vec!["x < y", "z"]);
}

#[test]
fn built_odt_reads_back() {
    let paras = vec!["First paragraph".to_string(), String::new(), "Third & last".to_string()];
    let bytes = build_odt_from_paragraphs(&paras).ok().unwrap();
    assert_eq!(&bytes[0..2], b"PK");
    let back = extract_odt_paragraphs(&bytes).ok().unwrap();
    assert_eq!(back, paras);
}

#[test]
fn odt_from_text_reads_back() {
    let bytes = build_odt_from_text("Hello\n\nWorld").ok().unwrap();
    assert_eq!(extract_odt_paragraphs(&bytes).ok().unwrap(), vec!["Hello", "World"]);
}

#[test]
fn not_a_zip_is_an_open_error() {
    match extract_odt_paragraphs(b"plain text") {
        Err(DocError::Open(_)) => {}
        _ => panic!("expected an open error"),
    }
}

#[test]
fn docx_without_document_xml_is_an_entry_error() {
    let bytes = build_odt_from_paragraphs(&["x".to_string()]).ok().unwrap();
    match extract_docx_paragraphs(&bytes) {
        Err(DocError::Entry(name, _)) => assert_eq!(name, "word/document.xml"),
        _ => panic!("expected a missing entry"),
    }
}

#[test]
fn repack_replaces_one_entry() {
    let bytes = build_odt_from_paragraphs(&["Old".to_string()]).ok().unwrap();
    let xml = odt_content_of(&bytes).ok().unwrap();
    let new_xml = xml.replace("Old", "New");
    let repacked = repack_zip(&bytes, "content.xml", new_xml.as_bytes()).ok().unwrap();
    assert_eq!(extract_odt_paragraphs(&repacked).ok().unwrap(), vec!["New"]);
}

#[test]
fn odt_with_translations_rewrites_content() {
    let bytes = build_odt_from_paragraphs(&["One".to_string(), "Two".to_string()]).ok().unwrap();
    let xml = odt_content_of(&bytes).ok().unwrap();
    let out = odt_with_translations(&bytes, &xml, &vec!["Eins".to_string(), "Zwei".to_string()]).ok().unwrap();
    assert_eq!(extract_odt_paragraphs(&out).ok().unwrap(), vec!["Eins", "Zwei"]);
    let same = odt_with_translations(&bytes, &xml, &vec![String::new(), String::new()]).ok().unwrap();
    assert_eq!(extract_odt_paragraphs(&same).ok().unwrap(), vec!["One", "Two"]);
}

#[test]
fn entry_that_is_not_utf8_is_refused() {
    let bytes = build_odt_from_paragraphs(&["x".to_string()]).ok().unwrap();
    let repacked = repack_zip(&bytes, "content.xml", &[0xff, 0xfe]).ok().unwrap();
    match odt_content_of(&repacked) {
        Err(DocError::NotUtf8(name)) => assert_eq!(name, "content.xml"),
        _ => panic!("invalid UTF-8 accepted"),
    }
}

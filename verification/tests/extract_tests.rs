use tfidf_index::extract::{extract_text, read_xml_file, to_chars, ExtractionError, XmlPiece};

#[test]
fn character_data_is_joined_with_spaces() {
    let text = read_xml_file(b"<html><body><p>Hello</p><p>World</p></body></html>");
    assert_eq!(text, Ok("Hello World ".to_string()));
}

#[test]
fn entities_are_resolved() {
    let text = read_xml_file(b"<p>a &amp; b &lt; c</p>");
    assert_eq!(text, Ok("a & b < c ".to_string()));
}

#[test]
fn markup_alone_has_no_text() {
    assert_eq!(read_xml_file(b"<a><b/><!-- note --></a>"), Ok(String::new()));
}

#[test]
fn whitespace_between_tags_is_no_text() {
    assert_eq!(read_xml_file(b"<a>\n  <b>x</b>\n</a>"), Ok("x ".to_string()));
}

#[test]
fn malformed_document_has_no_text() {
    assert_eq!(read_xml_file(b"<a><b></a>"), Err(ExtractionError::Malformed));
    assert_eq!(read_xml_file(b"<a>text"), Err(ExtractionError::Malformed));
    assert_eq!(read_xml_file(b""), Err(ExtractionError::Malformed));
    assert_eq!(read_xml_file(b"plain words"), Err(ExtractionError::Malformed));
}

#[test]
fn extract_text_joins_the_text_pieces() {
    let pieces = vec![
        XmlPiece::Markup,
        XmlPiece::Characters("one".to_string()),
        XmlPiece::Markup,
        XmlPiece::Characters("two three".to_string()),
        XmlPiece::Markup,
    ];
    assert_eq!(extract_text(&pieces), Ok("one two three ".to_string()));
}

#[test]
fn extract_text_of_nothing_is_empty() {
    assert_eq!(extract_text(&Vec::new()), Ok(String::new()));
}

#[test]
fn extract_text_fails_on_a_malformed_piece() {
    let pieces = vec![XmlPiece::Characters("one".to_string()), XmlPiece::Malformed];
    assert_eq!(extract_text(&pieces), Err(ExtractionError::Malformed));
    let pieces = vec![XmlPiece::Malformed, XmlPiece::Characters("one".to_string())];
    assert_eq!(extract_text(&pieces), Err(ExtractionError::Malformed));
}

#[test]
fn to_chars_lists_the_characters() {
    assert_eq!(to_chars("a\u{e9}\u{1F600}"), vec!['a', '\u{e9}', '\u{1F600}']);
    assert_eq!(to_chars(""), Vec::<char>::new());
}

#[test]
fn only_character_data_is_text() {
    let pieces = vec![
        XmlPiece::Whitespace("\n  ".to_string()),
        XmlPiece::Comment("note".to_string()),
        XmlPiece::Characters("kept".to_string()),
        XmlPiece::CData("raw".to_string()),
    ];
    assert_eq!(extract_text(&pieces), Ok("kept ".to_string()));
    assert_eq!(
        read_xml_file(b"<a> <!-- note --><b>kept</b><![CDATA[raw]]></a>"),
        Ok("kept ".to_string())
    );
}

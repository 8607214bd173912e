use retro_game_search::xml_spans::{find_bytes, xml_spans, XmlPart, XmlSpan};

fn sp(start: usize, end: usize, part: XmlPart) -> XmlSpan {
    XmlSpan { start, end, part }
}

#[test]
fn spans_of_a_self_closing_tag_with_attribute() {
    assert_eq!(
        xml_spans(br#"<a x="1"/>"#),
        vec![
            sp(0, 1, XmlPart::Tag),
            sp(1, 2, XmlPart::Tag),
            sp(2, 3, XmlPart::Plain),
            sp(3, 4, XmlPart::AttrName),
            sp(4, 5, XmlPart::Plain),
            sp(5, 8, XmlPart::Value),
            sp(8, 10, XmlPart::Tag),
        ]
    );
}

#[test]
fn spans_of_comment_text_and_closing_tag() {
    assert_eq!(
        xml_spans(b"<!-- c -->hi</a>"),
        vec![
            sp(0, 10, XmlPart::Comment),
            sp(10, 12, XmlPart::Plain),
            sp(12, 14, XmlPart::Tag),
            sp(14, 15, XmlPart::Tag),
            sp(15, 16, XmlPart::Tag),
        ]
    );
}

#[test]
fn unterminated_comment_runs_to_the_end() {
    assert_eq!(xml_spans(b"<!-- x"), vec![sp(0, 6, XmlPart::Comment)]);
}

#[test]
fn stray_byte_in_tag_is_plain() {
    assert_eq!(
        xml_spans(b"<a !>"),
        vec![
            sp(0, 1, XmlPart::Tag),
            sp(1, 2, XmlPart::Tag),
            sp(2, 3, XmlPart::Plain),
            sp(3, 4, XmlPart::Plain),
            sp(4, 5, XmlPart::Tag)
        ]
    );
}

#[test]
fn unterminated_value_and_single_quotes() {
    assert_eq!(
        xml_spans(b"<b k='v' m=\"w"),
        vec![
            sp(0, 1, XmlPart::Tag),
            sp(1, 2, XmlPart::Tag),
            sp(2, 3, XmlPart::Plain),
            sp(3, 4, XmlPart::AttrName),
            sp(4, 5, XmlPart::Plain),
            sp(5, 8, XmlPart::Value),
            sp(8, 9, XmlPart::Plain),
            sp(9, 10, XmlPart::AttrName),
            sp(10, 11, XmlPart::Plain),
            sp(11, 13, XmlPart::Value),
        ]
    );
    assert!(xml_spans(b"").is_empty());
}

#[test]
fn find_bytes_from_a_position() {
    assert_eq!(find_bytes(b"abcabc", 1, b"abc"), Some(3));
    assert_eq!(find_bytes(b"abcabc", 0, b"abc"), Some(0));
    assert_eq!(find_bytes(b"abcabc", 4, b"abc"), None);
    assert_eq!(find_bytes(b"abc", 3, b""), Some(3));
    assert_eq!(find_bytes(b"abc", 4, b""), None);
}

#[test]
fn spans_cover_the_whole_text() {
    let text = b"<game name = \"X\"  region='EU' >\n\t<!-- note --><archive/>\n</game >";
    let spans = xml_spans(text);
    let mut at = 0;
    for s in &spans {
        assert_eq!(s.start, at);
        assert!(s.start < s.end);
        at = s.end;
    }
    assert_eq!(at, text.len());
    assert!(spans.contains(&sp(6, 10, XmlPart::AttrName)));
    assert!(spans.contains(&sp(10, 13, XmlPart::Plain)));
    assert!(spans.contains(&sp(13, 16, XmlPart::Value)));
}

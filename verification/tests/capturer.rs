use lol_html::html::Namespace;
use lol_html::rewritable_units::capture_flags::TokenCaptureFlags;
use lol_html::rewritable_units::capturer::{
    AttributeOutline, Lexeme, Range, TokenCapturer, TokenCapturerEvent, TokenOutline,
};
use lol_html::rewritable_units::text_decoder::TextDecoder;
use lol_html::rewritable_units::token::{TextType, Token};
use lol_html::token::capture::{TokenCapture, TokenCaptureEvent, TokenCaptureFlags as FixedFlags, COMMENTS, END_TAGS, EOF, START_TAGS, TEXT};

fn range(start: usize, end: usize) -> Range {
    Range { start, end }
}

fn lexeme(input: &str, outline: Option<TokenOutline>) -> Lexeme {
    Lexeme { input: input.as_bytes().to_vec(), raw_range: range(0, input.len()), token_outline: outline }
}

fn written(token: &Token) -> String {
    let mut out = Vec::new();
    token.to_bytes(&mut out);
    String::from_utf8(out).unwrap()
}

fn describe(events: &[TokenCapturerEvent]) -> Vec<String> {
    events
        .iter()
        .map(|e| match e {
            TokenCapturerEvent::LexemeConsumed => "consumed".to_string(),
            TokenCapturerEvent::TokenProduced(t) => match &**t {
                Token::TextChunk(c) => format!("text({:?},{},{:?})", c.as_str(), c.last_in_current_boundaries(), c.text_type()),
                other => written(other),
            },
        })
        .collect()
}

#[test]
fn captures_tokens_by_flags() {
    let mut capturer = TokenCapturer::new(TokenCaptureFlags::all(), "utf-8");
    let mut events = Vec::new();

    capturer.feed(&lexeme("Hello ", Some(TokenOutline::Text(TextType::Data))), &mut events);
    capturer.feed(&lexeme("world", Some(TokenOutline::Text(TextType::Data))), &mut events);
    capturer.feed(&lexeme("<!-- c -->", Some(TokenOutline::Comment(range(4, 7)))), &mut events);
    capturer.feed(
        &lexeme(
            "<div class=x>",
            Some(TokenOutline::StartTag {
                name: range(1, 4),
                attributes: vec![AttributeOutline { name: range(5, 10), value: range(11, 12), raw_range: range(5, 12) }],
                ns: Namespace::Html,
                self_closing: false,
            }),
        ),
        &mut events,
    );
    capturer.feed(&lexeme("</div>", Some(TokenOutline::EndTag { name: range(2, 5) })), &mut events);
    capturer.feed(
        &lexeme(
            "<!DOCTYPE html>",
            Some(TokenOutline::Doctype { name: Some(range(10, 14)), public_id: None, system_id: None, force_quirks: false }),
        ),
        &mut events,
    );

    assert_eq!(
        describe(&events),
        vec![
            "consumed",
            "text(\"Hello \",false,Data)",
            "consumed",
            "text(\"world\",false,Data)",
            "text(\"\",true,Data)",
            "consumed",
            "<!-- c -->",
            "consumed",
            "<div class=x>",
            "consumed",
            "</div>",
            "consumed",
            "<!DOCTYPE html>",
        ]
    );
    match &events[8] {
        TokenCapturerEvent::TokenProduced(t) => match &**t {
            Token::StartTag(s) => {
                assert_eq!(s.name(), "div");
                assert_eq!(s.get_attribute("class").as_deref(), Some("x"));
            }
            _ => panic!("start tag expected"),
        },
        _ => panic!("token expected"),
    }
}

#[test]
fn uncaptured_kinds_produce_nothing() {
    let mut capturer = TokenCapturer::new(TokenCaptureFlags::empty(), "utf-8");
    let mut events = Vec::new();
    capturer.feed(&lexeme("text", Some(TokenOutline::Text(TextType::Data))), &mut events);
    capturer.feed(&lexeme("<!---->", Some(TokenOutline::Comment(range(4, 4)))), &mut events);
    capturer.feed(&lexeme("</a>", Some(TokenOutline::EndTag { name: range(2, 3) })), &mut events);
    capturer.feed(&lexeme("", None), &mut events);
    assert!(events.is_empty());
    assert!(!capturer.has_captures());

    capturer.set_capture_flags(TokenCaptureFlags { bits: 8 });
    assert!(capturer.has_captures());
    capturer.feed(&lexeme("</a>", Some(TokenOutline::EndTag { name: range(2, 3) })), &mut events);
    assert_eq!(describe(&events), vec!["consumed", "</a>"]);
    capturer.stop_capturing_tags();
    assert!(!capturer.has_captures());
}

#[test]
fn text_split_inside_a_character_is_decoded_whole() {
    let mut capturer = TokenCapturer::new(TokenCaptureFlags { bits: 1 }, "utf-8");
    let mut events = Vec::new();
    let bytes = "жар".as_bytes();
    capturer.feed(
        &Lexeme { input: bytes[..3].to_vec(), raw_range: range(0, 3), token_outline: Some(TokenOutline::Text(TextType::RCData)) },
        &mut events,
    );
    capturer.feed(
        &Lexeme { input: bytes[3..].to_vec(), raw_range: range(0, 3), token_outline: Some(TokenOutline::Text(TextType::RCData)) },
        &mut events,
    );
    capturer.feed(&lexeme("", None), &mut events);
    assert_eq!(
        describe(&events),
        vec![
            "consumed",
            "text(\"ж\",false,RCData)",
            "consumed",
            "text(\"ар\",false,RCData)",
            "text(\"\",true,RCData)",
        ]
    );
}

#[test]
fn text_decoder_streams_text_nodes() {
    let mut decoder = TextDecoder::new("windows-1251");
    let mut chunks = Vec::new();
    decoder.flush_pending(&mut chunks);
    assert!(chunks.is_empty());
    decoder.feed_text(&[0xCF, 0xF0, 0xE8], TextType::Data, &mut chunks);
    decoder.feed_text(&[0xE2, 0xE5, 0xF2], TextType::Data, &mut chunks);
    decoder.flush_pending(&mut chunks);
    let texts: Vec<(String, bool)> = chunks.iter().map(|c| (c.as_str().to_string(), c.last_in_current_boundaries())).collect();
    assert_eq!(
        texts,
        vec![("При".to_string(), false), ("вет".to_string(), false), ("".to_string(), true)]
    );
}

#[test]
fn a_captured_tag_is_captured_once() {
    let mut capturer = TokenCapturer::new(TokenCaptureFlags::empty(), "utf-8");
    capturer.set_capture_flags(TokenCaptureFlags::all());
    let start = || {
        lexeme("<p>", Some(TokenOutline::StartTag { name: range(1, 2), attributes: vec![], ns: Namespace::Html, self_closing: false }))
    };
    let end = || lexeme("</p>", Some(TokenOutline::EndTag { name: range(2, 3) }));

    let mut events = Vec::new();
    capturer.feed(&start(), &mut events);
    assert_eq!(describe(&events), vec!["consumed", "<p>"]);
    assert_eq!(capturer.has_captures(), true);

    let mut events = Vec::new();
    capturer.feed(&start(), &mut events);
    assert!(events.is_empty());

    capturer.feed(&end(), &mut events);
    assert_eq!(describe(&events), vec!["consumed", "</p>"]);
    let mut events = Vec::new();
    capturer.feed(&end(), &mut events);
    assert!(events.is_empty());
}

#[test]
fn text_node_in_pieces_decodes_as_a_whole() {
    // "aé€b" in UTF-8, split at every byte, inside characters too; then in windows-1252.
    let bytes = "a\u{e9}\u{20ac}b".as_bytes().to_vec();
    for split in 0..=bytes.len() {
        let mut decoder = TextDecoder::new("utf-8");
        let mut chunks = Vec::new();
        decoder.feed_text(&bytes[..split], TextType::Data, &mut chunks);
        decoder.feed_text(&bytes[split..], TextType::Data, &mut chunks);
        decoder.flush_pending(&mut chunks);
        let text: String = chunks.iter().map(|c| c.as_str().to_string()).collect();
        assert_eq!(text, "a\u{e9}\u{20ac}b");
        assert!(chunks.last().unwrap().last_in_current_boundaries());
    }

    let mut decoder = TextDecoder::new("windows-1252");
    let mut chunks = Vec::new();
    decoder.feed_text(b"a\xE9", TextType::Data, &mut chunks);
    decoder.feed_text(b"\x80b", TextType::Data, &mut chunks);
    decoder.flush_pending(&mut chunks);
    let text: String = chunks.iter().map(|c| c.as_str().to_string()).collect();
    assert_eq!(text, "a\u{e9}\u{20ac}b");

    // A character left unfinished at the end of the node becomes U+FFFD.
    let mut decoder = TextDecoder::new("utf-8");
    let mut chunks = Vec::new();
    decoder.feed_text(b"x\xE2\x82", TextType::Data, &mut chunks);
    decoder.flush_pending(&mut chunks);
    let text: String = chunks.iter().map(|c| c.as_str().to_string()).collect();
    assert_eq!(text, "x\u{fffd}");
}

#[test]
fn capturer_and_decoder_for_labels() {
    assert!(TokenCapturer::for_label(TokenCaptureFlags::all(), "utf-8").is_ok());
    assert!(TokenCapturer::for_label(TokenCaptureFlags::all(), "utf-16le").is_err());
    assert!(TextDecoder::for_label("no-such-encoding").is_err());
    let mut decoder = TextDecoder::for_label("windows-1252").unwrap();
    let mut chunks = Vec::new();
    decoder.feed_text(b"\xE9", TextType::Data, &mut chunks);
    decoder.flush_pending(&mut chunks);
    let text: String = chunks.iter().map(|c| c.as_str().to_string()).collect();
    assert_eq!(text, "\u{e9}");
}

#[test]
fn token_capture_goes_on_capturing_tags() {
    let mut capture = TokenCapture::new(FixedFlags { bits: START_TAGS | END_TAGS | TEXT | EOF }, "utf-8");
    let start = || {
        lexeme("<p>", Some(TokenOutline::StartTag { name: range(1, 2), attributes: vec![], ns: Namespace::Html, self_closing: false }))
    };
    let end = || lexeme("</p>", Some(TokenOutline::EndTag { name: range(2, 3) }));

    let mut events: Vec<TokenCaptureEvent> = Vec::new();
    capture.feed(&start(), &mut events);
    capture.feed(&lexeme("hi", Some(TokenOutline::Text(TextType::Data))), &mut events);
    capture.feed(&end(), &mut events);
    capture.feed(&start(), &mut events);
    capture.feed(&lexeme("<!-- c -->", Some(TokenOutline::Comment(range(4, 7)))), &mut events);
    capture.feed(&end(), &mut events);
    capture.feed(&lexeme("", Some(TokenOutline::Eof)), &mut events);
    assert_eq!(
        describe(&events),
        vec![
            "consumed",
            "<p>",
            "consumed",
            "text(\"hi\",false,Data)",
            "text(\"\",true,Data)",
            "consumed",
            "</p>",
            "consumed",
            "<p>",
            "consumed",
            "</p>",
        ]
    );
}

#[test]
fn token_capture_of_comments_only() {
    let mut capture = TokenCapture::new(FixedFlags { bits: COMMENTS }, "windows-1251");
    let mut events: Vec<TokenCaptureEvent> = Vec::new();
    capture.feed(&lexeme("text", Some(TokenOutline::Text(TextType::Data))), &mut events);
    capture.feed(&lexeme("<p>", Some(TokenOutline::StartTag { name: range(1, 2), attributes: vec![], ns: Namespace::Html, self_closing: false })), &mut events);
    assert!(events.is_empty());
    capture.feed(&lexeme("<!--x-->", Some(TokenOutline::Comment(range(4, 5)))), &mut events);
    capture.feed(&lexeme("<!--y-->", Some(TokenOutline::Comment(range(4, 5)))), &mut events);
    assert_eq!(describe(&events), vec!["consumed", "<!--x-->", "consumed", "<!--y-->"]);
}

use lol_html::rewritable_units::mutations::{ContentType, Mutations};
use lol_html::rewritable_units::text_encoder::StreamingHandlerSink;
use lol_html::rewritable_units::token::{Comment, TextChunk, TextType};

const ENCODINGS: [&str; 5] = ["utf-8", "windows-1252", "shift_jis", "euc-jp", "gbk"];

const COMMENT_HTML: &str = "<!-- foo -- bar -->";

const TEXT_HTML: &str = "Lorem ipsum dolor sit amet, consectetur adipiscing elit, sed do eiusmod tempor \
     incididunt ut labore et dolore magna aliqua. Ut enim ad minim veniam, quis nostrud \
     exercitation & ullamco laboris nisi ut aliquip ex ea commodo > consequat.";

/// Writes a unit whose own bytes are `body`, with the changes `handler` makes.
fn rewrite_unit(body: &[u8], enc: &str, handler: impl FnOnce(&mut Mutations)) -> String {
    let mut mutations = Mutations::new();
    handler(&mut mutations);
    let mut sink = StreamingHandlerSink::new(enc);
    mutations.write_unit(body, &mut sink);
    String::from_utf8(sink.take_output()).unwrap()
}

fn rewrite_comment(enc: &str, handler: impl FnOnce(&mut Mutations)) -> String {
    let comment = Comment::new_parsed(b" foo -- bar ".to_vec(), COMMENT_HTML.as_bytes().to_vec(), enc);
    let mut body = Vec::new();
    comment.to_bytes(&mut body);
    rewrite_unit(&body, enc, handler)
}

fn rewrite_text_chunk(enc: &str, handler: impl FnOnce(&mut Mutations)) -> String {
    let chunk = TextChunk::new_parsed(TEXT_HTML, TextType::Data, false, enc);
    let mut body = Vec::new();
    chunk.to_bytes(&mut body);
    rewrite_unit(&body, enc, handler)
}

fn prepends_and_appends(m: &mut Mutations) {
    m.before("<span>", ContentType::Text);
    m.before("<div>Hey</div>", ContentType::Html);
    m.before("<foo>", ContentType::Html);
    m.after("</foo>", ContentType::Html);
    m.after("<!-- 42 -->", ContentType::Html);
    m.after("<foo & bar>", ContentType::Text);
}

fn removed_between(m: &mut Mutations) {
    assert!(!m.removed());
    m.remove();
    assert!(m.removed());
    m.before("<before>", ContentType::Html);
    m.after("<after>", ContentType::Html);
}

fn replaced(m: &mut Mutations, last: ContentType) {
    m.before("<before>", ContentType::Html);
    m.after("<after>", ContentType::Html);
    assert!(!m.removed());
    m.replace("<div></div>", ContentType::Html);
    m.replace("<!--42-->", ContentType::Html);
    m.replace("<foo & bar>", last);
    assert!(m.removed());
}

#[test]
fn comment_unchanged() {
    for enc in ENCODINGS {
        assert_eq!(rewrite_comment(enc, |_| {}), COMMENT_HTML);
    }
}

#[test]
fn comment_with_prepends_and_appends() {
    for enc in ENCODINGS {
        assert_eq!(
            rewrite_comment(enc, prepends_and_appends),
            "&lt;span&gt;<div>Hey</div><foo><!-- foo -- bar -->&lt;foo &amp; bar&gt;<!-- 42 --></foo>"
        );
    }
}

#[test]
fn comment_removed() {
    for enc in ENCODINGS {
        assert_eq!(rewrite_comment(enc, removed_between), "<before><after>");
    }
}

#[test]
fn comment_replaced_with_text() {
    for enc in ENCODINGS {
        assert_eq!(
            rewrite_comment(enc, |m| replaced(m, ContentType::Text)),
            "<before>&lt;foo &amp; bar&gt;<after>"
        );
    }
}

#[test]
fn comment_replaced_with_html() {
    for enc in ENCODINGS {
        assert_eq!(rewrite_comment(enc, |m| replaced(m, ContentType::Html)), "<before><foo & bar><after>");
    }
}

#[test]
fn text_chunk_with_prepends_and_appends() {
    for enc in ENCODINGS {
        assert_eq!(
            rewrite_text_chunk(enc, prepends_and_appends),
            "&lt;span&gt;<div>Hey</div><foo>".to_string() + TEXT_HTML + "&lt;foo &amp; bar&gt;<!-- 42 --></foo>"
        );
    }
}

#[test]
fn text_chunk_removed() {
    for enc in ENCODINGS {
        assert_eq!(rewrite_text_chunk(enc, removed_between), "<before><after>");
    }
}

#[test]
fn text_chunk_replaced_with_text() {
    for enc in ENCODINGS {
        assert_eq!(
            rewrite_text_chunk(enc, |m| replaced(m, ContentType::Text)),
            "<before>&lt;foo &amp; bar&gt;<after>"
        );
    }
}

#[test]
fn text_chunk_replaced_with_html() {
    for enc in ENCODINGS {
        assert_eq!(rewrite_text_chunk(enc, |m| replaced(m, ContentType::Html)), "<before><foo & bar><after>");
    }
}

#[test]
fn non_ascii_content_is_written_in_the_document_encoding() {
    let mut sink = StreamingHandlerSink::new("windows-1252");
    let mut m = Mutations::new();
    m.before("\u{e9}", ContentType::Html);
    m.after("\u{436}", ContentType::Html);
    m.write_unit(b"x", &mut sink);
    assert_eq!(sink.take_output(), vec![0xE9, b'x', b'&', b'#', b'1', b'0', b'7', b'8', b';']);
}

use lol_html::rewriter::error::EncodingError;
use lol_html::rewritable_units::text_encoder::StreamingHandlerSink;
use lol_html::rewritable_units::document_end::{BailOut, DocumentEnd};
use lol_html::rewritable_units::mutations::ContentType;

#[test]
fn document_end_appends_in_order() {
    let mut end = DocumentEnd::new("utf-8");
    end.append("<bar>", ContentType::Html);
    end.append("<baz>", ContentType::Text);
    assert_eq!(String::from_utf8(end.into_output()).unwrap(), "<bar>&lt;baz&gt;");
}

#[test]
fn document_end_writes_in_the_document_encoding() {
    let mut end = DocumentEnd::new("windows-1252");
    end.append("\u{e9}", ContentType::Html);
    end.append("\u{436} & ", ContentType::Text);
    assert_eq!(end.into_output(), b"\xE9&#1078; &amp; ".to_vec());
}

#[test]
fn bail_out_appends_in_order() {
    let mut b = BailOut::new("utf-8");
    b.append("<!-- bailed out -->", ContentType::Html);
    b.append("<x>", ContentType::Text);
    assert_eq!(String::from_utf8(b.into_output()).unwrap(), "<!-- bailed out -->&lt;x&gt;");
}

#[test]
fn sinks_for_labels_the_rewriter_supports() {
    assert!(StreamingHandlerSink::for_label("utf-8").is_ok());
    assert_eq!(StreamingHandlerSink::for_label("utf-16le").err(), Some(EncodingError::NonAsciiCompatibleEncoding));
    assert_eq!(StreamingHandlerSink::for_label("no-such-encoding").err(), Some(EncodingError::UnknownEncoding));

    let mut end = DocumentEnd::for_label("windows-1252").unwrap();
    end.append("\u{e9}", ContentType::Html);
    assert_eq!(end.into_output(), vec![0xE9]);
    assert!(BailOut::for_label("utf-16be").is_err());
}

use lol_html::rewritable_units::mutations::ContentType;
use lol_html::rewritable_units::text_encoder::{
    is_utf8_char_boundary, push_escaped_body_text, StreamingHandlerSink, TextEncoder, Utf8Error,
};

#[test]
fn chars() {
    let boundaries = "🐈°文字化けしない"
        .as_bytes()
        .iter()
        .map(|&ch| if is_utf8_char_boundary(ch) { '!' } else { '.' })
        .collect::<String>();
    assert_eq!("!...!.!..!..!..!..!..!..!..", boundaries);
}

#[test]
fn utf8_fragments() {
    let text = "▀▄ ɯopuɐɹ ⓤⓝⓘⓒⓞⓓⓔ and ascii 🐳 sʇuıodǝpoɔ ✴";
    for len in 1..9 {
        let mut t = StreamingHandlerSink::new("utf-8");
        for (nth, chunk) in text.as_bytes().chunks(len).enumerate() {
            let msg = format!("{len} at {nth} '{chunk:?}'");
            t.write_utf8_chunk(chunk, ContentType::Html).expect(&msg);
        }
        let out = t.take_output();
        assert_eq!(String::from_utf8_lossy(&out), text, "{len}");
    }
}

#[test]
fn utf8_fragments_as_text_are_escaped() {
    let text = "<b>é & ü</b>";
    for len in 1..6 {
        let mut t = StreamingHandlerSink::new("utf-8");
        for chunk in text.as_bytes().chunks(len) {
            t.write_utf8_chunk(chunk, ContentType::Text).unwrap();
        }
        assert_eq!(
            String::from_utf8(t.take_output()).unwrap(),
            "&lt;b&gt;é &amp; ü&lt;/b&gt;",
            "{len}"
        );
    }
}

#[test]
fn write_str_html_and_text() {
    let mut t = StreamingHandlerSink::new("utf-8");
    t.write_str("<div>", ContentType::Html);
    t.write_str("a < b & c > d", ContentType::Text);
    t.write_str("</div>", ContentType::Html);
    assert_eq!(
        String::from_utf8(t.output().clone()).unwrap(),
        "<div>a &lt; b &amp; c &gt; d</div>"
    );
}

#[test]
fn invalid_utf8_chunk_is_an_error() {
    let mut t = StreamingHandlerSink::new("utf-8");
    assert_eq!(t.write_utf8_chunk(b"ab\xffcd", ContentType::Html), Err(Utf8Error));
    assert!(t.output().is_empty());

    let mut t = StreamingHandlerSink::new("utf-8");
    assert_eq!(t.write_utf8_chunk(b"\x80", ContentType::Html), Ok(()));
    assert_eq!(t.write_utf8_chunk(b"a", ContentType::Html), Err(Utf8Error));

    let mut t = StreamingHandlerSink::new("utf-8");
    assert_eq!(t.write_utf8_chunk(b"\x80\x80\x80\x80\x80", ContentType::Html), Err(Utf8Error));

    let mut t = StreamingHandlerSink::new("utf-8");
    assert_eq!(t.write_utf8_chunk(&[0xE2, 0x96], ContentType::Html), Ok(()));
    assert!(t.output().is_empty());
    assert_eq!(t.write_utf8_chunk(b"a", ContentType::Html), Err(Utf8Error));

    let mut t = StreamingHandlerSink::new("utf-8");
    assert_eq!(t.write_utf8_chunk(&[0xFF, b'a'], ContentType::Html), Err(Utf8Error));
}

#[test]
fn cut_short_char_then_write_str_gives_replacement() {
    let mut t = StreamingHandlerSink::new("utf-8");
    assert_eq!(t.write_utf8_chunk("a€".as_bytes().split_at(2).0, ContentType::Html), Ok(()));
    t.write_str("b", ContentType::Html);
    assert_eq!(String::from_utf8(t.take_output()).unwrap(), "a\u{fffd}b");
}

#[test]
fn non_utf8_output_is_encoded() {
    let mut t = StreamingHandlerSink::new("windows-1251");
    t.write_str("<p>Привет</p>", ContentType::Html);
    t.write_str("Ж & ж", ContentType::Text);
    let (expected, _, _) = encoding_rs::WINDOWS_1251.encode("<p>Привет</p>Ж &amp; ж");
    assert_eq!(t.take_output(), expected.into_owned());
}

#[test]
fn non_utf8_output_with_fragments() {
    let text = "Привет, мир";
    let (expected, _, _) = encoding_rs::WINDOWS_1251.encode(text);
    for len in 1..5 {
        let mut t = StreamingHandlerSink::new("windows-1251");
        for chunk in text.as_bytes().chunks(len) {
            t.write_utf8_chunk(chunk, ContentType::Html).unwrap();
        }
        assert_eq!(t.take_output(), expected.clone().into_owned(), "{len}");
    }
}

#[test]
fn text_encoder_keeps_ascii_and_encodes_the_rest() {
    let encoder = TextEncoder::new("windows-1252");
    let mut out = Vec::new();
    encoder.encode("abc", &mut out);
    assert_eq!(out, b"abc".to_vec());
    encoder.encode("é€", &mut out);
    assert_eq!(out, vec![b'a', b'b', b'c', 0xE9, 0x80]);
    encoder.encode("ж", &mut out);
    assert_eq!(&out[5..], b"&#1078;");
}

#[test]
fn escaping_bytes() {
    let mut out = Vec::new();
    push_escaped_body_text(b"<a href=\"x\">&</a>", &mut out);
    assert_eq!(out, b"&lt;a href=\"x\"&gt;&amp;&lt;/a&gt;".to_vec());
}

#[test]
fn empty_chunk_with_unfinished_character_is_an_error() {
    let mut t = StreamingHandlerSink::new("utf-8");
    let euro = "€".as_bytes();
    assert_eq!(t.write_utf8_chunk(&euro[..1], ContentType::Html), Ok(()));
    assert_eq!(t.write_utf8_chunk(&[], ContentType::Html), Err(Utf8Error));

    let mut t = StreamingHandlerSink::new("utf-8");
    assert_eq!(t.write_utf8_chunk(&[], ContentType::Html), Ok(()));
    assert!(t.output().is_empty());
}

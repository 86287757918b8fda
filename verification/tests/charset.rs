use lol_html::html::Namespace;
use lol_html::rewritable_units::token::{Attribute, StartTag};
use lol_html::rewriter::charset::{meta_charset, AsciiCompatibleEncoding, MetaCharsetAdjuster};

fn meta(attrs: &[(&str, &str)]) -> StartTag {
    StartTag::new_parsed(
        b"meta".to_vec(),
        attrs
            .iter()
            .map(|(n, v)| {
                Attribute::new_parsed(n.as_bytes().to_vec(), v.as_bytes().to_vec(), format!("{}={}", n, v).into_bytes(), "utf-8")
            })
            .collect(),
        Namespace::Html,
        false,
        b"<meta>".to_vec(),
        "utf-8",
    )
}

#[test]
fn ascii_compatible_encodings() {
    assert_eq!(AsciiCompatibleEncoding::new("windows-1251").unwrap().get(), "windows-1251");
    assert!(AsciiCompatibleEncoding::new("utf-16le").is_none());
    assert!(AsciiCompatibleEncoding::new("no-such-encoding").is_none());
    assert_eq!(AsciiCompatibleEncoding::utf_8().get(), "utf-8");
    assert_eq!(
        AsciiCompatibleEncoding::from_mimetype("text/html; charset=windows-1251").unwrap().get(),
        "windows-1251"
    );
    assert!(AsciiCompatibleEncoding::from_mimetype("text/html").is_none());
    assert!(AsciiCompatibleEncoding::from_mimetype("not a mime type").is_none());
    assert!(AsciiCompatibleEncoding::from_mimetype("text/html; charset=utf-16").is_none());
}

#[test]
fn meta_charset_sources() {
    assert_eq!(meta_charset(Some("windows-1251"), None, None).unwrap().get(), "windows-1251");
    assert_eq!(
        meta_charset(None, Some("CONTENT-TYPE"), Some("text/html; charset=koi8-r")).unwrap().get(),
        "koi8-r"
    );
    assert!(meta_charset(None, Some("refresh"), Some("text/html; charset=koi8-r")).is_none());
    assert_eq!(
        meta_charset(Some("bogus"), Some("Content-Type"), Some("text/html;charset=iso-8859-2")).unwrap().get(),
        "iso-8859-2"
    );
    assert!(meta_charset(None, None, Some("text/html; charset=koi8-r")).is_none());
}

#[test]
fn encoding_is_declared_once() {
    let mut adjuster = MetaCharsetAdjuster::new();
    assert!(adjuster.on_meta_tag(&meta(&[("name", "viewport")])).is_none());
    let first = adjuster.on_meta_tag(&meta(&[("CharSet", "windows-1251")])).unwrap();
    assert_eq!(first.get(), "windows-1251");
    assert!(adjuster.on_meta_tag(&meta(&[("charset", "koi8-r")])).is_none());

    let mut adjuster = MetaCharsetAdjuster::new();
    let found = adjuster
        .on_meta_tag(&meta(&[("http-equiv", "Content-Type"), ("content", "text/html; charset=shift_jis")]))
        .unwrap();
    assert_eq!(found.get(), "shift_jis");
}

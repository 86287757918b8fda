use lol_html::html::Namespace;
use lol_html::rewritable_units::element::TagNameError;
use lol_html::rewritable_units::token::{
    Attribute, Comment, Doctype, EndTag, OrderingMutations, Serialize, StartTag, TextChunk, TextType, Token,
};
use lol_html::rewritable_units::tokens::{AttributeNameError, AttributeValidationError, CommentTextError, TextError};

fn bytes_of(token: &Token) -> String {
    let mut out = Vec::new();
    token.to_bytes(&mut out);
    String::from_utf8(out).unwrap()
}

fn attr(name: &str, value: &str, raw: &str) -> Attribute {
    Attribute::new_parsed(name.as_bytes().to_vec(), value.as_bytes().to_vec(), raw.as_bytes().to_vec(), "utf-8")
}

const SERIALIZATION_HTML: &str = r#"<a a1='foo " bar " baz' / a2="foo ' bar ' baz" a3=foo/bar a4></a>"#;

fn parsed_a() -> StartTag {
    StartTag::new_parsed(
        b"a".to_vec(),
        vec![
            attr("a1", r#"foo " bar " baz"#, r#"a1='foo " bar " baz'"#),
            attr("a2", "foo ' bar ' baz", r#"a2="foo ' bar ' baz""#),
            attr("a3", "foo/bar", "a3=foo/bar"),
            attr("a4", "", "a4"),
        ],
        Namespace::Html,
        false,
        r#"<a a1='foo " bar " baz' / a2="foo ' bar ' baz" a3=foo/bar a4>"#.as_bytes().to_vec(),
        "utf-8",
    )
}

fn parsed_end_a() -> EndTag {
    EndTag::new_parsed(b"a".to_vec(), b"</a>".to_vec(), "utf-8")
}

fn rewrite_a(handler: impl FnOnce(&mut StartTag)) -> String {
    let mut start = parsed_a();
    handler(&mut start);
    bytes_of(&Token::StartTag(start)) + &bytes_of(&Token::EndTag(parsed_end_a()))
}

fn start_tag(name: &str, encoding: &str) -> StartTag {
    StartTag::new_parsed(name.as_bytes().to_vec(), vec![], Namespace::Html, false, format!("<{}>", name).into_bytes(), encoding)
}

#[test]
fn element_parsed() {
    assert_eq!(rewrite_a(|_| {}), SERIALIZATION_HTML);
}

#[test]
fn modified_start_tag_name() {
    assert_eq!(
        rewrite_a(|el| el.set_name("div").unwrap()),
        r#"<div a1='foo " bar " baz' a2="foo ' bar ' baz" a3=foo/bar a4></a>"#
    );
}

#[test]
fn modified_double_quoted_attr() {
    assert_eq!(
        rewrite_a(|el| el.set_attribute("a2", "foo ' bar ' baz42").unwrap()),
        r#"<a a1='foo " bar " baz' a2="foo ' bar ' baz42" a3=foo/bar a4></a>"#
    );
}

#[test]
fn modified_unquoted_attr() {
    assert_eq!(
        rewrite_a(|el| el.set_attribute("a3", "foo/bar42").unwrap()),
        r#"<a a1='foo " bar " baz' a2="foo ' bar ' baz" a3="foo/bar42" a4></a>"#
    );
}

#[test]
fn set_value_for_attr_without_value() {
    assert_eq!(
        rewrite_a(|el| el.set_attribute("a4", "42").unwrap()),
        r#"<a a1='foo " bar " baz' a2="foo ' bar ' baz" a3=foo/bar a4="42"></a>"#
    );
}

#[test]
fn add_attr() {
    assert_eq!(
        rewrite_a(|el| el.set_attribute("a5", r#"42'"42"#).unwrap()),
        r#"<a a1='foo " bar " baz' a2="foo ' bar ' baz" a3=foo/bar a4 a5="42'&quot;42"></a>"#
    );
}

#[test]
fn remove_non_existent_attr() {
    assert_eq!(rewrite_a(|el| el.remove_attribute("a5")), SERIALIZATION_HTML);
}

#[test]
fn without_attrs() {
    assert_eq!(
        rewrite_a(|el| {
            for name in &["a1", "a2", "a3", "a4"] {
                el.remove_attribute(name);
            }
        }),
        "<a></a>"
    );
}

#[test]
fn self_closing_flag() {
    let mut img = StartTag::new_parsed(
        b"img".to_vec(),
        vec![attr("a1", "42", "a1=42"), attr("a2", "", "a2")],
        Namespace::Html,
        true,
        b"<img a1=42 a2 />".to_vec(),
        "utf-8",
    );
    img.set_attribute("a1", "foo").unwrap();
    assert_eq!(bytes_of(&Token::StartTag(img)), r#"<img a1="foo" a2 />"#);

    let mut img = StartTag::new_parsed(b"img".to_vec(), vec![attr("a1", "", "a1")], Namespace::Html, true, b"<img a1 />".to_vec(), "utf-8");
    img.remove_attribute("a1");
    assert_eq!(bytes_of(&Token::StartTag(img)), "<img/>");
}

#[test]
fn get_and_has_attribute() {
    let el = parsed_a();
    assert_eq!(el.get_attribute("A2").as_deref(), Some("foo ' bar ' baz"));
    assert_eq!(el.get_attribute("a4").as_deref(), Some(""));
    assert_eq!(el.get_attribute("a5"), None);
    assert!(el.has_attribute("a1"));
    assert!(!el.has_attribute("b"));
    let mut el = el;
    el.set_attribute("A1", "new").unwrap();
    assert_eq!(el.get_attribute("a1").as_deref(), Some("new"));
    assert_eq!(el.attributes().len(), 4);
    assert_eq!(el.attributes()[0].name(), "a1");
    assert_eq!(el.attributes()[0].value(), "new");
}

#[test]
fn empty_tag_name() {
    let mut el = start_tag("div", "utf-8");
    assert_eq!(el.set_name("").unwrap_err(), TagNameError::Empty);
}

#[test]
fn forbidden_characters_in_tag_name() {
    let mut el = start_tag("div", "utf-8");
    for &ch in &[' ', '\n', '\r', '\t', '\x0C', '/', '>'] {
        let err = el.set_name(&format!("foo{}bar", ch)).unwrap_err();
        assert_eq!(err, TagNameError::ForbiddenCharacter(ch));
    }
    assert_eq!(bytes_of(&Token::StartTag(el)), "<div>");
}

#[test]
fn encoding_unmappable_chars_in_tag_name() {
    let mut el = start_tag("div", "euc-jp");
    assert_eq!(el.set_name("foo\u{00F8}bar").unwrap_err(), TagNameError::UnencodableCharacter);
}

#[test]
fn invalid_first_char_of_tag_name() {
    let mut el = start_tag("div", "utf-8");
    assert_eq!(el.set_name("1foo").unwrap_err(), TagNameError::InvalidFirstCharacter);
}

#[test]
fn empty_attr_name() {
    let mut el = start_tag("div", "utf-8");
    assert_eq!(el.set_attribute("", "").unwrap_err(), AttributeNameError::Empty);
}

#[test]
fn forbidden_characters_in_attr_name() {
    let mut el = start_tag("div", "utf-8");
    for &ch in &[' ', '\n', '\r', '\t', '\x0C', '/', '>', '='] {
        let err = el.set_attribute(&format!("foo{}bar", ch), "").unwrap_err();
        assert_eq!(err, AttributeNameError::ForbiddenCharacter(ch));
    }
    assert_eq!(bytes_of(&Token::StartTag(el)), "<div>");
}

#[test]
fn encoding_unmappable_character_in_attr_name() {
    let mut el = start_tag("div", "euc-jp");
    assert_eq!(el.set_attribute("foo\u{00F8}bar", "").unwrap_err(), AttributeNameError::UnencodableCharacter);
}

#[test]
fn start_and_end_tag_names() {
    let mut el = StartTag::new_parsed(b"Foo".to_vec(), vec![], Namespace::Html, false, b"<Foo>".to_vec(), "windows-1252");
    assert_eq!(el.name(), "foo");
    el.set_name("BaZ").unwrap();
    assert_eq!(el.name(), "baz");
    let mut end = EndTag::new_parsed(b"foo".to_vec(), b"</foo>".to_vec(), "windows-1252");
    end.set_name("BaZ").unwrap();
    assert_eq!(bytes_of(&Token::StartTag(el)) + &bytes_of(&Token::EndTag(end)), "<BaZ></BaZ>");
}

fn comment(text: &str, encoding: &str) -> Comment {
    Comment::new_parsed(text.as_bytes().to_vec(), format!("<!--{}-->", text).into_bytes(), encoding)
}

#[test]
fn comment_parsed() {
    assert_eq!(bytes_of(&Token::Comment(comment(" foo -- bar ", "utf-8"))), "<!-- foo -- bar -->");
}

#[test]
fn comment_closing_sequence_in_text() {
    let mut c = comment(" foo ", "utf-8");
    assert_eq!(c.set_text("foo -- bar --> baz").unwrap_err(), CommentTextError::CommentClosingSequence);
    assert_eq!(bytes_of(&Token::Comment(c)), "<!-- foo -->");
}

#[test]
fn encoding_unmappable_chars_in_text() {
    let mut c = comment(" foo ", "euc-jp");
    assert_eq!(c.set_text("foo\u{00F8}bar").unwrap_err(), CommentTextError::UnencodableCharacter);
}

#[test]
fn modified_text() {
    let mut c = comment(" foo -- bar ", "utf-8");
    c.set_text("42 <!-").unwrap();
    assert_eq!(c.text(), "42 <!-");
    assert_eq!(bytes_of(&Token::Comment(c)), "<!--42 <!--->");
}

#[test]
fn ordering_mutations_around_tokens() {
    let mut c = comment(" x ", "utf-8");
    c.before("<b1>");
    c.before("<b2>");
    c.after("<a2>");
    c.after("<a1>");
    assert_eq!(bytes_of(&Token::Comment(c)), "<b1><b2><!-- x --><a1><a2>");

    let mut c = comment(" x ", "utf-8");
    c.before("<before>");
    c.after("<after>");
    c.remove();
    assert_eq!(bytes_of(&Token::Comment(c)), "<before><after>");

    let mut end = parsed_end_a();
    end.replace("<r1>");
    end.replace("<r2>");
    end.remove();
    assert_eq!(bytes_of(&Token::EndTag(end)), "<r1><r2>");

    let mut m = OrderingMutations::new();
    m.before("é", "windows-1252");
    assert_eq!(m.content_before, vec![0xE9]);
    m.replace("ж", "windows-1252");
    assert_eq!(m.replacements, b"&#1078;".to_vec());
}

const TEXT_HTML: &str = "Lorem ipsum dolor sit amet, consectetur adipiscing elit, sed do eiusmod tempor \
     incididunt ut labore et dolore magna aliqua. Ut enim ad minim veniam, quis nostrud \
     exercitation & ullamco laboris nisi ut aliquip ex ea commodo > consequat.";

#[test]
fn text_chunk_parsed() {
    for enc in ["utf-8", "windows-1252", "shift_jis", "koi8-r"] {
        let chunk = TextChunk::new_parsed(TEXT_HTML, TextType::Data, false, enc);
        assert_eq!(bytes_of(&Token::TextChunk(chunk)), TEXT_HTML);
    }
}

#[test]
fn new_text_chunks_are_escaped() {
    let chunk = TextChunk::new("a < b & c", "utf-8");
    assert_eq!(bytes_of(&Token::TextChunk(chunk)), "a &lt; b &amp; c");
    let chunk = TextChunk::new_parsed("a < b", TextType::RawText, true, "utf-8");
    assert!(chunk.last_in_current_boundaries());
    assert_eq!(chunk.text_type(), TextType::RawText);
    assert_eq!(bytes_of(&Token::TextChunk(chunk)), "a < b");
    assert_eq!(bytes_of(&Token::TextChunk(TextChunk::new("", "utf-8"))), "");
}

#[test]
fn script_and_stylesheet_text() {
    let chunk = TextChunk::try_script_from("if (a < b) {}", "utf-8").unwrap();
    assert_eq!(chunk.as_str(), "if (a < b) {}");
    assert_eq!(bytes_of(&Token::TextChunk(chunk)), "if (a < b) {}");
    assert_eq!(
        TextChunk::try_script_from("x</script>y", "utf-8").unwrap_err(),
        TextError::ScriptEndTagInScriptText
    );
    assert_eq!(
        TextChunk::try_stylesheet_from("x</style>y", "utf-8").unwrap_err(),
        TextError::StyleEndTagInStylesheetText
    );
    assert_eq!(
        TextChunk::try_stylesheet_from("ø", "euc-jp").unwrap_err(),
        TextError::UnencodableCharacter
    );
}

#[test]
fn doctype_fields() {
    let d = Doctype::new_parsed(
        Some(b"HTML".to_vec()),
        Some(b"-//W3C//DTD HTML 4.01//EN".to_vec()),
        None,
        false,
        b"<!DOCTYPE HTML PUBLIC \"-//W3C//DTD HTML 4.01//EN\">".to_vec(),
        "utf-8",
    );
    assert_eq!(d.name().as_deref(), Some("html"));
    assert_eq!(d.public_id().as_deref(), Some("-//W3C//DTD HTML 4.01//EN"));
    assert_eq!(d.system_id(), None);
    assert!(!d.force_quirks());
    assert_eq!(bytes_of(&Token::Doctype(d)), "<!DOCTYPE HTML PUBLIC \"-//W3C//DTD HTML 4.01//EN\">");
}

#[test]
fn attribute_from_parts() {
    let a = Attribute::try_from("data-x", "say \"hi\"", "utf-8").unwrap();
    let mut out = Vec::new();
    a.to_bytes(&mut out);
    assert_eq!(String::from_utf8(out).unwrap(), "data-x=\"say &quot;hi&quot;\"");
}

#[test]
fn rewrite_insecure_hyperlink() {
    let mut a = StartTag::new_parsed(
        b"a".to_vec(),
        vec![attr("href", "http://example.com", "href=http://example.com")],
        Namespace::Html,
        false,
        b"<a href=http://example.com>".to_vec(),
        "utf-8",
    );
    let href = a.get_attribute("href").expect("href was required").replace("http:", "https:");
    a.set_attribute("href", &href).unwrap();
    let mut out = Vec::new();
    Serialize::to_bytes(&a, &mut out);
    Serialize::to_bytes(&parsed_end_a(), &mut out);
    assert_eq!(String::from_utf8(out).unwrap(), r#"<a href="https://example.com"></a>"#);
}

#[test]
fn attribute_name_in_its_own_case() {
    let a = attr("Foo1", "Bar1", "Foo1=Bar1");
    assert_eq!(a.name(), "foo1");
    assert_eq!(a.name_preserve_case(), "Foo1");
}

#[test]
fn owned_copies_keep_every_part() {
    let mut tag = parsed_a();
    tag.before("<b>");
    let copy = tag.to_owned();
    assert_eq!(copy.attributes().len(), 4);
    assert_eq!(copy.attributes()[1].name_preserve_case(), "a2");
    assert_eq!(bytes_of(&Token::StartTag(copy)), bytes_of(&Token::StartTag(tag)));

    let a = attr("Foo1", "Bar1", "Foo1=Bar1").to_owned();
    assert_eq!(a.value(), "Bar1");

    let d = Doctype::new_parsed(Some(b"html".to_vec()), None, None, true, b"<!doctype html>".to_vec(), "utf-8");
    let d2 = d.to_owned();
    assert!(d2.force_quirks());
    assert_eq!(bytes_of(&Token::Doctype(d2)), "<!doctype html>");

    let chunk = TextChunk::new_parsed("a & b", TextType::Data, true, "utf-8");
    let chunk2 = chunk.to_owned();
    assert!(chunk2.last_in_text_node());
    assert_eq!(chunk2.as_str(), "a & b");
    assert_eq!(bytes_of(&Token::TextChunk(chunk2)), "a & b");
}

#[test]
fn attribute_renamed() {
    let mut a = attr("a1", "42", "a1=42");
    a.set_name("Data-X").unwrap();
    assert_eq!(a.name(), "data-x");
    assert_eq!(a.name_preserve_case(), "Data-X");
    let mut out = Vec::new();
    a.to_bytes(&mut out);
    assert_eq!(String::from_utf8(out).unwrap(), "Data-X=\"42\"");

    assert_eq!(a.set_name(""), Err(AttributeValidationError::EmptyName));
    assert_eq!(a.set_name("a=b"), Err(AttributeValidationError::ForbiddenCharacterInName('=')));
    let mut b = Attribute::new_parsed(b"x".to_vec(), vec![], b"x".to_vec(), "euc-jp");
    assert_eq!(b.set_name("foo\u{00F8}bar"), Err(AttributeValidationError::UnencodableCharacterInName));
    assert_eq!(a.name(), "data-x");
}

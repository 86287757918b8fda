use lol_html::html::Namespace;
use lol_html::rewritable_units::element::Element;
use lol_html::rewritable_units::mutations::{ContentType, Mutations};
use lol_html::rewritable_units::text_encoder::StreamingHandlerSink;
use lol_html::rewritable_units::token::{Attribute, EndTag, StartTag};

const ENCODINGS: [&str; 5] = ["utf-8", "windows-1252", "shift_jis", "euc-jp", "gbk"];

/// A start tag as the parser hands it out: `attrs` are (name, value, raw) triples.
fn parsed_start(name: &str, attrs: &[(&str, &str, &str)], self_closing: bool, raw: &str, enc: &str) -> StartTag {
    let attributes = attrs
        .iter()
        .map(|(n, v, r)| Attribute::new_parsed(n.as_bytes().to_vec(), v.as_bytes().to_vec(), r.as_bytes().to_vec(), enc))
        .collect();
    StartTag::new_parsed(name.as_bytes().to_vec(), attributes, Namespace::Html, self_closing, raw.as_bytes().to_vec(), enc)
}

/// Rewrites one element in its document: `prefix`, the element's start tag, its content,
/// its end tag (if it has one) and `suffix`, with `handler` run on the element.
fn rewrite_element(
    prefix: &str,
    start: StartTag,
    can_have_content: bool,
    content: &str,
    end: Option<&str>,
    suffix: &str,
    enc: &str,
    handler: impl FnOnce(&mut Element),
) -> String {
    let mut el = Element::new(start, can_have_content);
    handler(&mut el);
    let removes_content = el.should_remove_content();
    let (tag, start_mutations, end_handler) = el.into_parts();

    let mut sink = StreamingHandlerSink::new(enc);
    sink.write_raw(prefix.as_bytes());
    let mut start_bytes = Vec::new();
    tag.to_bytes(&mut start_bytes);
    start_mutations.write_unit(&start_bytes, &mut sink);
    if !removes_content {
        sink.write_raw(content.as_bytes());
    }
    if let Some(end_name) = end {
        let mut end_tag = EndTag::new_parsed(end_name.as_bytes().to_vec(), format!("</{}>", end_name).into_bytes(), enc);
        let mutations = match end_handler {
            Some(h) => h.apply(&mut end_tag),
            None => Mutations::new(),
        };
        let mut end_bytes = Vec::new();
        end_tag.to_bytes(&mut end_bytes);
        mutations.write_unit(&end_bytes, &mut sink);
    }
    sink.write_raw(suffix.as_bytes());
    String::from_utf8(sink.take_output()).unwrap()
}

/// `<div><span>Hi</span></div>`, with the span rewritten.
fn rewrite_span(enc: &str, handler: impl FnOnce(&mut Element)) -> String {
    rewrite_element("<div>", parsed_start("span", &[], false, "<span>", enc), true, "Hi", Some("span"), "</div>", enc, handler)
}

/// `<div><span>Hi<inner-remove-me>Remove</inner-remove-me></span></div>`, with the span
/// rewritten.
fn rewrite_span_with_inner(enc: &str, handler: impl FnOnce(&mut Element)) -> String {
    rewrite_element(
        "<div>",
        parsed_start("span", &[], false, "<span>", enc),
        true,
        "Hi<inner-remove-me>Remove</inner-remove-me>",
        Some("span"),
        "</div>",
        enc,
        handler,
    )
}

fn foo_with_attrs(enc: &str) -> StartTag {
    parsed_start(
        "Foo",
        &[("Foo1", "Bar1", "Foo1=Bar1"), ("Foo2", "Bar2", "Foo2=Bar2")],
        false,
        "<Foo Foo1=Bar1 Foo2=Bar2>",
        enc,
    )
}

const SERIALIZATION_HTML: &str = r#"<a a1='foo " bar " baz' / a2="foo ' bar ' baz" a3=foo/bar a4></a>"#;

fn parsed_a(enc: &str) -> StartTag {
    parsed_start(
        "a",
        &[
            ("a1", r#"foo " bar " baz"#, r#"a1='foo " bar " baz'"#),
            ("a2", "foo ' bar ' baz", r#"a2="foo ' bar ' baz""#),
            ("a3", "foo/bar", "a3=foo/bar"),
            ("a4", "", "a4"),
        ],
        false,
        r#"<a a1='foo " bar " baz' / a2="foo ' bar ' baz" a3=foo/bar a4>"#,
        enc,
    )
}

fn rewrite_a(enc: &str, handler: impl FnOnce(&mut Element)) -> String {
    rewrite_element("", parsed_a(enc), true, "", Some("a"), "", enc, handler)
}

#[test]
fn element_serialized_unchanged() {
    for enc in ENCODINGS {
        assert_eq!(rewrite_a(enc, |_| {}), SERIALIZATION_HTML);
    }
}

#[test]
fn tag_name_getter_and_setter() {
    for enc in ENCODINGS {
        let output = rewrite_element(
            "",
            parsed_start("Foo", &[], false, "<Foo>", enc),
            true,
            "<div><span></span></div>",
            Some("foo"),
            "",
            enc,
            |el| {
                assert_eq!(el.tag_name(), "foo", "Encoding: {}", enc);
                el.set_tag_name("BaZ").unwrap();
                assert_eq!(el.tag_name(), "baz", "Encoding: {}", enc);
            },
        );
        assert_eq!(output, "<BaZ><div><span></span></div></BaZ>");
    }
}

#[test]
fn attribute_list() {
    for enc in ENCODINGS {
        let el = Element::new(foo_with_attrs(enc), true);
        assert_eq!(el.attributes().len(), 2, "Encoding: {}", enc);
        assert_eq!(el.attributes()[0].name(), "foo1", "Encoding: {}", enc);
        assert_eq!(el.attributes()[1].name(), "foo2", "Encoding: {}", enc);
        assert_eq!(el.attributes()[0].value(), "Bar1", "Encoding: {}", enc);
        assert_eq!(el.attributes()[1].value(), "Bar2", "Encoding: {}", enc);
    }
}

#[test]
fn get_attrs() {
    for enc in ENCODINGS {
        let el = Element::new(foo_with_attrs(enc), true);
        assert_eq!(el.get_attribute("fOo1").unwrap(), "Bar1", "Encoding: {}", enc);
        assert_eq!(el.get_attribute("Foo1").unwrap(), "Bar1", "Encoding: {}", enc);
        assert_eq!(el.get_attribute("FOO2").unwrap(), "Bar2", "Encoding: {}", enc);
        assert_eq!(el.get_attribute("foo2").unwrap(), "Bar2", "Encoding: {}", enc);
        assert_eq!(el.get_attribute("foo3"), None, "Encoding: {}", enc);
    }
}

#[test]
fn has_attr() {
    for enc in ENCODINGS {
        let el = Element::new(foo_with_attrs(enc), true);
        assert!(el.has_attribute("FOo1"), "Encoding: {}", enc);
        assert!(el.has_attribute("foo1"), "Encoding: {}", enc);
        assert!(el.has_attribute("FOO2"), "Encoding: {}", enc);
        assert!(!el.has_attribute("foo3"), "Encoding: {}", enc);
    }
}

#[test]
fn set_attr() {
    for enc in ENCODINGS {
        let mut el = Element::new(parsed_start("div", &[], false, "<div>", enc), true);
        el.set_attribute("Foo", "Bar1").unwrap();
        assert_eq!(el.get_attribute("foo").unwrap(), "Bar1", "Encoding: {}", enc);
        el.set_attribute("fOO", "Bar2").unwrap();
        assert_eq!(el.get_attribute("foo").unwrap(), "Bar2", "Encoding: {}", enc);
    }
}

#[test]
fn remove_attr() {
    for enc in ENCODINGS {
        let mut el = Element::new(foo_with_attrs(enc), true);
        el.remove_attribute("Unknown");
        assert_eq!(el.attributes().len(), 2, "Encoding: {}", enc);
        el.remove_attribute("Foo1");
        assert_eq!(el.attributes().len(), 1, "Encoding: {}", enc);
        assert_eq!(el.get_attribute("foo1"), None, "Encoding: {}", enc);
        el.remove_attribute("FoO2");
        assert!(el.attributes().is_empty(), "Encoding: {}", enc);
        assert_eq!(el.get_attribute("foo2"), None, "Encoding: {}", enc);
    }
}

#[test]
fn insert_content_before() {
    for enc in ENCODINGS {
        let output = rewrite_span(enc, |el| {
            el.before("<img>", ContentType::Html);
            el.before("<img>", ContentType::Text);
        });
        assert_eq!(output, "<div><img>&lt;img&gt;<span>Hi</span></div>");
    }
}

#[test]
fn prepend_content() {
    for enc in ENCODINGS {
        let output = rewrite_span(enc, |el| {
            el.prepend("<img>", ContentType::Html);
            el.prepend("<img>", ContentType::Text);
        });
        assert_eq!(output, "<div><span>&lt;img&gt;<img>Hi</span></div>");
    }
}

#[test]
fn append_content() {
    for enc in ENCODINGS {
        let output = rewrite_span(enc, |el| {
            el.append("<img>", ContentType::Html);
            el.append("<img>", ContentType::Text);
        });
        assert_eq!(output, "<div><span>Hi<img>&lt;img&gt;</span></div>");
    }
}

#[test]
fn insert_content_after() {
    for enc in ENCODINGS {
        let output = rewrite_span(enc, |el| {
            el.after("<img>", ContentType::Html);
            el.after("<img>", ContentType::Text);
        });
        assert_eq!(output, "<div><span>Hi</span>&lt;img&gt;<img></div>");
    }
}

#[test]
fn set_content_after() {
    for enc in ENCODINGS {
        let output = rewrite_span_with_inner(enc, |el| {
            el.prepend("<prepended>", ContentType::Html);
            el.append("<appended>", ContentType::Html);
            el.set_inner_content("<img>", ContentType::Html);
            el.set_inner_content("<img>", ContentType::Text);
        });
        assert_eq!(output, "<div><span>&lt;img&gt;</span></div>");

        let output = rewrite_span_with_inner(enc, |el| {
            el.prepend("<prepended>", ContentType::Html);
            el.append("<appended>", ContentType::Html);
            el.set_inner_content("<img>", ContentType::Text);
            el.set_inner_content("<img>", ContentType::Html);
        });
        assert_eq!(output, "<div><span><img></span></div>");
    }
}

#[test]
fn replace() {
    for enc in ENCODINGS {
        let output = rewrite_span_with_inner(enc, |el| {
            el.prepend("<prepended>", ContentType::Html);
            el.append("<appended>", ContentType::Html);
            el.replace("<img>", ContentType::Html);
            el.replace("<img>", ContentType::Text);
            assert!(el.removed());
        });
        assert_eq!(output, "<div>&lt;img&gt;</div>");

        let output = rewrite_span_with_inner(enc, |el| {
            el.prepend("<prepended>", ContentType::Html);
            el.append("<appended>", ContentType::Html);
            el.replace("<img>", ContentType::Text);
            el.replace("<img>", ContentType::Html);
            assert!(el.removed());
        });
        assert_eq!(output, "<div><img></div>");
    }
}

#[test]
fn remove() {
    for enc in ENCODINGS {
        let output = rewrite_span_with_inner(enc, |el| {
            el.prepend("<prepended>", ContentType::Html);
            el.append("<appended>", ContentType::Html);
            el.remove();
            assert!(el.removed());
        });
        assert_eq!(output, "<div></div>");
    }
}

#[test]
fn remove_and_keep_content() {
    for enc in ENCODINGS {
        let output = rewrite_span(enc, |el| {
            el.prepend("<prepended>", ContentType::Html);
            el.append("<appended>", ContentType::Html);
            el.remove_and_keep_content();
            assert!(el.removed());
        });
        assert_eq!(output, "<div><prepended>Hi<appended></div>");
    }
}

#[test]
fn void_element() {
    let output = rewrite_element(
        "",
        parsed_start("img", &[], false, "<img>", "utf-8"),
        false,
        "",
        None,
        "<span>Hi</span></img>",
        "utf-8",
        |el| {
            el.after("<!--after-->", ContentType::Html);
            el.set_tag_name("img-foo").unwrap();
        },
    );
    assert_eq!(output, "<img-foo><!--after--><span>Hi</span></img>");
}

#[test]
fn self_closing_element() {
    let output = rewrite_element(
        "<svg>",
        parsed_start("foo", &[], true, "<foo/>", "utf-8"),
        false,
        "",
        None,
        "Hi</foo></svg>",
        "utf-8",
        |el| {
            el.after("<!--after-->", ContentType::Html);
            el.set_tag_name("bar").unwrap();
        },
    );
    assert_eq!(output, "<svg><bar/><!--after-->Hi</foo></svg>");
}

#[test]
fn modified_name() {
    for enc in ENCODINGS {
        assert_eq!(
            rewrite_a(enc, |el| el.set_tag_name("div").unwrap()),
            r#"<div a1='foo " bar " baz' a2="foo ' bar ' baz" a3=foo/bar a4></div>"#
        );
    }
}

#[test]
fn modified_single_quoted_attr() {
    for enc in ENCODINGS {
        assert_eq!(
            rewrite_a(enc, |el| el.set_attribute("a2", "foo ' bar ' baz42").unwrap()),
            r#"<a a1='foo " bar " baz' a2="foo ' bar ' baz42" a3=foo/bar a4></a>"#
        );
    }
}

#[test]
fn with_before_and_prepend() {
    for enc in ENCODINGS {
        let output = rewrite_a(enc, |el| {
            el.before("<span>", ContentType::Text);
            el.before("<div>Hey</div>", ContentType::Html);
            el.before("<foo>", ContentType::Html);
            el.prepend("</foo>", ContentType::Html);
            el.prepend("<!-- 42 -->", ContentType::Html);
            el.prepend("<foo & bar>", ContentType::Text);
        });
        assert_eq!(
            output,
            "&lt;span&gt;<div>Hey</div><foo>".to_string()
                + r#"<a a1='foo " bar " baz' / a2="foo ' bar ' baz" a3=foo/bar a4>"#
                + "&lt;foo &amp; bar&gt;<!-- 42 --></foo>"
                + "</a>"
        );
    }
}

#[test]
fn with_after_and_append() {
    for enc in ENCODINGS {
        let output = rewrite_a(enc, |el| {
            el.append("<span>", ContentType::Text);
            el.append("<div>Hey</div>", ContentType::Html);
            el.append("<foo>", ContentType::Html);
            el.after("</foo>", ContentType::Html);
            el.after("<!-- 42 -->", ContentType::Html);
            el.after("<foo & bar>", ContentType::Text);
        });
        assert_eq!(
            output,
            r#"<a a1='foo " bar " baz' / a2="foo ' bar ' baz" a3=foo/bar a4>"#.to_string()
                + "&lt;span&gt;<div>Hey</div><foo>"
                + "</a>"
                + "&lt;foo &amp; bar&gt;<!-- 42 --></foo>"
        );
    }
}

#[test]
fn element_removed() {
    for enc in ENCODINGS {
        let output = rewrite_a(enc, |el| {
            assert!(!el.removed());
            el.remove();
            assert!(el.removed());
            el.before("<before>", ContentType::Html);
            el.after("<after>", ContentType::Html);
        });
        assert_eq!(output, "<before><after>");
    }
}

#[test]
fn element_replaced_with_text() {
    for enc in ENCODINGS {
        let output = rewrite_a(enc, |el| {
            el.before("<before>", ContentType::Html);
            el.after("<after>", ContentType::Html);
            assert!(!el.removed());
            el.replace("<div></div>", ContentType::Html);
            el.replace("<!--42-->", ContentType::Html);
            el.replace("<foo & bar>", ContentType::Text);
            assert!(el.removed());
        });
        assert_eq!(output, "<before>&lt;foo &amp; bar&gt;<after>");
    }
}

#[test]
fn element_replaced_with_html() {
    for enc in ENCODINGS {
        let output = rewrite_a(enc, |el| {
            el.before("<before>", ContentType::Html);
            el.after("<after>", ContentType::Html);
            assert!(!el.removed());
            el.replace("<div></div>", ContentType::Html);
            el.replace("<!--42-->", ContentType::Html);
            el.replace("<foo & bar>", ContentType::Html);
            assert!(el.removed());
        });
        assert_eq!(output, "<before><foo & bar><after>");
    }
}

/// The `<script>` element as the parser hands it out in each of the documents
/// `<script></script>`, `<svg><script></script></svg>`,
/// `<svg><foreignObject><script></script></foreignObject></svg>` and
/// `<math><script></script></math>`: the parser's tree builder gives it the namespace.
#[test]
fn namespace_uri() {
    let script = |ns: Namespace| {
        Element::new(StartTag::new_parsed(b"script".to_vec(), vec![], ns, false, b"<script>".to_vec(), "utf-8"), true)
    };

    assert_eq!(script(Namespace::Html).namespace_uri(), "http://www.w3.org/1999/xhtml");
    assert_eq!(script(Namespace::Svg).namespace_uri(), "http://www.w3.org/2000/svg");
    assert_eq!(script(Namespace::Html).namespace_uri(), "http://www.w3.org/1999/xhtml");
    assert_eq!(script(Namespace::MathML).namespace_uri(), "http://www.w3.org/1998/Math/MathML");
}

#[test]
fn namespace_kept_through_rename_and_owned_copy() {
    let mut el = Element::new(
        StartTag::new_parsed(b"circle".to_vec(), vec![], Namespace::Svg, true, b"<circle/>".to_vec(), "utf-8"),
        false,
    );
    el.set_tag_name("rect").unwrap();
    assert_eq!(el.namespace_uri(), "http://www.w3.org/2000/svg");
    let (tag, _, _) = el.into_parts();
    assert_eq!(tag.to_owned().namespace_uri(), "http://www.w3.org/2000/svg");
}

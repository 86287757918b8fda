use lol_html::rewritable_units::capture_flags::TokenCaptureFlags;
use lol_html::rewritable_units::mutations::{ContentType, DynamicString, Mutations, StringChunk};
use lol_html::rewritable_units::text_encoder::StreamingHandlerSink;

fn chunk(s: &str, t: ContentType) -> StringChunk {
    StringChunk::from_str(s, t)
}

#[test]
fn dynamic_string_writes_chunks_in_order() {
    let mut content = DynamicString::new();
    content.push_back(chunk("<b>", ContentType::Html));
    content.push_back(chunk("a & b", ContentType::Text));
    content.push_front(chunk("<i>", ContentType::Html));
    assert_eq!(content.chunks().len(), 3);
    let mut sink = StreamingHandlerSink::new("utf-8");
    content.encode(&mut sink);
    assert_eq!(String::from_utf8(sink.take_output()).unwrap(), "<i><b>a &amp; b");

    let mut content = DynamicString::new();
    content.push_back(chunk("x", ContentType::Html));
    content.clear();
    assert!(content.chunks().is_empty());
}

#[test]
fn mutations_allocate_on_first_change() {
    let mut m = Mutations::new();
    assert!(!m.removed());
    assert!(m.if_mutated().is_none());
    m.mutate().content_before.push_back(chunk("<before>", ContentType::Html));
    assert!(!m.removed());
    m.mutate().replace(chunk("first", ContentType::Html));
    m.mutate().replace(chunk("second", ContentType::Text));
    assert!(m.removed());
    let inner = m.take().unwrap();
    assert!(m.take().is_none());
    assert_eq!(inner.replacement.chunks().len(), 1);
    let mut sink = StreamingHandlerSink::new("utf-8");
    inner.content_before.encode(&mut sink);
    inner.replacement.encode(&mut sink);
    assert_eq!(String::from_utf8(sink.take_output()).unwrap(), "<before>second");

    let mut m = Mutations::new();
    m.mutate().remove();
    assert!(m.removed());
    assert!(m.if_mutated().unwrap().removed);
}

#[test]
fn capture_flag_bits() {
    let mut flags = TokenCaptureFlags::empty();
    assert!(flags.is_empty());
    flags.insert(TokenCaptureFlags { bits: 2 });
    assert!(flags.contains(TokenCaptureFlags { bits: 2 }));
    assert!(!flags.contains(TokenCaptureFlags { bits: 4 }));
    let all = flags.union(TokenCaptureFlags::all());
    assert_eq!(all.bits, 31);
    flags.remove(TokenCaptureFlags { bits: 2 });
    assert!(flags.is_empty());
    assert_eq!(TokenCaptureFlags::from_bits_truncate(0xff).bits, 31);
}

#[test]
fn mutate_twice_is_mutate_once() {
    let mut m = Mutations::new();
    assert!(!m.removed());
    m.mutate().removed = true;
    m.mutate().content_before.push_back(chunk("x", ContentType::Text));
    let again = m.mutate();
    assert!(again.removed);
    assert_eq!(again.content_before.chunks().len(), 1);
    assert!(m.removed());

    let inner = m.take().unwrap();
    assert!(inner.removed);
    assert_eq!(inner.content_before.chunks().len(), 1);
    assert!(inner.replacement.chunks().is_empty());
    assert!(inner.content_after.chunks().is_empty());

    let fresh = m.mutate();
    assert!(!fresh.removed);
    assert!(fresh.content_before.chunks().is_empty());
}

use vstd::prelude::*;
use crate::base::spec_encoding_for_label;
use super::capture_flags::{TokenCaptureFlags, TEXT, COMMENTS, NEXT_START_TAG, NEXT_END_TAG, DOCTYPES};
use super::token::{Attribute, Comment, Doctype, EndTag, StartTag, TextChunk, TextType, Token, opt_bytes};
use crate::base::spec_decode;
use crate::rewriter::error::{EncodingError, rewriter_encoding, spec_rewriter_encoding};
use super::text_decoder::{StreamDecoder, decodable_len, decode_last, decode_with};
use crate::html::Namespace;

verus! {

/// A range of bytes of a lexeme's input.
#[derive(Debug, Copy, Clone, PartialEq, Eq, Structural)]
pub struct Range {
    pub start: usize,
    pub end: usize,
}

/// The range lies within an input of `len` bytes.
pub open spec fn range_in(r: Range, len: nat) -> bool {
    r.start <= r.end <= len
}

/// The optional range lies within an input of `len` bytes.
pub open spec fn opt_range_in(r: Option<Range>, len: nat) -> bool {
    match r {
        Some(r) => range_in(r, len),
        None => true,
    }
}

/// The bytes of `input` in the range.
pub open spec fn slice_of(input: Seq<u8>, r: Range) -> Seq<u8> {
    input.subrange(r.start as int, r.end as int)
}

/// The bytes of `input` in the optional range.
pub open spec fn opt_slice_of(input: Seq<u8>, r: Option<Range>) -> Option<Seq<u8>> {
    match r {
        Some(r) => Some(slice_of(input, r)),
        None => None,
    }
}

/// Where the name, the value and the whole of an attribute lie in a lexeme's input.
#[derive(Debug, Copy, Clone, PartialEq, Eq, Structural)]
pub struct AttributeOutline {
    pub name: Range,
    pub value: Range,
    pub raw_range: Range,
}

/// What the tokenizer found: the kind of token and where its parts lie in the input.
#[derive(Debug)]
#[allow(inconsistent_fields)]
pub enum TokenOutline {
    Text(TextType),
    Comment(Range),
    StartTag { name: Range, attributes: Vec<AttributeOutline>, ns: Namespace, self_closing: bool },
    EndTag { name: Range },
    Doctype { name: Option<Range>, public_id: Option<Range>, system_id: Option<Range>, force_quirks: bool },
    Eof,
}

/// A piece of the input that the tokenizer read, with the outline of the token it holds
/// where it holds one.
#[derive(Debug)]
pub struct Lexeme {
    pub input: Vec<u8>,
    pub raw_range: Range,
    pub token_outline: Option<TokenOutline>,
}

/// Every range of the outline lies within an input of `len` bytes.
pub open spec fn outline_in(o: TokenOutline, len: nat) -> bool {
    match o {
        TokenOutline::Comment(r) => range_in(r, len),
        TokenOutline::StartTag { name, attributes, .. } => range_in(name, len) && forall|i: int|
            0 <= i < attributes@.len() ==> {
                &&& range_in((#[trigger] attributes@[i]).name, len)
                &&& range_in(attributes@[i].value, len)
                &&& range_in(attributes@[i].raw_range, len)
            },
        TokenOutline::EndTag { name } => range_in(name, len),
        TokenOutline::Doctype { name, public_id, system_id, .. } => opt_range_in(name, len) && opt_range_in(
            public_id,
            len,
        ) && opt_range_in(system_id, len),
        _ => true,
    }
}

impl Lexeme {
    /// Every range lies within the input.
    pub open spec fn wf(&self) -> bool {
        &&& range_in(self.raw_range, self.input@.len())
        &&& match self.token_outline {
            Some(o) => outline_in(o, self.input@.len()),
            None => true,
        }
    }

    /// The bytes in the range.
    pub fn part(&self, r: Range) -> (b: Vec<u8>)
        requires
            range_in(r, self.input@.len()),
        ensures
            b@ == slice_of(self.input@, r),
    {
        vstd::slice::slice_to_vec(vstd::slice::slice_subrange(self.input.as_slice(), r.start, r.end))
    }

    /// The bytes in the optional range.
    pub fn opt_part(&self, r: Option<Range>) -> (b: Option<Vec<u8>>)
        requires
            opt_range_in(r, self.input@.len()),
        ensures
            opt_bytes(b) == opt_slice_of(self.input@, r),
    {
        match r {
            Some(r) => Some(self.part(r)),
            None => None,
        }
    }

    /// The bytes the lexeme was read from.
    pub fn raw(&self) -> (b: Vec<u8>)
        requires
            self.wf(),
        ensures
            b@ == slice_of(self.input@, self.raw_range),
    {
        self.part(self.raw_range)
    }
}

/// What the capturer reports: that it consumed a lexeme, or a token it produced.
#[derive(Debug)]
pub enum TokenCapturerEvent {
    LexemeConsumed,
    TokenProduced(Box<Token>),
}

/// The flag's bit is set.
pub open spec fn has_flag(flags: TokenCaptureFlags, bit: u8) -> bool {
    flags.bits & bit == bit
}

/// The event is a text chunk of the given kind, read from the document, last of its
/// text node or not.
pub open spec fn is_text_event(e: TokenCapturerEvent, kind: TextType, last: bool, encoding: Seq<char>) -> bool {
    &&& e matches TokenCapturerEvent::TokenProduced(t)
    &&& *t matches Token::TextChunk(c)
    &&& c.kind() == kind
    &&& c.is_last_in_current_boundaries() == last
    &&& c.is_parsed()
    &&& c.raw_bytes() is None
    &&& c.encoding() == encoding
}

/// The attribute was read from the input as the outline says.
pub open spec fn attribute_from(a: Attribute, o: AttributeOutline, input: Seq<u8>, encoding: Seq<char>) -> bool {
    &&& a.name_bytes() == slice_of(input, o.name)
    &&& a.value_bytes() == slice_of(input, o.value)
    &&& a.raw_bytes() == Some(slice_of(input, o.raw_range))
    &&& a.encoding() == encoding
}

/// The events for a lexeme that holds no text: the token where its kind is captured,
/// after a `LexemeConsumed`; nothing otherwise.
pub open spec fn outline_events(
    flags: TokenCaptureFlags,
    encoding: Seq<char>,
    input: Seq<u8>,
    raw: Seq<u8>,
    outline: TokenOutline,
    ev: Seq<TokenCapturerEvent>,
) -> bool {
    match outline {
        TokenOutline::Comment(text) if has_flag(flags, COMMENTS) => {
            &&& ev.len() == 2
            &&& ev[0] is LexemeConsumed
            &&& ev[1] matches TokenCapturerEvent::TokenProduced(t)
            &&& *t matches Token::Comment(c)
            &&& c.text_bytes() == slice_of(input, text)
            &&& c.raw_bytes() == Some(raw)
            &&& c.encoding() == encoding
            &&& c.mutations().content_before@.len() == 0 && c.mutations().replacements@.len() == 0
            &&& c.mutations().content_after@.len() == 0 && !c.mutations().removed
        },
        TokenOutline::StartTag { name, attributes, ns, self_closing } if has_flag(flags, NEXT_START_TAG) => {
            &&& ev.len() == 2
            &&& ev[0] is LexemeConsumed
            &&& ev[1] matches TokenCapturerEvent::TokenProduced(t)
            &&& *t matches Token::StartTag(s)
            &&& s.name_bytes() == slice_of(input, name)
            &&& s.attrs().len() == attributes@.len()
            &&& forall|i: int| 0 <= i < attributes@.len() ==> attribute_from(#[trigger] s.attrs()[i], attributes@[i], input, encoding)
            &&& s.namespace() == ns
            &&& s.is_self_closing() == self_closing
            &&& s.raw_bytes() == Some(raw)
            &&& s.encoding() == encoding
            &&& s.mutations().content_before@.len() == 0 && s.mutations().replacements@.len() == 0
            &&& s.mutations().content_after@.len() == 0 && !s.mutations().removed
        },
        TokenOutline::EndTag { name } if has_flag(flags, NEXT_END_TAG) => {
            &&& ev.len() == 2
            &&& ev[0] is LexemeConsumed
            &&& ev[1] matches TokenCapturerEvent::TokenProduced(t)
            &&& *t matches Token::EndTag(e)
            &&& e.name_bytes() == slice_of(input, name)
            &&& e.raw_bytes() == Some(raw)
            &&& e.encoding() == encoding
            &&& e.mutations().content_before@.len() == 0 && e.mutations().replacements@.len() == 0
            &&& e.mutations().content_after@.len() == 0 && !e.mutations().removed
        },
        TokenOutline::Doctype { name, public_id, system_id, force_quirks } if has_flag(flags, DOCTYPES) => {
            &&& ev.len() == 2
            &&& ev[0] is LexemeConsumed
            &&& ev[1] matches TokenCapturerEvent::TokenProduced(t)
            &&& *t matches Token::Doctype(d)
            &&& d.name_bytes() == opt_slice_of(input, name)
            &&& d.public_id_bytes() == opt_slice_of(input, public_id)
            &&& d.system_id_bytes() == opt_slice_of(input, system_id)
            &&& d.is_force_quirks() == force_quirks
            &&& d.raw_bytes() == raw
            &&& d.encoding() == encoding
        },
        _ => ev.len() == 0,
    }
}

/// The flags once a lexeme that holds no text is taken: a start tag or an end tag that
/// was asked for is captured once, and is no longer asked for.
pub open spec fn flags_after(flags: TokenCaptureFlags, outline: TokenOutline) -> TokenCaptureFlags {
    match outline {
        TokenOutline::StartTag { .. } if has_flag(flags, NEXT_START_TAG) => TokenCaptureFlags {
            bits: flags.bits & !NEXT_START_TAG,
        },
        TokenOutline::EndTag { .. } if has_flag(flags, NEXT_END_TAG) => TokenCaptureFlags {
            bits: flags.bits & !NEXT_END_TAG,
        },
        _ => flags,
    }
}

/// The text of a text chunk event; nothing for another event.
pub open spec fn event_text(e: TokenCapturerEvent) -> Seq<char> {
    match e {
        TokenCapturerEvent::TokenProduced(t) => match *t {
            Token::TextChunk(c) => c.text(),
            _ => Seq::empty(),
        },
        _ => Seq::empty(),
    }
}

/// The text of the event pushed last, where one was pushed.
pub open spec fn pushed_event_text(before: Seq<TokenCapturerEvent>, after: Seq<TokenCapturerEvent>) -> Seq<char> {
    if after.len() == before.len() + 1 {
        event_text(after.last())
    } else {
        Seq::empty()
    }
}

/// What feeding `lexeme` to the capturer `before` reports, as the events `ev` it
/// appends, and what it leaves in `after` (see `TokenCapturer::feed`).
pub open spec fn feed_events(before: TokenCapturer, after: TokenCapturer, lexeme: Lexeme, ev: Seq<TokenCapturerEvent>) -> bool {
    match lexeme.token_outline {
        Some(TokenOutline::Text(kind)) => if has_flag(before.flags(), TEXT) {
            &&& 1 <= ev.len() <= 2
            &&& ev[0] is LexemeConsumed
            &&& ev.len() == 2 ==> is_text_event(ev[1], kind, false, before.encoding())
                && event_text(ev[1]).len() > 0
            &&& after.has_pending_text()
            &&& after.last_text_kind() == kind
            &&& after.node_bytes() == before.node_bytes() + slice_of(
                lexeme.input@,
                lexeme.raw_range,
            )
            &&& after.node_text() == before.node_text() + (if ev.len() == 2 {
                event_text(ev[1])
            } else {
                Seq::empty()
            })
        } else {
            &&& ev.len() == 0
            &&& after.has_pending_text() == before.has_pending_text()
            &&& after.last_text_kind() == before.last_text_kind()
            &&& after.node_bytes() == before.node_bytes()
            &&& after.node_text() == before.node_text()
        },
        Some(o) => {
            let f: int = if before.has_pending_text() { 1 } else { 0 };
            &&& f <= ev.len()
            &&& before.has_pending_text() ==> is_text_event(
                ev[0],
                before.last_text_kind(),
                true,
                before.encoding(),
            ) && before.node_text() + event_text(ev[0]) == spec_decode(
                before.encoding(),
                before.node_bytes(),
            )
            &&& outline_events(
                before.flags(),
                before.encoding(),
                lexeme.input@,
                slice_of(lexeme.input@, lexeme.raw_range),
                o,
                ev.subrange(f, ev.len() as int),
            )
            &&& !after.has_pending_text()
            &&& after.last_text_kind() == before.last_text_kind()
        },
        None => {
            &&& ev.len() == (if before.has_pending_text() { 1int } else { 0 })
            &&& before.has_pending_text() ==> is_text_event(
                ev[0],
                before.last_text_kind(),
                true,
                before.encoding(),
            ) && before.node_text() + event_text(ev[0]) == spec_decode(
                before.encoding(),
                before.node_bytes(),
            )
            &&& !after.has_pending_text()
            &&& after.last_text_kind() == before.last_text_kind()
        },
    }
}

/// Produces tokens from lexemes, for the kinds of tokens that are captured.
pub struct TokenCapturer {
    encoding: String,
    pending_text_decoder: Option<StreamDecoder>,
    capture_flags: TokenCaptureFlags,
    document_level_capture_flags: TokenCaptureFlags,
    last_text_type: TextType,
}

impl TokenCapturer {
    /// The label of the document's encoding.
    pub closed spec fn encoding(&self) -> Seq<char> {
        self.encoding@
    }

    /// The kinds of tokens captured now.
    pub closed spec fn flags(&self) -> TokenCaptureFlags {
        self.capture_flags
    }

    /// The kinds of tokens captured throughout the document.
    pub closed spec fn document_level_flags(&self) -> TokenCaptureFlags {
        self.document_level_capture_flags
    }

    /// Whether text was decoded and the text node is not finished.
    pub closed spec fn has_pending_text(&self) -> bool {
        self.pending_text_decoder is Some
    }

    /// The kind of the text last seen.
    pub closed spec fn last_text_kind(&self) -> TextType {
        self.last_text_type
    }

    /// The bytes of the text node being decoded fed so far.
    pub closed spec fn node_bytes(&self) -> Seq<u8> {
        match self.pending_text_decoder {
            Some(d) => d.fed(),
            None => Seq::empty(),
        }
    }

    /// The text reported so far for the text node being decoded, all its chunks
    /// together.
    pub closed spec fn node_text(&self) -> Seq<char> {
        match self.pending_text_decoder {
            Some(d) => d.produced(),
            None => Seq::empty(),
        }
    }

    /// The decoder of the text node decodes the document's encoding.
    pub closed spec fn decoder_wf(&self) -> bool {
        match self.pending_text_decoder {
            Some(d) => d.label() == self.encoding@,
            None => true,
        }
    }

    /// The document's encoding is known.
    pub open spec fn wf(&self) -> bool {
        spec_encoding_for_label(self.encoding()) is Some && self.decoder_wf()
    }

    /// A capturer of the given kinds of tokens throughout the document.
    pub fn new(document_level_capture_flags: TokenCaptureFlags, encoding: &str) -> (r: TokenCapturer)
        ensures
            r.encoding() == encoding@,
            r.flags() == document_level_capture_flags,
            r.document_level_flags() == document_level_capture_flags,
            !r.has_pending_text(),
            r.decoder_wf(),
            r.last_text_kind() == TextType::Data,
    {
        TokenCapturer {
            encoding: encoding.to_owned(),
            pending_text_decoder: None,
            capture_flags: document_level_capture_flags,
            document_level_capture_flags,
            last_text_type: TextType::Data,
        }
    }

    /// A capturer for documents in the encoding named by `label`, where the rewriter
    /// supports it (see `rewriter_encoding`); the error otherwise.
    pub fn for_label(document_level_capture_flags: TokenCaptureFlags, label: &str) -> (r: Result<
        TokenCapturer,
        EncodingError,
    >)
        ensures
            match r {
                Ok(c) => spec_rewriter_encoding(label@) is Ok && c.wf() && c.encoding() == label@ && c.flags()
                    == document_level_capture_flags && c.document_level_flags() == document_level_capture_flags
                    && !c.has_pending_text() && c.last_text_kind() == TextType::Data,
                Err(e) => spec_rewriter_encoding(label@) == Err::<Seq<char>, EncodingError>(e),
            },
    {
        match rewriter_encoding(label) {
            Ok(_) => Ok(TokenCapturer::new(document_level_capture_flags, label)),
            Err(e) => Err(e),
        }
    }

    /// Whether any kind of token is captured.
    pub fn has_captures(&self) -> (r: bool)
        ensures
            r == (self.flags().bits != 0),
    {
        !self.capture_flags.is_empty()
    }

    /// Captures the given kinds of tokens besides those captured throughout the
    /// document.
    pub fn set_capture_flags(&mut self, flags: TokenCaptureFlags)
        ensures
            final(self).flags().bits == old(self).document_level_flags().bits | flags.bits,
            final(self).document_level_flags() == old(self).document_level_flags(),
            final(self).encoding() == old(self).encoding(),
            final(self).has_pending_text() == old(self).has_pending_text(),
            final(self).last_text_kind() == old(self).last_text_kind(),
            final(self).node_bytes() == old(self).node_bytes(),
            final(self).node_text() == old(self).node_text(),
            final(self).decoder_wf() == old(self).decoder_wf(),
    {
        self.capture_flags = self.document_level_capture_flags.union(flags);
    }

    /// Stops capturing start and end tags.
    pub fn stop_capturing_tags(&mut self)
        ensures
            final(self).flags().bits == old(self).flags().bits & !(NEXT_START_TAG | NEXT_END_TAG),
            final(self).document_level_flags() == old(self).document_level_flags(),
            final(self).encoding() == old(self).encoding(),
            final(self).has_pending_text() == old(self).has_pending_text(),
            final(self).last_text_kind() == old(self).last_text_kind(),
            final(self).node_bytes() == old(self).node_bytes(),
            final(self).node_text() == old(self).node_text(),
            final(self).decoder_wf() == old(self).decoder_wf(),
    {
        self.capture_flags.remove(TokenCaptureFlags { bits: NEXT_START_TAG | NEXT_END_TAG });
    }

    /// Decodes `raw` as part of the text node being read and reports the text it gives
    /// in a text chunk of the last kind of text seen, where it gives any; where `last`
    /// holds, ends the node and reports its last chunk, so that the chunks of the node
    /// together are the decoding of all its bytes.
    fn emit_text(&mut self, raw: &[u8], last: bool, events: &mut Vec<TokenCapturerEvent>)
        requires
            old(self).wf(),
            decodable_len(raw@.len()),
        ensures
            final(self).wf(),
            final(self).encoding() == old(self).encoding(),
            final(self).flags() == old(self).flags(),
            final(self).document_level_flags() == old(self).document_level_flags(),
            final(self).last_text_kind() == old(self).last_text_kind(),
            final(events)@.len() == old(events)@.len() || final(events)@.len() == old(events)@.len() + 1,
            final(events)@.subrange(0, old(events)@.len() as int) == old(events)@,
            final(events)@.len() == old(events)@.len() + 1 ==> is_text_event(
                final(events)@.last(),
                old(self).last_text_kind(),
                last,
                old(self).encoding(),
            ),
            !last ==> {
                &&& final(self).has_pending_text()
                &&& final(self).node_bytes() == old(self).node_bytes() + raw@
                &&& final(self).node_text() == old(self).node_text() + pushed_event_text(old(events)@, final(events)@)
                &&& final(events)@.len() == old(events)@.len() + 1 ==> event_text(final(events)@.last()).len() > 0
            },
            last ==> {
                &&& !final(self).has_pending_text()
                &&& final(events)@.len() == old(events)@.len() + 1
                &&& old(self).node_text() + event_text(final(events)@.last()) == spec_decode(
                    old(self).encoding(),
                    old(self).node_bytes() + raw@,
                )
            },
    {
        let decoder = match self.pending_text_decoder.take() {
            Some(d) => d,
            None => StreamDecoder::new(self.encoding.as_str()),
        };
        proof {
            assert(decoder.fed() == old(self).node_bytes());
            assert(decoder.produced() == old(self).node_text());
        }
        if last {
            let text = decode_last(decoder, raw);
            let chunk = TextChunk::new_parsed(text.as_str(), self.last_text_type, true, self.encoding.as_str());
            events.push(TokenCapturerEvent::TokenProduced(Box::new(Token::TextChunk(chunk))));
        } else {
            let mut decoder = decoder;
            let text = decode_with(&mut decoder, raw);
            self.pending_text_decoder = Some(decoder);
            if !text.as_str().is_empty() {
                let chunk = TextChunk::new_parsed(text.as_str(), self.last_text_type, false, self.encoding.as_str());
                events.push(TokenCapturerEvent::TokenProduced(Box::new(Token::TextChunk(chunk))));
            } else {
                proof {
                    assert(text@ =~= Seq::<char>::empty());
                }
            }
        }
        proof {
            assert(events@.subrange(0, old(events)@.len() as int) =~= old(events)@);
        }
    }

    /// Ends the text node being decoded, if any, reporting its last chunk.
    pub fn flush_pending_text(&mut self, events: &mut Vec<TokenCapturerEvent>)
        requires
            old(self).wf(),
        ensures
            final(self).wf(),
            !final(self).has_pending_text(),
            final(self).encoding() == old(self).encoding(),
            final(self).flags() == old(self).flags(),
            final(self).document_level_flags() == old(self).document_level_flags(),
            final(self).last_text_kind() == old(self).last_text_kind(),
            old(self).has_pending_text() ==> final(events)@.len() == old(events)@.len() + 1
                && final(events)@.subrange(0, old(events)@.len() as int) == old(events)@ && is_text_event(
                final(events)@.last(),
                old(self).last_text_kind(),
                true,
                old(self).encoding(),
            ) && old(self).node_text() + event_text(final(events)@.last()) == spec_decode(
                old(self).encoding(),
                old(self).node_bytes(),
            ),
            !old(self).has_pending_text() ==> final(events)@ == old(events)@,
    {
        if self.pending_text_decoder.is_some() {
            let empty: [u8; 0] = [];
            self.emit_text(empty.as_slice(), true, events);
            proof {
                assert(old(self).node_bytes() + empty@ =~= old(self).node_bytes());
            }
            self.pending_text_decoder = None;
        }
    }

    /// Reports the token of a lexeme that holds no text, where its kind is captured.
    fn handle_non_textual_content(&mut self, lexeme: &Lexeme, outline: &TokenOutline, events: &mut Vec<
        TokenCapturerEvent,
    >)
        requires
            lexeme.wf(),
            outline_in(*outline, lexeme.input@.len()),
        ensures
            final(self).flags() == flags_after(old(self).flags(), *outline),
            final(self).encoding() == old(self).encoding(),
            final(self).document_level_flags() == old(self).document_level_flags(),
            final(self).has_pending_text() == old(self).has_pending_text(),
            final(self).last_text_kind() == old(self).last_text_kind(),
            final(self).node_bytes() == old(self).node_bytes(),
            final(self).node_text() == old(self).node_text(),
            final(self).decoder_wf() == old(self).decoder_wf(),
            final(events)@.len() >= old(events)@.len(),
            final(events)@.subrange(0, old(events)@.len() as int) == old(events)@,
            outline_events(
                old(self).flags(),
                old(self).encoding(),
                lexeme.input@,
                slice_of(lexeme.input@, lexeme.raw_range),
                *outline,
                final(events)@.subrange(old(events)@.len() as int, final(events)@.len() as int),
            ),
    {
        let ghost n = events@.len();
        match outline {
            TokenOutline::Comment(text) => {
                if self.capture_flags.contains(TokenCaptureFlags { bits: COMMENTS }) {
                    events.push(TokenCapturerEvent::LexemeConsumed);
                    let token = Comment::new_parsed(lexeme.part(*text), lexeme.raw(), self.encoding.as_str());
                    events.push(TokenCapturerEvent::TokenProduced(Box::new(Token::Comment(token))));
                }
            },
            TokenOutline::StartTag { name, attributes, ns, self_closing } => {
                if self.capture_flags.contains(TokenCaptureFlags { bits: NEXT_START_TAG }) {
                    self.capture_flags.remove(TokenCaptureFlags { bits: NEXT_START_TAG });
                    events.push(TokenCapturerEvent::LexemeConsumed);
                    let mut attrs: Vec<Attribute> = Vec::new();
                    let mut i: usize = 0;
                    proof {
                        assert(outline_in(*outline, lexeme.input@.len()));
                        assert(forall|k: int| 0 <= k < attributes@.len() ==> {
                            &&& range_in((#[trigger] attributes@[k]).name, lexeme.input@.len())
                            &&& range_in(attributes@[k].value, lexeme.input@.len())
                            &&& range_in(attributes@[k].raw_range, lexeme.input@.len())
                        });
                    }
                    while i < attributes.len()
                        invariant
                            i <= attributes@.len(),
                            attrs@.len() == i,
                            lexeme.wf(),
                            forall|k: int| 0 <= k < attributes@.len() ==> {
                                &&& range_in((#[trigger] attributes@[k]).name, lexeme.input@.len())
                                &&& range_in(attributes@[k].value, lexeme.input@.len())
                                &&& range_in(attributes@[k].raw_range, lexeme.input@.len())
                            },
                            forall|k: int| 0 <= k < i ==> attribute_from(#[trigger] attrs@[k], attributes@[k], lexeme.input@, self.encoding()),
                        decreases attributes@.len() - i,
                    {
                        let o = attributes[i];
                        let a = Attribute::new_parsed(
                            lexeme.part(o.name),
                            lexeme.part(o.value),
                            lexeme.part(o.raw_range),
                            self.encoding.as_str(),
                        );
                        attrs.push(a);
                        i = i + 1;
                    }
                    let token = StartTag::new_parsed(
                        lexeme.part(*name),
                        attrs,
                        *ns,
                        *self_closing,
                        lexeme.raw(),
                        self.encoding.as_str(),
                    );
                    events.push(TokenCapturerEvent::TokenProduced(Box::new(Token::StartTag(token))));
                }
            },
            TokenOutline::EndTag { name } => {
                if self.capture_flags.contains(TokenCaptureFlags { bits: NEXT_END_TAG }) {
                    self.capture_flags.remove(TokenCaptureFlags { bits: NEXT_END_TAG });
                    events.push(TokenCapturerEvent::LexemeConsumed);
                    let token = EndTag::new_parsed(lexeme.part(*name), lexeme.raw(), self.encoding.as_str());
                    events.push(TokenCapturerEvent::TokenProduced(Box::new(Token::EndTag(token))));
                }
            },
            TokenOutline::Doctype { name, public_id, system_id, force_quirks } => {
                if self.capture_flags.contains(TokenCaptureFlags { bits: DOCTYPES }) {
                    events.push(TokenCapturerEvent::LexemeConsumed);
                    let token = Doctype::new_parsed(
                        lexeme.opt_part(*name),
                        lexeme.opt_part(*public_id),
                        lexeme.opt_part(*system_id),
                        *force_quirks,
                        lexeme.raw(),
                        self.encoding.as_str(),
                    );
                    events.push(TokenCapturerEvent::TokenProduced(Box::new(Token::Doctype(token))));
                }
            },
            _ => {},
        }
        proof {
            assert(events@.subrange(0, n as int) =~= old(events)@);
        }
    }

    /// Takes the next lexeme: text of a captured kind is decoded and reported (after a
    /// `LexemeConsumed`) as part of the text node being read; any other lexeme ends that
    /// text node, reporting its last chunk, and then reports its token where its kind
    /// is captured (see `outline_events`).
    pub fn feed(&mut self, lexeme: &Lexeme, events: &mut Vec<TokenCapturerEvent>)
        requires
            old(self).wf(),
            lexeme.wf(),
            decodable_len(slice_of(lexeme.input@, lexeme.raw_range).len()),
        ensures
            final(self).wf(),
            final(self).encoding() == old(self).encoding(),
            final(self).flags() == match lexeme.token_outline {
                Some(o) => flags_after(old(self).flags(), o),
                None => old(self).flags(),
            },
            final(self).document_level_flags() == old(self).document_level_flags(),
            final(events)@.len() >= old(events)@.len(),
            final(events)@.subrange(0, old(events)@.len() as int) == old(events)@,
            feed_events(
                *old(self),
                *final(self),
                *lexeme,
                final(events)@.subrange(old(events)@.len() as int, final(events)@.len() as int),
            ),
    {
        let ghost n = events@.len();
        match &lexeme.token_outline {
            Some(outline) => match outline {
                TokenOutline::Text(text_type) => {
                    if self.capture_flags.contains(TokenCaptureFlags { bits: TEXT }) {
                        self.last_text_type = *text_type;
                        events.push(TokenCapturerEvent::LexemeConsumed);
                        let raw = lexeme.raw();
                        self.emit_text(raw.as_slice(), false, events);
                        proof {
                            let ev = events@.subrange(n as int, events@.len() as int);
                            assert(ev[0] == events@[n as int]);
                            assert(events@.subrange(0, n as int) =~= old(events)@);
                            if ev.len() == 2 {
                                assert(ev[1] == events@.last());
                            }
                        }
                    } else {
                        proof {
                            assert(events@.subrange(0, n as int) =~= old(events)@);
                        }
                    }
                },
                _ => {
                    self.flush_pending_text(events);
                    let ghost m = events@.len();
                    proof {
                        assert(outline_in(*outline, lexeme.input@.len()));
                    }
                    self.handle_non_textual_content(lexeme, outline, events);
                    proof {
                        let ev = events@.subrange(n as int, events@.len() as int);
                        let f: int = if old(self).has_pending_text() { 1 } else { 0 };
                        assert(m == n + f);
                        assert(ev.subrange(f, ev.len() as int) =~= events@.subrange(m as int, events@.len() as int));
                        assert(events@.subrange(0, n as int) =~= old(events)@) by {
                            assert(events@.subrange(0, m as int).subrange(0, n as int) =~= events@.subrange(0, n as int));
                        }
                        if old(self).has_pending_text() {
                            assert(ev[0] == events@[n as int]);
                            assert(events@.subrange(0, m as int)[n as int] == events@[n as int]);
                        }
                    }
                },
            },
            None => {
                self.flush_pending_text(events);
                proof {
                    let ev = events@.subrange(n as int, events@.len() as int);
                    if old(self).has_pending_text() {
                        assert(ev[0] == events@.last());
                    }
                    assert(events@.subrange(0, n as int) =~= old(events)@);
                }
            },
        }
    }
}

} // verus!

use super::mutations::ContentType;
use crate::base::{encode_text, encoded_chars, encoding_for_label, spec_encoding_for_label};
use crate::rewriter::error::{EncodingError, rewriter_encoding, spec_rewriter_encoding};
use vstd::prelude::*;
use vstd::string::StringSliceAdditionalSpecFns;
use vstd::utf8::*;

verus! {

broadcast use {vstd::utf8::encode_utf8_valid_utf8, vstd::utf8::encode_utf8_decode_utf8};

/// Input contained non-UTF-8 byte sequence.
#[derive(Debug, Copy, Clone, PartialEq, Eq, Structural)]
pub struct Utf8Error;

/// A byte that starts a character in UTF-8: an ASCII byte or the first byte of a
/// multi-byte sequence, not a continuation byte.
pub open spec fn spec_is_utf8_char_boundary(b: u8) -> bool {
    b < 128 || b >= 192
}

/// Returns `true` for the bytes that start a character in UTF-8.
pub fn is_utf8_char_boundary(b: u8) -> (r: bool)
    ensures
        r == spec_is_utf8_char_boundary(b),
{
    b < 128 || b >= 192
}

/// The HTML-escaped form of a byte of text: `<`, `>` and `&` become `&lt;`, `&gt;`
/// and `&amp;`.
pub open spec fn escape_byte(b: u8) -> Seq<u8> {
    if b == 60u8 {
        seq![38u8, 108u8, 116u8, 59u8]
    } else if b == 62u8 {
        seq![38u8, 103u8, 116u8, 59u8]
    } else if b == 38u8 {
        seq![38u8, 97u8, 109u8, 112u8, 59u8]
    } else {
        seq![b]
    }
}

/// The HTML-escaped form of text.
pub open spec fn escape_body_text(s: Seq<u8>) -> Seq<u8>
    decreases s.len(),
{
    if s.len() == 0 {
        Seq::empty()
    } else {
        escape_body_text(s.drop_last()) + escape_byte(s.last())
    }
}

/// Appends the HTML-escaped form of `text` to `out`.
pub fn push_escaped_body_text(text: &[u8], out: &mut Vec<u8>)
    ensures
        final(out)@ == old(out)@ + escape_body_text(text@),
{
    let mut i: usize = 0;
    proof {
        assert(text@.take(0) =~= Seq::<u8>::empty());
        assert(old(out)@ + escape_body_text(Seq::<u8>::empty()) =~= old(out)@);
    }
    while i < text.len()
        invariant
            i <= text@.len(),
            out@ == old(out)@ + escape_body_text(text@.take(i as int)),
        decreases text@.len() - i,
    {
        let b = text[i];
        let ghost before = out@;
        if b == 60u8 {
            out.push(38u8);
            out.push(108u8);
            out.push(116u8);
            out.push(59u8);
        } else if b == 62u8 {
            out.push(38u8);
            out.push(103u8);
            out.push(116u8);
            out.push(59u8);
        } else if b == 38u8 {
            out.push(38u8);
            out.push(97u8);
            out.push(109u8);
            out.push(112u8);
            out.push(59u8);
        } else {
            out.push(b);
        }
        proof {
            assert(out@ =~= before + escape_byte(b));
            assert(text@.take(i + 1).drop_last() =~= text@.take(i as int));
            assert(old(out)@ + escape_body_text(text@.take(i as int)) + escape_byte(b) =~= old(out)@
                + escape_body_text(text@.take(i + 1)));
        }
        i = i + 1;
    }
    proof {
        assert(text@.take(text@.len() as int) =~= text@);
    }
}


/// Number of ASCII bytes at the start of `b`.
pub open spec fn ascii_prefix_len(b: Seq<u8>) -> nat
    decreases b.len(),
{
    if b.len() == 0 || b[0] >= 128 {
        0
    } else {
        1 + ascii_prefix_len(b.drop_first())
    }
}

/// `ascii_prefix_len` is the one index up to which every byte is ASCII and at which a
/// non-ASCII byte (or the end) stands.
pub proof fn lemma_ascii_prefix_len(b: Seq<u8>, n: int)
    requires
        0 <= n <= b.len(),
        forall|i: int| 0 <= i < n ==> b[i] < 128,
        n < b.len() ==> b[n] >= 128,
    ensures
        ascii_prefix_len(b) == n,
    decreases n,
{
    if n > 0 {
        lemma_ascii_prefix_len(b.drop_first(), n - 1);
    }
}

/// In valid UTF-8, the index that follows a run of ASCII bytes at the start is a
/// character boundary.
pub proof fn lemma_ascii_run_boundary(b: Seq<u8>, n: int)
    requires
        valid_utf8(b),
        0 <= n <= b.len(),
        forall|i: int| 0 <= i < n ==> b[i] < 128,
    ensures
        is_char_boundary(b, n),
    decreases n,
{
    if n > 0 {
        let rest = pop_first_scalar(b);
        assert(rest =~= b.subrange(1, b.len() as int));
        assert forall|i: int| 0 <= i < n - 1 implies rest[i] < 128 by {
            assert(rest[i] == b[i + 1]);
        }
        lemma_ascii_run_boundary(rest, n - 1);
    }
}

/// `Encoding::ascii_valid_up_to` of `encoding_rs`: the index of the first byte that is
/// not ASCII, or the length where there is none.
#[verifier::external_body]
fn ascii_valid_up_to(bytes: &[u8]) -> (r: usize)
    ensures
        r <= bytes@.len(),
        forall|i: int| 0 <= i < r ==> bytes@[i] < 128,
        r < bytes@.len() ==> bytes@[r as int] >= 128,
{
    encoding_rs::Encoding::ascii_valid_up_to(bytes)
}

/// Whether the bytes that follow the longest valid UTF-8 prefix of `bytes` are only
/// cut short, the input having ended inside a character: the bytes are the start of
/// valid UTF-8.
pub open spec fn utf8_cut_short(bytes: Seq<u8>) -> bool {
    exists|ext: Seq<u8>| #[trigger] valid_utf8(bytes + ext)
}

/// `std::str::from_utf8`: the bytes as a string where they are valid UTF-8; otherwise
/// `valid_up_to`, the largest index up to which they are valid, and whether
/// `Utf8Error::error_len` gives `None`. Its documentation gives `None` exactly where the
/// end of the input was reached inside a character that more bytes could finish, that
/// is where the bytes are the start of valid UTF-8, and `Some` where an unexpected byte
/// was met.
#[verifier::external_body]
fn str_from_utf8(bytes: &[u8]) -> (r: Result<&str, (usize, bool)>)
    ensures
        r is Ok <==> valid_utf8(bytes@),
        match r {
            Ok(s) => s.spec_bytes() == bytes@,
            Err((n, cut_short)) => {
                &&& n < bytes@.len()
                &&& valid_utf8(bytes@.take(n as int))
                &&& forall|k: int| n < k <= bytes@.len() ==> !valid_utf8(#[trigger] bytes@.take(k))
                &&& cut_short == utf8_cut_short(bytes@)
            },
        },
{
    match std::str::from_utf8(bytes) {
        Ok(s) => Ok(s),
        Err(e) => Err((e.valid_up_to(), e.error_len().is_none())),
    }
}

/// What `TextEncoder::encode` writes for the UTF-8 bytes `b`: the leading ASCII bytes
/// as they are, then the rest encoded by `encoding_rs`.
pub open spec fn text_encode(label: Seq<char>, b: Seq<u8>) -> Seq<u8> {
    let a = ascii_prefix_len(b);
    if a < b.len() {
        b.take(a as int) + encoded_chars(label, decode_utf8(b.skip(a as int)))
    } else {
        b
    }
}

/// ASCII bytes go through `text_encode` unchanged.
pub proof fn lemma_text_encode_ascii(label: Seq<char>, b: Seq<u8>)
    requires
        forall|i: int| 0 <= i < b.len() ==> b[i] < 128,
    ensures
        text_encode(label, b) == b,
{
    lemma_ascii_prefix_len(b, b.len() as int);
}

/// Appends `bytes` to `out`.
fn push_all(out: &mut Vec<u8>, bytes: &[u8])
    ensures
        final(out)@ == old(out)@ + bytes@,
{
    let mut i: usize = 0;
    while i < bytes.len()
        invariant
            i <= bytes@.len(),
            out@ == old(out)@ + bytes@.take(i as int),
        decreases bytes@.len() - i,
    {
        out.push(bytes[i]);
        i = i + 1;
        proof {
            assert(bytes@.take(i as int) =~= bytes@.take(i - 1) + seq![bytes@[i - 1]]);
        }
    }
    proof {
        assert(bytes@.take(bytes@.len() as int) =~= bytes@);
    }
}

/// Encodes text into an ASCII-compatible encoding other than UTF-8.
pub struct TextEncoder {
    encoding: String,
}

impl TextEncoder {
    /// The label of the encoding.
    pub closed spec fn label(&self) -> Seq<char> {
        self.encoding@
    }

    /// The label names an encoding.
    pub open spec fn wf(&self) -> bool {
        spec_encoding_for_label(self.label()) is Some
    }

    /// An encoder for the encoding named by `encoding`.
    pub fn new(encoding: &str) -> (r: TextEncoder)
        requires
            spec_encoding_for_label(encoding@) is Some,
        ensures
            r.label() == encoding@,
            r.wf(),
    {
        TextEncoder { encoding: encoding.to_owned() }
    }

    /// Appends `content` in the encoding to `out`: the leading ASCII run as it is, the
    /// rest through `encoding_rs`, which writes characters the encoding lacks as numeric
    /// character references.
    pub fn encode(&self, content: &str, out: &mut Vec<u8>)
        requires
            self.wf(),
        ensures
            final(out)@ == old(out)@ + text_encode(self.label(), content.spec_bytes()),
    {
        let bytes = content.as_bytes();
        let a = ascii_valid_up_to(bytes);
        proof {
            lemma_ascii_prefix_len(bytes@, a as int);
        }
        let mut i: usize = 0;
        while i < a
            invariant
                i <= a <= bytes@.len(),
                out@ == old(out)@ + bytes@.take(i as int),
            decreases a - i,
        {
            out.push(bytes[i]);
            i = i + 1;
            proof {
                assert(bytes@.take(i as int) =~= bytes@.take(i - 1) + seq![bytes@[i - 1]]);
            }
        }
        if a < bytes.len() {
            proof {
                lemma_ascii_run_boundary(bytes@, a as int);
            }
            let (_, rest) = content.split_at(a);
            proof {
                assert(rest.spec_bytes() =~= bytes@.skip(a as int));
                assert(decode_utf8(encode_utf8(rest@)) == rest@);
            }
            match encode_text(self.encoding.as_str(), rest) {
                Some((encoded, _)) => {
                    let mut encoded = encoded;
                    out.append(&mut encoded);
                },
                None => {},
            }
        } else {
            proof {
                assert(bytes@.take(a as int) =~= bytes@);
            }
        }
    }
}


/// `<`, `>` and `&`: the bytes that text escaping replaces.
pub open spec fn is_special(b: u8) -> bool {
    b == 60u8 || b == 62u8 || b == 38u8
}

/// Index of the first byte of `b` that text escaping replaces, or its length.
pub open spec fn first_special(b: Seq<u8>) -> nat
    decreases b.len(),
{
    if b.len() == 0 || is_special(b[0]) {
        0
    } else {
        1 + first_special(b.drop_first())
    }
}

/// `first_special` is the one index before which no byte is special and at which a
/// special byte (or the end) stands.
pub proof fn lemma_first_special(b: Seq<u8>, n: int)
    requires
        0 <= n <= b.len(),
        forall|i: int| 0 <= i < n ==> !is_special(#[trigger] b[i]),
        n < b.len() ==> is_special(b[n]),
    ensures
        first_special(b) == n,
    decreases n,
{
    if n > 0 {
        lemma_first_special(b.drop_first(), n - 1);
    }
}

/// Number of UTF-8 continuation bytes at the start of `b`.
pub open spec fn leading_continuations(b: Seq<u8>) -> nat
    decreases b.len(),
{
    if b.len() == 0 || !is_continuation_byte(b[0]) {
        0
    } else {
        1 + leading_continuations(b.drop_first())
    }
}

/// `leading_continuations` is the one index before which every byte is a continuation
/// byte and at which another byte (or the end) stands.
pub proof fn lemma_leading_continuations(b: Seq<u8>, n: int)
    requires
        0 <= n <= b.len(),
        forall|i: int| 0 <= i < n ==> is_continuation_byte(#[trigger] b[i]),
        n < b.len() ==> !is_continuation_byte(b[n]),
    ensures
        leading_continuations(b) == n,
    decreases n,
{
    if n > 0 {
        lemma_leading_continuations(b.drop_first(), n - 1);
    }
}

/// Where the first `n` bytes are continuation bytes, at least `n` lead the sequence.
pub proof fn lemma_leading_continuations_at_least(b: Seq<u8>, n: int)
    requires
        0 <= n <= b.len(),
        forall|i: int| 0 <= i < n ==> is_continuation_byte(#[trigger] b[i]),
    ensures
        leading_continuations(b) >= n,
    decreases n,
{
    if n > 0 {
        assert forall|i: int| 0 <= i < n - 1 implies is_continuation_byte(#[trigger] b.drop_first()[i]) by {
            assert(b.drop_first()[i] == b[i + 1]);
        }
        lemma_leading_continuations_at_least(b.drop_first(), n - 1);
    }
}

/// The length of the longest prefix of `b` that is valid UTF-8.
pub open spec fn valid_prefix_len(b: Seq<u8>) -> int {
    choose|n: int|
        0 <= n <= b.len() && valid_utf8(b.take(n)) && forall|k: int|
            n < k <= b.len() ==> !valid_utf8(#[trigger] b.take(k))
}

/// Two longest valid prefixes are the same.
pub proof fn lemma_valid_prefix_len(b: Seq<u8>, n: int)
    requires
        0 <= n <= b.len(),
        valid_utf8(b.take(n)),
        forall|k: int| n < k <= b.len() ==> !valid_utf8(#[trigger] b.take(k)),
    ensures
        valid_prefix_len(b) == n,
{
    let m = valid_prefix_len(b);
    assert(0 <= m <= b.len() && valid_utf8(b.take(m)) && forall|k: int|
        m < k <= b.len() ==> !valid_utf8(#[trigger] b.take(k)));
    if m < n {
        assert(!valid_utf8(b.take(n)));
    } else if n < m {
        assert(!valid_utf8(b.take(m)));
    }
}

/// What the sink writes for UTF-8 bytes: the bytes themselves where the output is
/// UTF-8 (`target` is `None`), their encoded form in the encoding named by the label
/// otherwise.
pub open spec fn emit(target: Option<Seq<char>>, b: Seq<u8>) -> Seq<u8> {
    match target {
        None => b,
        Some(label) => text_encode(label, b),
    }
}

/// What the sink writes for text that it escapes: each run without `<`, `>` or `&`
/// written as by `emit`, each of those three as its entity.
pub open spec fn escape_emit(target: Option<Seq<char>>, b: Seq<u8>) -> Seq<u8>
    decreases b.len(),
{
    let j = first_special(b);
    if j < b.len() {
        emit(target, b.take(j as int)) + escape_byte(b[j as int]) + escape_emit(
            target,
            b.skip(j as int + 1),
        )
    } else {
        emit(target, b)
    }
}

/// A string with a character has bytes.
pub proof fn lemma_encode_utf8_nonempty(chars: Seq<char>)
    requires
        chars.len() > 0,
    ensures
        encode_utf8(chars).len() > 0,
{
    let first = encode_scalar(chars[0] as u32);
    assert(first.len() > 0);
    assert(encode_utf8(chars) == first + encode_utf8(chars.drop_first()));
}

/// Nothing is written for no bytes.
pub proof fn lemma_escape_emit_empty(target: Option<Seq<char>>, b: Seq<u8>)
    requires
        b.len() == 0,
    ensures
        emit(target, b) == b,
        escape_emit(target, b) == b,
{
    assert(ascii_prefix_len(b) == 0);
}

/// What the sink writes for content of the given type.
pub open spec fn emit_content(target: Option<Seq<char>>, b: Seq<u8>, content_type: ContentType) -> Seq<u8> {
    match content_type {
        ContentType::Html => emit(target, b),
        ContentType::Text => escape_emit(target, b),
    }
}

/// The UTF-8 form of U+FFFD, the replacement character.
pub open spec fn replacement_char_bytes() -> Seq<u8> {
    encode_utf8(seq!['\u{FFFD}'])
}

/// What completing a chunk of UTF-8 gives, from the bytes `p` of an unfinished
/// character left by the previous chunk and the chunk `c`: whether it succeeds, what
/// is written for the finished character, the bytes left unfinished, and the text of
/// the chunk that can be written now.
///
/// Continuation bytes at the start of the chunk go on the unfinished character (at most
/// four bytes in all, else it fails). A chunk made only of them is kept, and written
/// once it forms a character. Otherwise the unfinished character must now be complete
/// (else it fails); the rest of the chunk is text, except for a cut-short character of
/// at most three bytes at its end, which is kept; any other invalid UTF-8 fails.
pub open spec fn completion(target: Option<Seq<char>>, p: Seq<u8>, c: Seq<u8>) -> (
    bool,
    Seq<u8>,
    Seq<u8>,
    Seq<u8>,
) {
    let k = leading_continuations(c);
    if p.len() + k > 4 {
        (false, Seq::empty(), p + c.take(4 - p.len()), Seq::empty())
    } else if k == c.len() && k > 0 {
        let q = p + c;
        if q.len() > 1 && valid_utf8(q) {
            (true, emit(target, q), Seq::empty(), Seq::empty())
        } else {
            (true, Seq::empty(), q, Seq::empty())
        }
    } else {
        let q = p + c.take(k as int);
        if q.len() > 0 && !valid_utf8(q) {
            (false, Seq::empty(), q, Seq::empty())
        } else {
            let r = c.skip(k as int);
            if valid_utf8(r) {
                (true, emit(target, q), Seq::empty(), r)
            } else {
                let n = valid_prefix_len(r);
                if utf8_cut_short(r) && r.len() - n <= 3 {
                    (true, emit(target, q), r.skip(n), r.take(n))
                } else {
                    (false, emit(target, q), Seq::empty(), Seq::empty())
                }
            }
        }
    }
}

/// What writing the UTF-8 chunk `c` gives: whether it succeeds, the bytes written and
/// the bytes of an unfinished character kept for the next chunk.
pub open spec fn chunk_outcome(
    target: Option<Seq<char>>,
    p: Seq<u8>,
    c: Seq<u8>,
    content_type: ContentType,
) -> (bool, Seq<u8>, Seq<u8>) {
    let (ok, flushed, pending, text) = completion(target, p, c);
    (ok, flushed + emit_content(target, text, content_type), pending)
}

/// A chunk that is valid UTF-8 by itself, written when no character is unfinished, is
/// written whole and leaves nothing unfinished; so a text written in chunks split at
/// character boundaries is written as a whole.
pub proof fn lemma_valid_chunk_written_whole(target: Option<Seq<char>>, c: Seq<u8>, content_type: ContentType)
    requires
        valid_utf8(c),
    ensures
        chunk_outcome(target, Seq::empty(), c, content_type) == (
            true,
            emit_content(target, c, content_type),
            Seq::<u8>::empty(),
        ),
{
    if c.len() > 0 {
        assert(valid_first_scalar(c));
        assert(!is_continuation_byte(c[0]));
    }
    assert(leading_continuations(c) == 0);
    let q = Seq::<u8>::empty() + c.take(0);
    assert(q =~= Seq::<u8>::empty());
    assert(c.skip(0) =~= c);
    lemma_escape_emit_empty(target, q);
    let (ok, flushed, pending, text) = completion(target, Seq::empty(), c);
    assert(flushed =~= Seq::<u8>::empty());
    assert(flushed + emit_content(target, text, content_type) =~= emit_content(target, c, content_type));
}

/// Index of the first byte that text escaping replaces, or the length.
fn find_special(bytes: &[u8]) -> (r: usize)
    ensures
        r == first_special(bytes@),
        r <= bytes@.len(),
        r < bytes@.len() ==> is_special(bytes@[r as int]),
        forall|i: int| 0 <= i < r ==> !is_special(#[trigger] bytes@[i]),
{
    let mut i: usize = 0;
    while i < bytes.len() && !(bytes[i] == 60u8 || bytes[i] == 62u8 || bytes[i] == 38u8)
        invariant
            i <= bytes@.len(),
            forall|j: int| 0 <= j < i ==> !is_special(#[trigger] bytes@[j]),
        decreases bytes@.len() - i,
    {
        i = i + 1;
    }
    proof {
        lemma_first_special(bytes@, i as int);
    }
    i
}

/// Writes chunks of text or markup, in the output encoding, to the output; what a
/// streaming handler writes its content with.
pub struct StreamingHandlerSink {
    non_utf8_encoder: Option<TextEncoder>,
    output: Vec<u8>,
    incomplete_bytes: Vec<u8>,
}

impl StreamingHandlerSink {
    /// The output encoding: `None` for UTF-8, else the label of the encoding.
    pub closed spec fn target(&self) -> Option<Seq<char>> {
        match self.non_utf8_encoder {
            Some(e) => Some(e.label()),
            None => None,
        }
    }

    /// The bytes written so far.
    pub closed spec fn written(&self) -> Seq<u8> {
        self.output@
    }

    /// The bytes of a character that a chunk left unfinished.
    pub closed spec fn pending(&self) -> Seq<u8> {
        self.incomplete_bytes@
    }

    /// At most four unfinished bytes; the output encoding is known.
    pub closed spec fn wf(&self) -> bool {
        &&& self.incomplete_bytes@.len() <= 4
        &&& match self.non_utf8_encoder {
            Some(e) => e.wf(),
            None => true,
        }
    }

    /// A sink that writes in the encoding named by `encoding`.
    pub fn new(encoding: &str) -> (r: StreamingHandlerSink)
        requires
            spec_encoding_for_label(encoding@) is Some,
        ensures
            r.wf(),
            r.written() == Seq::<u8>::empty(),
            r.pending() == Seq::<u8>::empty(),
            r.target() == (if spec_encoding_for_label(encoding@) == Some("UTF-8"@) {
                None::<Seq<char>>
            } else {
                Some(encoding@)
            }),
    {
        let utf8_name = "UTF-8".to_owned();
        let is_utf8 = match encoding_for_label(encoding) {
            Some(name) => name == utf8_name,
            None => false,
        };
        let non_utf8_encoder = if is_utf8 {
            None
        } else {
            Some(TextEncoder::new(encoding))
        };
        StreamingHandlerSink { non_utf8_encoder, output: Vec::new(), incomplete_bytes: Vec::new() }
    }

    /// A sink for the encoding named by `label`, where the rewriter supports it (see
    /// `rewriter_encoding`); the error otherwise.
    pub fn for_label(label: &str) -> (r: Result<StreamingHandlerSink, EncodingError>)
        ensures
            match r {
                Ok(sink) => spec_rewriter_encoding(label@) is Ok && sink.wf() && sink.written() == Seq::<u8>::empty()
                    && sink.pending() == Seq::<u8>::empty() && sink.target() == (if spec_encoding_for_label(
                    label@,
                ) == Some("UTF-8"@) {
                    None::<Seq<char>>
                } else {
                    Some(label@)
                }),
                Err(e) => spec_rewriter_encoding(label@) == Err::<Seq<char>, EncodingError>(e),
            },
    {
        match rewriter_encoding(label) {
            Ok(_) => Ok(StreamingHandlerSink::new(label)),
            Err(e) => Err(e),
        }
    }

    /// The bytes written so far.
    pub fn output(&self) -> (r: &Vec<u8>)
        ensures
            r@ == self.written(),
    {
        &self.output
    }

    /// Hands out the bytes written so far and starts anew.
    pub fn take_output(&mut self) -> (r: Vec<u8>)
        ensures
            r@ == old(self).written(),
            final(self).written() == Seq::<u8>::empty(),
            final(self).pending() == old(self).pending(),
            final(self).target() == old(self).target(),
            old(self).wf() ==> final(self).wf(),
    {
        let mut taken = Vec::new();
        std::mem::swap(&mut taken, &mut self.output);
        taken
    }

    /// Writes `html` in the output encoding, as it is.
    pub fn write_html_inner(&mut self, html: &str)
        requires
            old(self).wf(),
        ensures
            final(self).wf(),
            final(self).written() == old(self).written() + emit(old(self).target(), html.spec_bytes()),
            final(self).pending() == old(self).pending(),
            final(self).target() == old(self).target(),
    {
        match &self.non_utf8_encoder {
            Some(encoder) => encoder.encode(html, &mut self.output),
            None => push_all(&mut self.output, html.as_bytes()),
        }
    }

    /// Drops the bytes of an unfinished character, writing U+FFFD in their place.
    pub fn discard_incomplete_utf8(&mut self)
        requires
            old(self).wf(),
        ensures
            final(self).wf(),
            final(self).written() == old(self).written() + (if old(self).pending().len() > 0 {
                emit(old(self).target(), replacement_char_bytes())
            } else {
                Seq::empty()
            }),
            final(self).pending() == Seq::<u8>::empty(),
            final(self).target() == old(self).target(),
    {
        if self.incomplete_bytes.len() > 0 {
            self.incomplete_bytes = Vec::new();
            let replacement = "\u{FFFD}";
            proof {
                reveal_strlit("\u{FFFD}");
                assert(replacement@ =~= seq!['\u{FFFD}']);
            }
            self.write_html_inner(replacement);
        }
    }

    /// Writes the bytes of an unfinished character where they now form valid UTF-8.
    fn flush_incomplete_utf8(&mut self) -> (r: Option<()>)
        requires
            old(self).wf(),
        ensures
            final(self).wf(),
            final(self).target() == old(self).target(),
            r is Some <==> valid_utf8(old(self).pending()),
            r is Some ==> final(self).written() == old(self).written() + emit(
                old(self).target(),
                old(self).pending(),
            ) && final(self).pending() == Seq::<u8>::empty(),
            r is None ==> final(self).written() == old(self).written() && final(self).pending()
                == old(self).pending(),
    {
        let tmp = vstd::slice::slice_to_vec(self.incomplete_bytes.as_slice());
        match str_from_utf8(tmp.as_slice()) {
            Ok(completed) => {
                self.incomplete_bytes = Vec::new();
                self.write_html_inner(completed);
                Some(())
            },
            Err(_) => None,
        }
    }

    /// Writes bytes that are already in the output encoding as they are, after dropping
    /// an unfinished character.
    pub fn write_raw(&mut self, bytes: &[u8])
        requires
            old(self).wf(),
        ensures
            final(self).wf(),
            final(self).written() == old(self).written() + (if old(self).pending().len() > 0 {
                emit(old(self).target(), replacement_char_bytes())
            } else {
                Seq::empty()
            }) + bytes@,
            final(self).pending() == Seq::<u8>::empty(),
            final(self).target() == old(self).target(),
    {
        self.discard_incomplete_utf8();
        push_all(&mut self.output, bytes);
    }

    /// Writes `html` as it is, after dropping an unfinished character.
    pub fn write_html(&mut self, html: &str)
        requires
            old(self).wf(),
        ensures
            final(self).wf(),
            final(self).written() == old(self).written() + (if old(self).pending().len() > 0 {
                emit(old(self).target(), replacement_char_bytes())
            } else {
                Seq::empty()
            }) + emit(old(self).target(), html.spec_bytes()),
            final(self).pending() == Seq::<u8>::empty(),
            final(self).target() == old(self).target(),
    {
        self.discard_incomplete_utf8();
        self.write_html_inner(html);
    }

    /// Writes the part of `rest` up to and including its first `<`, `>` or `&`
    /// (escaped), or all of it where it has none, and gives what is left.
    #[verifier::rlimit(60)]
    fn write_escaped_piece<'a>(&mut self, rest: &'a str) -> (left: &'a str)
        requires
            old(self).wf(),
            rest@.len() > 0,
        ensures
            final(self).wf(),
            final(self).pending() == old(self).pending(),
            final(self).target() == old(self).target(),
            left.spec_bytes().len() < rest.spec_bytes().len(),
            old(self).written() + escape_emit(old(self).target(), rest.spec_bytes())
                == final(self).written() + escape_emit(old(self).target(), left.spec_bytes()),
    {
        proof {
            lemma_encode_utf8_nonempty(rest@);
        }
        let bytes = rest.as_bytes();
        let j = find_special(bytes);
        let ghost rb = rest.spec_bytes();
        let ghost t = self.target();
        if j == bytes.len() {
            self.write_html_inner(rest);
            let empty = "";
            proof {
                reveal_strlit("");
                assert(empty@ =~= Seq::<char>::empty());
                lemma_escape_emit_empty(t, empty.spec_bytes());
                assert(escape_emit(t, rb) == emit(t, rb));
            }
            empty
        } else {
            proof {
                is_char_boundary_iff_not_is_continuation_byte(rb, j as int);
            }
            let (head, tail) = rest.split_at(j);
            self.write_html_inner(head);
            let b = bytes[j];
            let ghost before = self.output@;
            if b == 60u8 {
                self.output.push(38u8);
                self.output.push(108u8);
                self.output.push(116u8);
                self.output.push(59u8);
            } else if b == 62u8 {
                self.output.push(38u8);
                self.output.push(103u8);
                self.output.push(116u8);
                self.output.push(59u8);
            } else {
                self.output.push(38u8);
                self.output.push(97u8);
                self.output.push(109u8);
                self.output.push(112u8);
                self.output.push(59u8);
            }
            proof {
                assert(self.output@ =~= before + escape_byte(b));
                assert(tail.spec_bytes() =~= rb.skip(j as int));
                assert(tail.spec_bytes()[0] == b);
                lemma_ascii_run_boundary(tail.spec_bytes(), 1);
            }
            let (_, after) = tail.split_at(1);
            proof {
                assert(after.spec_bytes() =~= rb.skip(j + 1));
                assert(head.spec_bytes() =~= rb.take(j as int));
                assert(escape_emit(t, rb) == emit(t, rb.take(j as int)) + escape_byte(rb[j as int])
                    + escape_emit(t, rb.skip(j + 1)));
            }
            after
        }
    }

    /// Writes `text` with `<`, `>` and `&` escaped.
    fn write_escaped(&mut self, text: &str)
        requires
            old(self).wf(),
        ensures
            final(self).wf(),
            final(self).written() == old(self).written() + escape_emit(
                old(self).target(),
                text.spec_bytes(),
            ),
            final(self).pending() == old(self).pending(),
            final(self).target() == old(self).target(),
    {
        let mut rest: &str = text;
        while !rest.is_empty()
            invariant
                self.wf(),
                self.pending() == old(self).pending(),
                self.target() == old(self).target(),
                old(self).written() + escape_emit(old(self).target(), text.spec_bytes())
                    == self.written() + escape_emit(old(self).target(), rest.spec_bytes()),
            decreases rest.spec_bytes().len(),
        {
            rest = self.write_escaped_piece(rest);
        }
        proof {
            assert(rest.spec_bytes() == encode_utf8(rest@));
            lemma_escape_emit_empty(old(self).target(), rest.spec_bytes());
        }
    }

    /// Takes a chunk of UTF-8 that may start or end inside a character: finishes the
    /// character that the previous chunk left unfinished, keeps a character that this
    /// one cuts short, and gives the text between them (see `completion`).
    #[verifier::rlimit(60)]
    fn make_complete_utf8<'c>(&mut self, content: &'c [u8]) -> (r: Option<&'c str>)
        requires
            old(self).wf(),
        ensures
            final(self).wf(),
            final(self).target() == old(self).target(),
            ({
                let (ok, flushed, pending, text) = completion(
                    old(self).target(),
                    old(self).pending(),
                    content@,
                );
                &&& r is Some == ok
                &&& final(self).written() == old(self).written() + flushed
                &&& final(self).pending() == pending
                &&& r matches Some(s) ==> s.spec_bytes() == text
            }),
    {
        let ghost p = self.incomplete_bytes@;
        let ghost c = content@;
        let ghost t = self.target();
        let mut k: usize = 0;
        while k < content.len() && !is_utf8_char_boundary(content[k])
            invariant
                self.wf(),
                self.target() == t,
                self.written() == old(self).written(),
                self.incomplete_bytes@ == p + c.take(k as int),
                p == old(self).pending(),
                t == old(self).target(),
                c == content@,
                k <= c.len(),
                k < c.len() || c.len() == 0,
                p.len() + k <= 4,
                forall|i: int| 0 <= i < k ==> is_continuation_byte(#[trigger] c[i]),
            decreases c.len() - k,
        {
            if self.incomplete_bytes.len() >= 4 {
                proof {
                    lemma_leading_continuations_at_least(c, k as int + 1);
                    assert(c.take(4 - p.len()) =~= c.take(k as int));
                }
                return None;
            }
            self.incomplete_bytes.push(content[k]);
            k = k + 1;
            proof {
                assert(c.take(k as int) =~= c.take(k - 1) + seq![c[k - 1]]);
            }
            if k == content.len() {
                proof {
                    lemma_leading_continuations(c, k as int);
                    assert(c.take(k as int) =~= c);
                }
                let ghost before = self.written();
                let ghost q = self.incomplete_bytes@;
                proof {
                    assert(q == p + c);
                    assert(leading_continuations(c) == c.len());
                    assert(before == old(self).written());
                }
                if self.incomplete_bytes.len() > 1 {
                    let _ = self.flush_incomplete_utf8();
                    proof {
                        if valid_utf8(q) {
                            assert(self.written() == before + emit(t, q));
                            assert(self.pending() == Seq::<u8>::empty());
                        } else {
                            assert(self.pending() == q);
                        }
                    }
                }
                let empty = "";
                proof {
                    reveal_strlit("");
                    assert(empty@ =~= Seq::<char>::empty());
                    assert(empty.spec_bytes() == encode_utf8(empty@));
                    assert(before + Seq::<u8>::empty() =~= before);
                }
                return Some(empty);
            }
        }
        proof {
            lemma_leading_continuations(c, k as int);
        }
        if self.incomplete_bytes.len() > 0 {
            if self.flush_incomplete_utf8().is_none() {
                return None;
            }
        } else {
            proof {
                lemma_escape_emit_empty(t, self.incomplete_bytes@);
            }
        }
        let rest = vstd::slice::slice_subrange(content, k, content.len());
        proof {
            assert(rest@ =~= c.skip(k as int));
        }
        match str_from_utf8(rest) {
            Ok(text) => Some(text),
            Err((n, cut_short)) => {
                proof {
                    lemma_valid_prefix_len(rest@, n as int);
                }
                if cut_short && rest.len() - n <= 3 {
                    let valid = vstd::slice::slice_subrange(rest, 0, n);
                    let tail = vstd::slice::slice_subrange(rest, n, rest.len());
                    self.incomplete_bytes = vstd::slice::slice_to_vec(tail);
                    proof {
                        assert(valid@ =~= rest@.take(n as int));
                        assert(tail@ =~= rest@.skip(n as int));
                    }
                    match str_from_utf8(valid) {
                        Ok(text) => Some(text),
                        Err(_) => None,
                    }
                } else {
                    None
                }
            },
        }
    }

    /// Writes as much of a chunk of UTF-8 as forms whole characters, escaped where it
    /// is text. A character cut short at the end of the chunk is kept and written once
    /// the following chunk finishes it; invalid UTF-8 in the chunk, or a chunk that
    /// does not finish the kept character, is an error (see `chunk_outcome`).
    pub fn write_utf8_chunk(&mut self, content: &[u8], content_type: ContentType) -> (r: Result<(), Utf8Error>)
        requires
            old(self).wf(),
        ensures
            final(self).wf(),
            final(self).target() == old(self).target(),
            ({
                let (ok, written, pending) = chunk_outcome(
                    old(self).target(),
                    old(self).pending(),
                    content@,
                    content_type,
                );
                &&& r is Ok == ok
                &&& final(self).written() == old(self).written() + written
                &&& final(self).pending() == pending
            }),
    {
        let ghost t = self.target();
        let text = match self.make_complete_utf8(content) {
            Some(text) => text,
            None => {
                proof {
                    let (ok, flushed, pending, text) = completion(t, old(self).pending(), content@);
                    assert(text == Seq::<u8>::empty());
                    lemma_escape_emit_empty(t, text);
                    assert(self.written() =~= old(self).written() + flushed + emit_content(t, text, content_type));
                }
                return Err(Utf8Error);
            },
        };
        if text.is_empty() {
            proof {
                assert(text.spec_bytes() == encode_utf8(text@));
                lemma_escape_emit_empty(t, text.spec_bytes());
                let (ok, flushed, pending, tx) = completion(t, old(self).pending(), content@);
                assert(self.written() =~= old(self).written() + flushed + emit_content(t, tx, content_type));
            }
            return Ok(());
        }
        let ghost mid = self.written();
        match content_type {
            ContentType::Html => self.write_html_inner(text),
            ContentType::Text => self.write_escaped(text),
        }
        proof {
            let (ok, flushed, pending, tx) = completion(t, old(self).pending(), content@);
            assert(self.written() =~= old(self).written() + flushed + emit_content(t, tx, content_type));
        }
        Ok(())
    }

    /// Writes `text` with `<`, `>` and `&` escaped, after dropping an unfinished
    /// character.
    pub fn write_body_text(&mut self, text: &str)
        requires
            old(self).wf(),
        ensures
            final(self).wf(),
            final(self).written() == old(self).written() + (if old(self).pending().len() > 0 {
                emit(old(self).target(), replacement_char_bytes())
            } else {
                Seq::empty()
            }) + escape_emit(old(self).target(), text.spec_bytes()),
            final(self).pending() == Seq::<u8>::empty(),
            final(self).target() == old(self).target(),
    {
        self.discard_incomplete_utf8();
        self.write_escaped(text);
    }

    /// Writes `content`, escaped where it is text, after dropping an unfinished
    /// character. Calls add up: the strings are written one after another.
    pub fn write_str(&mut self, content: &str, content_type: ContentType)
        requires
            old(self).wf(),
        ensures
            final(self).wf(),
            final(self).written() == old(self).written() + (if old(self).pending().len() > 0 {
                emit(old(self).target(), replacement_char_bytes())
            } else {
                Seq::empty()
            }) + emit_content(old(self).target(), content.spec_bytes(), content_type),
            final(self).pending() == Seq::<u8>::empty(),
            final(self).target() == old(self).target(),
    {
        match content_type {
            ContentType::Html => self.write_html(content),
            ContentType::Text => self.write_body_text(content),
        }
    }
}

} // verus!

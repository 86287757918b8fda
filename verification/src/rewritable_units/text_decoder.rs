use vstd::prelude::*;
use crate::base::{spec_decode, spec_encoding_for_label};
use crate::rewriter::error::{EncodingError, rewriter_encoding, spec_rewriter_encoding};
use super::token::{TextChunk, TextType};

verus! {

#[verifier::external_type_specification]
#[verifier::external_body]
pub struct ExDecoder(encoding_rs::Decoder);

/// The longest input that one call of the decoder takes: the room it reserves for the
/// output (at most about three bytes for each byte of input) must fit in a `usize`.
pub open spec fn decodable_len(n: nat) -> bool {
    n <= usize::MAX / 4
}

/// A decoder without BOM handling for the encoding named by `label`
/// (`Encoding::new_decoder_without_bom_handling` of `encoding_rs`).
#[verifier::external_body]
fn new_decoder(label: &str) -> (r: encoding_rs::Decoder)
    requires
        spec_encoding_for_label(label@) is Some,
{
    encoding_rs::Encoding::for_label_no_replacement(label.as_bytes()).unwrap().new_decoder_without_bom_handling()
}

/// A decoder of one stream of bytes in the encoding named by `label()`, with the bytes
/// fed to it so far and the text it gave for them. The last two are a record kept for
/// the proofs; they take no room at run time.
pub struct StreamDecoder {
    decoder: encoding_rs::Decoder,
    label: Ghost<Seq<char>>,
    fed: Ghost<Seq<u8>>,
    produced: Ghost<Seq<char>>,
}

impl StreamDecoder {
    /// The label of the encoding.
    pub closed spec fn label(&self) -> Seq<char> {
        self.label@
    }

    /// The bytes fed so far.
    pub closed spec fn fed(&self) -> Seq<u8> {
        self.fed@
    }

    /// The text given so far, all calls together.
    pub closed spec fn produced(&self) -> Seq<char> {
        self.produced@
    }

    /// A decoder that has been fed nothing, for the encoding named by `label`.
    pub fn new(label: &str) -> (r: StreamDecoder)
        requires
            spec_encoding_for_label(label@) is Some,
        ensures
            r.label() == label@,
            r.fed() == Seq::<u8>::empty(),
            r.produced() == Seq::<char>::empty(),
    {
        StreamDecoder {
            decoder: new_decoder(label),
            label: Ghost(label@),
            fed: Ghost(Seq::empty()),
            produced: Ghost(Seq::empty()),
        }
    }
}

/// Decodes `src`, a piece of the stream that more may follow, with
/// `Decoder::decode_to_string` (malformed sequences replaced), after reserving the room
/// that `Decoder::max_utf8_buffer_length` asks for, so that the whole of `src` is
/// taken. Bytes that end in the middle of a character are kept for the next call. The
/// contract records the bytes fed and the text given; what this call gives on its own
/// is left unsaid, as it depends on what earlier calls kept.
#[verifier::external_body]
pub(crate) fn decode_with(d: &mut StreamDecoder, src: &[u8]) -> (r: String)
    requires
        decodable_len(src@.len()),
    ensures
        final(d).label() == old(d).label(),
        final(d).fed() == old(d).fed() + src@,
        final(d).produced() == old(d).produced() + r@,
{
    let mut out = String::with_capacity(d.decoder.max_utf8_buffer_length(src.len()).unwrap());
    let _ = d.decoder.decode_to_string(src, &mut out, false);
    out
}

/// Decodes `src` as the end of the stream and finishes the decoder, which can't be
/// used again. As `encoding_rs` documents for a decoder made by
/// `new_decoder_without_bom_handling`, decoding a stream in pieces gives the text that
/// `decode_without_bom_handling` gives for all of it at once: here, the text of all
/// the calls together is `spec_decode` of all the bytes fed.
#[verifier::external_body]
pub(crate) fn decode_last(d: StreamDecoder, src: &[u8]) -> (r: String)
    requires
        decodable_len(src@.len()),
    ensures
        d.produced() + r@ == spec_decode(d.label(), d.fed() + src@),
{
    let mut decoder = d.decoder;
    let mut out = String::with_capacity(decoder.max_utf8_buffer_length(src.len()).unwrap());
    let _ = decoder.decode_to_string(src, &mut out, true);
    out
}

/// The text of the chunk pushed last, where one was pushed.
pub open spec fn pushed_text(before: Seq<TextChunk>, after: Seq<TextChunk>) -> Seq<char> {
    if after.len() == before.len() + 1 {
        after.last().text()
    } else {
        Seq::empty()
    }
}

/// Decodes text in a streaming way, a text node possibly arriving in several pieces.
pub struct TextDecoder {
    encoding: String,
    pending_text_streaming_decoder: Option<StreamDecoder>,
    last_text_type: TextType,
}

/// The chunk is a piece of text of the given kind, read from the document, last of its
/// text node or not.
pub open spec fn is_text_piece(c: TextChunk, kind: TextType, last: bool, encoding: Seq<char>) -> bool {
    &&& c.kind() == kind
    &&& c.is_last_in_current_boundaries() == last
    &&& c.is_parsed()
    &&& c.raw_bytes() is None
    &&& c.encoding() == encoding
}

impl TextDecoder {
    /// The label of the document's encoding.
    pub closed spec fn encoding(&self) -> Seq<char> {
        self.encoding@
    }

    /// Whether a text node is being decoded.
    pub closed spec fn has_pending_text(&self) -> bool {
        self.pending_text_streaming_decoder is Some
    }

    /// The kind of the text last fed.
    pub closed spec fn last_text_kind(&self) -> TextType {
        self.last_text_type
    }

    /// The bytes of the text node being decoded fed so far.
    pub closed spec fn node_bytes(&self) -> Seq<u8> {
        match self.pending_text_streaming_decoder {
            Some(d) => d.fed(),
            None => Seq::empty(),
        }
    }

    /// The text reported so far for the text node being decoded, all its chunks
    /// together.
    pub closed spec fn node_text(&self) -> Seq<char> {
        match self.pending_text_streaming_decoder {
            Some(d) => d.produced(),
            None => Seq::empty(),
        }
    }

    /// The decoder of the text node decodes the document's encoding.
    pub closed spec fn decoder_wf(&self) -> bool {
        match self.pending_text_streaming_decoder {
            Some(d) => d.label() == self.encoding@,
            None => true,
        }
    }

    /// The document's encoding is known.
    pub open spec fn wf(&self) -> bool {
        spec_encoding_for_label(self.encoding()) is Some && self.decoder_wf()
    }

    /// A decoder for the encoding named by `encoding`.
    pub fn new(encoding: &str) -> (r: TextDecoder)
        ensures
            r.encoding() == encoding@,
            r.decoder_wf(),
            !r.has_pending_text(),
            r.last_text_kind() == TextType::Data,
    {
        TextDecoder { encoding: encoding.to_owned(), pending_text_streaming_decoder: None, last_text_type: TextType::Data }
    }

    /// A decoder for the encoding named by `label`, where the rewriter supports it (see
    /// `rewriter_encoding`); the error otherwise.
    pub fn for_label(label: &str) -> (r: Result<TextDecoder, EncodingError>)
        ensures
            match r {
                Ok(d) => spec_rewriter_encoding(label@) is Ok && d.wf() && d.encoding() == label@
                    && !d.has_pending_text() && d.last_text_kind() == TextType::Data,
                Err(e) => spec_rewriter_encoding(label@) == Err::<Seq<char>, EncodingError>(e),
            },
    {
        match rewriter_encoding(label) {
            Ok(_) => Ok(TextDecoder::new(label)),
            Err(e) => Err(e),
        }
    }

    /// Decodes `raw_input` as part of the text node being read and reports the text it
    /// gives in one chunk, where it gives any; where `last` holds, ends the node and
    /// reports its last chunk, so that the chunks of the node together are the
    /// decoding of all its bytes.
    fn decode_with_streaming_decoder(&mut self, raw_input: &[u8], last: bool, chunks: &mut Vec<TextChunk>)
        requires
            old(self).wf(),
            decodable_len(raw_input@.len()),
        ensures
            final(self).wf(),
            final(self).encoding() == old(self).encoding(),
            final(self).last_text_kind() == old(self).last_text_kind(),
            final(chunks)@.len() == old(chunks)@.len() || final(chunks)@.len() == old(chunks)@.len() + 1,
            final(chunks)@.subrange(0, old(chunks)@.len() as int) == old(chunks)@,
            final(chunks)@.len() == old(chunks)@.len() + 1 ==> is_text_piece(
                final(chunks)@.last(),
                old(self).last_text_kind(),
                last,
                old(self).encoding(),
            ),
            !last ==> {
                &&& final(self).has_pending_text()
                &&& final(self).node_bytes() == old(self).node_bytes() + raw_input@
                &&& final(self).node_text() == old(self).node_text() + pushed_text(old(chunks)@, final(chunks)@)
                &&& final(chunks)@.len() == old(chunks)@.len() + 1 ==> final(chunks)@.last().text().len() > 0
            },
            last ==> {
                &&& !final(self).has_pending_text()
                &&& final(chunks)@.len() == old(chunks)@.len() + 1
                &&& old(self).node_text() + final(chunks)@.last().text() == spec_decode(
                    old(self).encoding(),
                    old(self).node_bytes() + raw_input@,
                )
            },
    {
        let decoder = match self.pending_text_streaming_decoder.take() {
            Some(d) => d,
            None => StreamDecoder::new(self.encoding.as_str()),
        };
        proof {
            assert(decoder.fed() == old(self).node_bytes());
            assert(decoder.produced() == old(self).node_text());
        }
        if last {
            let text = decode_last(decoder, raw_input);
            chunks.push(TextChunk::new_parsed(text.as_str(), self.last_text_type, true, self.encoding.as_str()));
        } else {
            let mut decoder = decoder;
            let text = decode_with(&mut decoder, raw_input);
            self.pending_text_streaming_decoder = Some(decoder);
            if !text.as_str().is_empty() {
                chunks.push(TextChunk::new_parsed(text.as_str(), self.last_text_type, false, self.encoding.as_str()));
            } else {
                proof {
                    assert(text@ =~= Seq::<char>::empty());
                }
            }
        }
        proof {
            assert(chunks@.subrange(0, old(chunks)@.len() as int) =~= old(chunks)@);
        }
    }

    /// Ends the text node being decoded, if any, reporting its last chunk: the chunks of
    /// the node together are then the decoding of all its bytes.
    pub fn flush_pending(&mut self, chunks: &mut Vec<TextChunk>)
        requires
            old(self).wf(),
        ensures
            final(self).wf(),
            !final(self).has_pending_text(),
            final(self).encoding() == old(self).encoding(),
            final(self).last_text_kind() == old(self).last_text_kind(),
            old(self).has_pending_text() ==> final(chunks)@.len() == old(chunks)@.len() + 1
                && final(chunks)@.subrange(0, old(chunks)@.len() as int) == old(chunks)@ && is_text_piece(
                final(chunks)@.last(),
                old(self).last_text_kind(),
                true,
                old(self).encoding(),
            ) && old(self).node_text() + final(chunks)@.last().text() == spec_decode(
                old(self).encoding(),
                old(self).node_bytes(),
            ),
            !old(self).has_pending_text() ==> final(chunks)@ == old(chunks)@,
    {
        if self.pending_text_streaming_decoder.is_some() {
            let empty: [u8; 0] = [];
            self.decode_with_streaming_decoder(empty.as_slice(), true, chunks);
            proof {
                assert(old(self).node_bytes() + empty@ =~= old(self).node_bytes());
            }
            self.pending_text_streaming_decoder = None;
        }
    }

    /// Feeds a piece of text of the given kind, as part of the text node being read,
    /// reporting the text it gives in one chunk where it gives any.
    pub fn feed_text(&mut self, raw: &[u8], text_type: TextType, chunks: &mut Vec<TextChunk>)
        requires
            old(self).wf(),
            decodable_len(raw@.len()),
        ensures
            final(self).wf(),
            final(self).has_pending_text(),
            final(self).encoding() == old(self).encoding(),
            final(self).last_text_kind() == text_type,
            final(self).node_bytes() == old(self).node_bytes() + raw@,
            final(self).node_text() == old(self).node_text() + pushed_text(old(chunks)@, final(chunks)@),
            final(chunks)@.len() == old(chunks)@.len() || final(chunks)@.len() == old(chunks)@.len() + 1,
            final(chunks)@.subrange(0, old(chunks)@.len() as int) == old(chunks)@,
            final(chunks)@.len() == old(chunks)@.len() + 1 ==> is_text_piece(
                final(chunks)@.last(),
                text_type,
                false,
                old(self).encoding(),
            ) && final(chunks)@.last().text().len() > 0,
    {
        self.last_text_type = text_type;
        self.decode_with_streaming_decoder(raw, false, chunks);
    }
}

} // verus!

use vstd::prelude::*;
use vstd::string::StringSliceAdditionalSpecFns;
use crate::base::spec_encoding_for_label;
use crate::rewriter::error::{EncodingError, rewriter_encoding, spec_rewriter_encoding};
use super::mutations::ContentType;
use super::text_encoder::{StreamingHandlerSink, emit_content};

verus! {

/// The end of the document: content appended here is written after the rewriter has
/// finished with the last chunk, in the document's encoding.
pub struct DocumentEnd {
    sink: StreamingHandlerSink,
}

impl DocumentEnd {
    /// The encoding the content is written in: `None` for UTF-8, else the label.
    pub closed spec fn target(&self) -> Option<Seq<char>> {
        self.sink.target()
    }

    /// The bytes appended so far.
    pub closed spec fn appended(&self) -> Seq<u8> {
        self.sink.written()
    }

    /// Nothing is left unfinished in the sink.
    pub closed spec fn wf(&self) -> bool {
        self.sink.wf() && self.sink.pending().len() == 0
    }

    /// The end of a document in the encoding named by `encoding`, with nothing appended.
    pub fn new(encoding: &str) -> (r: DocumentEnd)
        requires
            spec_encoding_for_label(encoding@) is Some,
        ensures
            r.wf(),
            r.appended() == Seq::<u8>::empty(),
            r.target() == (if spec_encoding_for_label(encoding@) == Some("UTF-8"@) {
                None::<Seq<char>>
            } else {
                Some(encoding@)
            }),
    {
        DocumentEnd { sink: StreamingHandlerSink::new(encoding) }
    }

    /// The same for the encoding named by `label`, where the rewriter supports it (see
    /// `rewriter_encoding`); the error otherwise.
    pub fn for_label(label: &str) -> (r: Result<DocumentEnd, EncodingError>)
        ensures
            match r {
                Ok(x) => spec_rewriter_encoding(label@) is Ok && x.wf() && x.appended() == Seq::<u8>::empty()
                    && x.target() == (if spec_encoding_for_label(label@) == Some("UTF-8"@) {
                    None::<Seq<char>>
                } else {
                    Some(label@)
                }),
                Err(e) => spec_rewriter_encoding(label@) == Err::<Seq<char>, EncodingError>(e),
            },
    {
        match rewriter_encoding(label) {
            Ok(_) => Ok(DocumentEnd::new(label)),
            Err(e) => Err(e),
        }
    }

    /// Appends `content` at the end of the document, escaped where it is text, after
    /// what was appended already.
    pub fn append(&mut self, content: &str, content_type: ContentType)
        requires
            old(self).wf(),
        ensures
            final(self).wf(),
            final(self).target() == old(self).target(),
            final(self).appended() == old(self).appended() + emit_content(
                old(self).target(),
                content.spec_bytes(),
                content_type,
            ),
    {
        self.sink.write_str(content, content_type);
        proof {
            assert(self.sink.written() =~= old(self).appended() + Seq::<u8>::empty() + emit_content(
                old(self).target(),
                content.spec_bytes(),
                content_type,
            ));
        }
    }

    /// The bytes appended.
    pub fn into_output(self) -> (r: Vec<u8>)
        ensures
            r@ == self.appended(),
    {
        let mut sink = self.sink;
        sink.take_output()
    }
}

/// The moment the rewriter gives up on a document: content appended here is written
/// before what is left of the input is passed on as it is, in the document's encoding.
pub struct BailOut {
    sink: StreamingHandlerSink,
}

impl BailOut {
    /// The encoding the content is written in: `None` for UTF-8, else the label.
    pub closed spec fn target(&self) -> Option<Seq<char>> {
        self.sink.target()
    }

    /// The bytes appended so far.
    pub closed spec fn appended(&self) -> Seq<u8> {
        self.sink.written()
    }

    /// Nothing is left unfinished in the sink.
    pub closed spec fn wf(&self) -> bool {
        self.sink.wf() && self.sink.pending().len() == 0
    }

    /// The bail-out point of a document in the encoding named by `encoding`, with
    /// nothing appended.
    pub fn new(encoding: &str) -> (r: BailOut)
        requires
            spec_encoding_for_label(encoding@) is Some,
        ensures
            r.wf(),
            r.appended() == Seq::<u8>::empty(),
            r.target() == (if spec_encoding_for_label(encoding@) == Some("UTF-8"@) {
                None::<Seq<char>>
            } else {
                Some(encoding@)
            }),
    {
        BailOut { sink: StreamingHandlerSink::new(encoding) }
    }

    /// The same for the encoding named by `label`, where the rewriter supports it (see
    /// `rewriter_encoding`); the error otherwise.
    pub fn for_label(label: &str) -> (r: Result<BailOut, EncodingError>)
        ensures
            match r {
                Ok(x) => spec_rewriter_encoding(label@) is Ok && x.wf() && x.appended() == Seq::<u8>::empty()
                    && x.target() == (if spec_encoding_for_label(label@) == Some("UTF-8"@) {
                    None::<Seq<char>>
                } else {
                    Some(label@)
                }),
                Err(e) => spec_rewriter_encoding(label@) == Err::<Seq<char>, EncodingError>(e),
            },
    {
        match rewriter_encoding(label) {
            Ok(_) => Ok(BailOut::new(label)),
            Err(e) => Err(e),
        }
    }

    /// Appends `content` at the bail-out point, escaped where it is text, after what
    /// was appended already.
    pub fn append(&mut self, content: &str, content_type: ContentType)
        requires
            old(self).wf(),
        ensures
            final(self).wf(),
            final(self).target() == old(self).target(),
            final(self).appended() == old(self).appended() + emit_content(
                old(self).target(),
                content.spec_bytes(),
                content_type,
            ),
    {
        self.sink.write_str(content, content_type);
        proof {
            assert(self.sink.written() =~= old(self).appended() + Seq::<u8>::empty() + emit_content(
                old(self).target(),
                content.spec_bytes(),
                content_type,
            ));
        }
    }

    /// The bytes appended.
    pub fn into_output(self) -> (r: Vec<u8>)
        ensures
            r@ == self.appended(),
    {
        let mut sink = self.sink;
        sink.take_output()
    }
}

} // verus!

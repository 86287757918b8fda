use vstd::prelude::*;
use crate::base::spec_encoding_for_label;
use crate::rewritable_units::capture_flags;
use crate::rewritable_units::capturer::{Lexeme, TokenCapturer, TokenCapturerEvent, feed_events, slice_of};
use crate::rewritable_units::text_decoder::decodable_len;

verus! {

/// The kinds of tokens that a `TokenCapture` captures, as bits: text, comments, start
/// tags, end tags, doctypes and the end of the document.
#[derive(Debug, Copy, Clone, PartialEq, Eq, Structural)]
pub struct TokenCaptureFlags {
    pub bits: u8,
}

/// The bit of text chunks.
pub const TEXT: u8 = 1u8;
/// The bit of comments.
pub const COMMENTS: u8 = 2u8;
/// The bit of start tags.
pub const START_TAGS: u8 = 4u8;
/// The bit of end tags.
pub const END_TAGS: u8 = 8u8;
/// The bit of doctypes.
pub const DOCTYPES: u8 = 16u8;
/// The bit of the end of the document.
pub const EOF: u8 = 32u8;

/// What a `TokenCapture` reports: that it consumed a lexeme, or a token it produced.
pub type TokenCaptureEvent = TokenCapturerEvent;

/// The flags under which a `TokenCapturer` reports what a `TokenCapture` with `flags`
/// reports: text, comments and doctypes keep their bits, start and end tags are the
/// bits of the next start and end tag, and the end of the document, which holds no
/// token, has none.
pub open spec fn capturer_flags(flags: TokenCaptureFlags) -> capture_flags::TokenCaptureFlags {
    capture_flags::TokenCaptureFlags { bits: flags.bits & capture_flags::ALL }
}

/// Produces tokens from lexemes, for kinds of tokens fixed when it is made: unlike a
/// `TokenCapturer`, it goes on capturing start and end tags once it has captured one.
pub struct TokenCapture {
    capturer: TokenCapturer,
    capture_flags: TokenCaptureFlags,
}

impl TokenCapture {
    /// The kinds of tokens captured.
    pub closed spec fn flags(&self) -> TokenCaptureFlags {
        self.capture_flags
    }

    /// The state of the capture: the document's encoding, the text node being read and
    /// the kind of text last seen, held as that of a `TokenCapturer`.
    pub closed spec fn capturer(&self) -> TokenCapturer {
        self.capturer
    }

    /// The document's encoding is known, and the capturer captures, now and throughout
    /// the document, the kinds of tokens of the flags.
    pub open spec fn wf(&self) -> bool {
        &&& self.capturer().wf()
        &&& self.capturer().flags() == capturer_flags(self.flags())
        &&& self.capturer().document_level_flags() == capturer_flags(self.flags())
    }

    /// A capture of the given kinds of tokens in a document in the encoding named by
    /// `encoding`; it can be fed where the label names an encoding.
    pub fn new(initial_capture_flags: TokenCaptureFlags, encoding: &str) -> (r: TokenCapture)
        ensures
            r.flags() == initial_capture_flags,
            r.capturer().encoding() == encoding@,
            r.capturer().flags() == capturer_flags(initial_capture_flags),
            r.capturer().document_level_flags() == capturer_flags(initial_capture_flags),
            !r.capturer().has_pending_text(),
            r.capturer().decoder_wf(),
            spec_encoding_for_label(encoding@) is Some ==> r.wf(),
    {
        let flags = capture_flags::TokenCaptureFlags::from_bits_truncate(initial_capture_flags.bits);
        TokenCapture { capturer: TokenCapturer::new(flags, encoding), capture_flags: initial_capture_flags }
    }

    /// Takes the next lexeme and reports what a `TokenCapturer` that captures the same
    /// kinds reports (see `feed_events`); the kinds captured stay as they are.
    pub fn feed(&mut self, lexeme: &Lexeme, events: &mut Vec<TokenCaptureEvent>)
        requires
            old(self).wf(),
            lexeme.wf(),
            decodable_len(slice_of(lexeme.input@, lexeme.raw_range).len()),
        ensures
            final(self).wf(),
            final(self).flags() == old(self).flags(),
            final(self).capturer().encoding() == old(self).capturer().encoding(),
            final(events)@.len() >= old(events)@.len(),
            final(events)@.subrange(0, old(events)@.len() as int) == old(events)@,
            feed_events(
                old(self).capturer(),
                final(self).capturer(),
                *lexeme,
                final(events)@.subrange(old(events)@.len() as int, final(events)@.len() as int),
            ),
    {
        self.capturer.feed(lexeme, events);
        self.capturer.set_capture_flags(capture_flags::TokenCaptureFlags::empty());
        proof {
            let b = self.capturer.document_level_flags().bits;
            assert(b | 0u8 == b) by (bit_vector);
        }
    }
}

} // verus!

use vstd::prelude::*;

verus! {

/// The kinds of tokens that a rewriter captures, as bits: text, comments, the next start
/// tag, the next end tag and doctypes.
#[derive(Debug, Copy, Clone, PartialEq, Eq, Structural)]
pub struct TokenCaptureFlags {
    pub bits: u8,
}

/// The bit of text chunks.
pub const TEXT: u8 = 1u8;
/// The bit of comments.
pub const COMMENTS: u8 = 2u8;
/// The bit of the next start tag.
pub const NEXT_START_TAG: u8 = 4u8;
/// The bit of the next end tag.
pub const NEXT_END_TAG: u8 = 8u8;
/// The bit of doctypes.
pub const DOCTYPES: u8 = 16u8;
/// All the bits.
pub const ALL: u8 = 31u8;

impl TokenCaptureFlags {
    /// No flag.
    pub fn empty() -> (r: TokenCaptureFlags)
        ensures
            r.bits == 0,
    {
        TokenCaptureFlags { bits: 0 }
    }

    /// All flags.
    pub fn all() -> (r: TokenCaptureFlags)
        ensures
            r.bits == ALL,
    {
        TokenCaptureFlags { bits: ALL }
    }

    /// The flags of the given bits, the unknown bits cleared.
    pub fn from_bits_truncate(bits: u8) -> (r: TokenCaptureFlags)
        ensures
            r.bits == bits & ALL,
    {
        TokenCaptureFlags { bits: bits & ALL }
    }

    /// No flag is set.
    pub fn is_empty(&self) -> (r: bool)
        ensures
            r == (self.bits == 0),
    {
        self.bits == 0
    }

    /// Every flag of `other` is set.
    pub fn contains(&self, other: TokenCaptureFlags) -> (r: bool)
        ensures
            r == (self.bits & other.bits == other.bits),
    {
        self.bits & other.bits == other.bits
    }

    /// Sets the flags of `other`.
    pub fn insert(&mut self, other: TokenCaptureFlags)
        ensures
            final(self).bits == old(self).bits | other.bits,
    {
        self.bits = self.bits | other.bits;
    }

    /// Clears the flags of `other`.
    pub fn remove(&mut self, other: TokenCaptureFlags)
        ensures
            final(self).bits == old(self).bits & !other.bits,
    {
        self.bits = self.bits & !other.bits;
    }

    /// The flags set in `self` or in `other`.
    pub fn union(self, other: TokenCaptureFlags) -> (r: TokenCaptureFlags)
        ensures
            r.bits == self.bits | other.bits,
    {
        TokenCaptureFlags { bits: self.bits | other.bits }
    }
}

/// Setting a flag and testing it finds it set; clearing it finds it clear; other flags
/// stay as they were.
pub proof fn lemma_flags_insert_remove(bits: u8, flag: u8, other: u8)
    requires
        flag == TEXT || flag == COMMENTS || flag == NEXT_START_TAG || flag == NEXT_END_TAG || flag == DOCTYPES,
        other == TEXT || other == COMMENTS || other == NEXT_START_TAG || other == NEXT_END_TAG || other == DOCTYPES,
        flag != other,
    ensures
        (bits | flag) & flag == flag,
        (bits & !flag) & flag == 0,
        ((bits | flag) & other == other) == (bits & other == other),
        ((bits & !flag) & other == other) == (bits & other == other),
{
    assert((bits | flag) & flag == flag) by (bit_vector)
        requires
            flag == 1u8 || flag == 2u8 || flag == 4u8 || flag == 8u8 || flag == 16u8;
    assert((bits & !flag) & flag == 0) by (bit_vector);
    assert(((bits | flag) & other == other) == (bits & other == other)) by (bit_vector)
        requires
            flag == 1u8 || flag == 2u8 || flag == 4u8 || flag == 8u8 || flag == 16u8,
            other == 1u8 || other == 2u8 || other == 4u8 || other == 8u8 || other == 16u8,
            flag != other;
    assert(((bits & !flag) & other == other) == (bits & other == other)) by (bit_vector)
        requires
            flag == 1u8 || flag == 2u8 || flag == 4u8 || flag == 8u8 || flag == 16u8,
            other == 1u8 || other == 2u8 || other == 4u8 || other == 8u8 || other == 16u8,
            flag != other;
}

} // verus!

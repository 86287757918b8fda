use vstd::prelude::*;
use vstd::string::{StrSliceExecFns, StringSliceAdditionalSpecFns};
use crate::base::{encode_without_replacements, spec_encode_without_replacements};

verus! {

/// An error that occurs when invalid value is provided for the attribute name.
#[derive(Debug, Copy, Clone, PartialEq, Eq, Structural)]
pub enum AttributeNameError {
    /// The provided value is empty.
    Empty,
    /// The provided value contains a character that is forbidden by the HTML grammar in
    /// attribute names (e.g. `'='`).
    ForbiddenCharacter(char),
    /// The provided value contains a character that can't be represented in the document's
    /// encoding.
    UnencodableCharacter,
}

/// An error that occurs when an invalid name is given to an attribute being renamed.
#[derive(Debug, Copy, Clone, PartialEq, Eq, Structural)]
pub enum AttributeValidationError {
    /// The name is empty.
    EmptyName,
    /// The name contains a character that the HTML grammar forbids in attribute names.
    ForbiddenCharacterInName(char),
    /// The name contains a character that can't be represented in the document's encoding.
    UnencodableCharacterInName,
}

/// The renaming error that stands for an attribute name error.
pub open spec fn spec_validation_error(e: AttributeNameError) -> AttributeValidationError {
    match e {
        AttributeNameError::Empty => AttributeValidationError::EmptyName,
        AttributeNameError::ForbiddenCharacter(c) => AttributeValidationError::ForbiddenCharacterInName(c),
        AttributeNameError::UnencodableCharacter => AttributeValidationError::UnencodableCharacterInName,
    }
}

/// Gives the renaming error that stands for an attribute name error.
pub fn validation_error(e: AttributeNameError) -> (r: AttributeValidationError)
    ensures
        r == spec_validation_error(e),
{
    match e {
        AttributeNameError::Empty => AttributeValidationError::EmptyName,
        AttributeNameError::ForbiddenCharacter(c) => AttributeValidationError::ForbiddenCharacterInName(c),
        AttributeNameError::UnencodableCharacter => AttributeValidationError::UnencodableCharacterInName,
    }
}

/// The characters that the HTML grammar forbids in attribute names.
pub open spec fn is_forbidden_in_attr_name(c: char) -> bool {
    c == ' ' || c == '\n' || c == '\r' || c == '\t' || c == '\x0C' || c == '/' || c == '>' || c == '='
}

/// The first character of `s` from `i` on that is forbidden in attribute names.
pub open spec fn first_forbidden_in_attr_name(s: Seq<char>, i: int) -> Option<char>
    decreases s.len() - i,
{
    if i < 0 || i >= s.len() {
        None
    } else if is_forbidden_in_attr_name(s[i]) {
        Some(s[i])
    } else {
        first_forbidden_in_attr_name(s, i + 1)
    }
}

/// What an attribute name given as a string becomes: its bytes in the document's
/// encoding, or the first reason it is not a valid attribute name.
pub open spec fn spec_attr_name_bytes(encoding: Seq<char>, name: Seq<char>) -> Result<Seq<u8>, AttributeNameError> {
    if name.len() == 0 {
        Err(AttributeNameError::Empty)
    } else {
        match first_forbidden_in_attr_name(name, 0) {
            Some(c) => Err(AttributeNameError::ForbiddenCharacter(c)),
            None => match spec_encode_without_replacements(encoding, name) {
                Some(b) => Ok(b),
                None => Err(AttributeNameError::UnencodableCharacter),
            },
        }
    }
}

/// Checks an attribute name and encodes it in the document's encoding, named by
/// `encoding`.
pub fn name_from_str(name: &str, encoding: &str) -> (r: Result<Vec<u8>, AttributeNameError>)
    ensures
        match r {
            Ok(b) => spec_attr_name_bytes(encoding@, name@) == Ok::<Seq<u8>, AttributeNameError>(b@),
            Err(e) => spec_attr_name_bytes(encoding@, name@) == Err::<Seq<u8>, AttributeNameError>(e),
        },
{
    let len = name.unicode_len();
    if len == 0 {
        return Err(AttributeNameError::Empty);
    }
    let mut i: usize = 0;
    while i < len
        invariant
            len == name@.len(),
            i <= len,
            first_forbidden_in_attr_name(name@, 0) == first_forbidden_in_attr_name(name@, i as int),
        decreases len - i,
    {
        let c = name.get_char(i);
        if c == ' ' || c == '\n' || c == '\r' || c == '\t' || c == '\x0C' || c == '/' || c == '>' || c == '=' {
            return Err(AttributeNameError::ForbiddenCharacter(c));
        }
        i = i + 1;
    }
    match encode_without_replacements(encoding, name) {
        Some(b) => Ok(b),
        None => Err(AttributeNameError::UnencodableCharacter),
    }
}

/// `pattern` occurs in `s` at `i`.
pub open spec fn occurs_at(s: Seq<u8>, pattern: Seq<u8>, i: int) -> bool {
    0 <= i && i + pattern.len() <= s.len() && s.subrange(i, i + pattern.len()) == pattern
}

/// `pattern` occurs somewhere in `s`.
pub open spec fn contains_bytes(s: Seq<u8>, pattern: Seq<u8>) -> bool {
    exists|i: int| occurs_at(s, pattern, i)
}

/// Looks for `pattern` in `s`.
pub fn find_bytes(s: &[u8], pattern: &[u8]) -> (r: bool)
    ensures
        r == contains_bytes(s@, pattern@),
{
    let n = s.len();
    let plen = pattern.len();
    if plen > n {
        proof {
            assert forall|i: int| !occurs_at(s@, pattern@, i) by {}
        }
        return false;
    }
    let last = n - plen;
    let mut i: usize = 0;
    loop
        invariant
            n == s@.len(),
            plen == pattern@.len(),
            last == n - plen,
            i <= last,
            forall|k: int| 0 <= k < i ==> !occurs_at(s@, pattern@, k),
        decreases last - i,
    {
        let mut j: usize = 0;
        let mut same = true;
        while j < plen
            invariant
                n == s@.len(),
                plen == pattern@.len(),
                i <= last,
                last == n - plen,
                j <= plen,
                same == forall|k: int| 0 <= k < j ==> s@[i + k] == pattern@[k],
            decreases plen - j,
        {
            if s[i + j] != pattern[j] {
                same = false;
            }
            j = j + 1;
        }
        if same {
            proof {
                assert(s@.subrange(i as int, i + pattern@.len()) =~= pattern@);
                assert(occurs_at(s@, pattern@, i as int));
            }
            return true;
        }
        proof {
            assert(!occurs_at(s@, pattern@, i as int)) by {
                if occurs_at(s@, pattern@, i as int) {
                    let k = choose|k: int| 0 <= k < pattern@.len() && s@[i + k] != pattern@[k];
                    assert(s@.subrange(i as int, i + pattern@.len())[k] == s@[i + k]);
                }
            }
        }
        if i == last {
            proof {
                assert forall|k: int| !occurs_at(s@, pattern@, k) by {
                    if 0 <= k && k + pattern@.len() <= s@.len() {
                        assert(k <= i);
                    }
                }
            }
            return false;
        }
        i = i + 1;
    }
}

/// An error that occurs when invalid value is provided for the comment text.
#[derive(Debug, Copy, Clone, PartialEq, Eq, Structural)]
pub enum CommentTextError {
    /// The provided value contains the comment closing sequence (`-->`).
    CommentClosingSequence,
    /// The provided value contains a character that can't be represented in the document's
    /// encoding.
    UnencodableCharacter,
}

/// The bytes of the comment closing sequence, `-->`.
pub open spec fn comment_closing() -> Seq<u8> {
    seq![45u8, 45u8, 62u8]
}

/// What a comment text given as a string becomes: its bytes in the document's encoding,
/// or the reason it can't be a comment's text.
pub open spec fn spec_comment_text_bytes(encoding: Seq<char>, text: &str) -> Result<Seq<u8>, CommentTextError> {
    if contains_bytes(text.spec_bytes(), comment_closing()) {
        Err(CommentTextError::CommentClosingSequence)
    } else {
        match spec_encode_without_replacements(encoding, text@) {
            Some(b) => Ok(b),
            None => Err(CommentTextError::UnencodableCharacter),
        }
    }
}

/// Checks a comment text and encodes it in the document's encoding, named by
/// `encoding`.
pub fn comment_text_from_str(text: &str, encoding: &str) -> (r: Result<Vec<u8>, CommentTextError>)
    ensures
        match r {
            Ok(b) => spec_comment_text_bytes(encoding@, text) == Ok::<Seq<u8>, CommentTextError>(b@),
            Err(e) => spec_comment_text_bytes(encoding@, text) == Err::<Seq<u8>, CommentTextError>(e),
        },
{
    let closing: [u8; 3] = [45u8, 45u8, 62u8];
    proof {
        assert(closing@ =~= comment_closing());
    }
    if find_bytes(text.as_bytes(), closing.as_slice()) {
        return Err(CommentTextError::CommentClosingSequence);
    }
    match encode_without_replacements(encoding, text) {
        Some(b) => Ok(b),
        None => Err(CommentTextError::UnencodableCharacter),
    }
}

/// An error that occurs when invalid value is provided for the text of a `<script>` or a
/// `<style>` element.
#[derive(Debug, Copy, Clone, PartialEq, Eq, Structural)]
pub enum TextError {
    /// The script text contains the `</script>` end tag.
    ScriptEndTagInScriptText,
    /// The stylesheet text contains the `</style>` end tag.
    StyleEndTagInStylesheetText,
    /// The provided value contains a character that can't be represented in the document's
    /// encoding.
    UnencodableCharacter,
}

/// What the text of an element that ends at `closing_tag` becomes: its bytes in the
/// document's encoding, or the reason it can't be that element's text.
pub open spec fn spec_element_text_bytes(
    encoding: Seq<char>,
    text: &str,
    closing_tag: &str,
    closing_tag_error: TextError,
) -> Result<Seq<u8>, TextError> {
    if contains_bytes(text.spec_bytes(), closing_tag.spec_bytes()) {
        Err(closing_tag_error)
    } else {
        match spec_encode_without_replacements(encoding, text@) {
            Some(b) => Ok(b),
            None => Err(TextError::UnencodableCharacter),
        }
    }
}

/// Checks the text of an element that ends at `closing_tag`, such as `</script>`, and
/// encodes it in the document's encoding: the text must not hold the closing tag, and
/// character references are not read in such text, so every character must be encodable.
pub fn try_element_specific_text_from(
    text: &str,
    encoding: &str,
    closing_tag: &str,
    closing_tag_error: TextError,
) -> (r: Result<Vec<u8>, TextError>)
    ensures
        match r {
            Ok(b) => spec_element_text_bytes(encoding@, text, closing_tag, closing_tag_error) == Ok::<
                Seq<u8>,
                TextError,
            >(b@),
            Err(e) => spec_element_text_bytes(encoding@, text, closing_tag, closing_tag_error) == Err::<
                Seq<u8>,
                TextError,
            >(e),
        },
{
    if find_bytes(text.as_bytes(), closing_tag.as_bytes()) {
        return Err(closing_tag_error);
    }
    match encode_without_replacements(encoding, text) {
        Some(b) => Ok(b),
        None => Err(TextError::UnencodableCharacter),
    }
}

} // verus!

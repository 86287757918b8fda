use vstd::prelude::*;

verus! {

/// What `encoding_rs` gives for `text` in the encoding named by `label`: the encoded
/// bytes and whether some character had to be replaced by a numeric character
/// reference; `None` where the label names no usable encoding.
pub uninterp spec fn spec_encode(label: Seq<char>, text: Seq<char>) -> Option<(Seq<u8>, bool)>;

/// Encodes `text` in the encoding named by `label`.
///
/// Looks the encoding up with `encoding_rs::Encoding::for_label_no_replacement` and
/// calls `Encoding::encode`, which replaces a character that the encoding cannot
/// represent by a numeric character reference and reports that it did. The contract
/// names the result, and says that it is there exactly where the label names an
/// encoding (the lookup that `encoding_for_label` makes too).
#[verifier::external_body]
pub(crate) fn encode_text(label: &str, text: &str) -> (r: Option<(Vec<u8>, bool)>)
    ensures
        r is Some <==> spec_encoding_for_label(label@) is Some,
        match r {
            Some((b, replaced)) => spec_encode(label@, text@) == Some((b@, replaced)),
            None => spec_encode(label@, text@) is None,
        },
{
    let encoding = encoding_rs::Encoding::for_label_no_replacement(label.as_bytes())?;
    let (bytes, _, had_unmappable) = encoding.encode(text);
    Some((bytes.into_owned(), had_unmappable))
}

/// The encoded form of characters in the encoding named by `label`, characters that it
/// lacks written as numeric character references.
pub open spec fn encoded_chars(label: Seq<char>, chars: Seq<char>) -> Seq<u8> {
    match spec_encode(label, chars) {
        Some((bytes, _)) => bytes,
        None => Seq::empty(),
    }
}

/// Encodes `text` in the encoding named by `label`, writing characters that it lacks
/// as numeric character references.
pub fn encode_with_replacements(label: &str, text: &str) -> (r: Vec<u8>)
    ensures
        r@ == encoded_chars(label@, text@),
{
    match encode_text(label, text) {
        Some((bytes, _)) => bytes,
        None => Vec::new(),
    }
}

/// What `encoding_rs` decodes `bytes` to in the encoding named by `label` (malformed
/// sequences become U+FFFD).
pub uninterp spec fn spec_decode(label: Seq<char>, bytes: Seq<u8>) -> Seq<char>;

/// Decodes `bytes` in the encoding named by `label`, with
/// `Encoding::decode_without_bom_handling` of `encoding_rs`. The contract only names the
/// result.
#[verifier::external_body]
pub(crate) fn decode(label: &str, bytes: &[u8]) -> (r: String)
    requires
        spec_encoding_for_label(label@) is Some,
    ensures
        r@ == spec_decode(label@, bytes@),
{
    match encoding_rs::Encoding::for_label_no_replacement(label.as_bytes()) {
        Some(encoding) => encoding.decode_without_bom_handling(bytes).0.into_owned(),
        None => String::new(),
    }
}

/// `text` encoded in the encoding named by `label` where every character has a
/// representation there; `None` where the label names no encoding or some character
/// would have to be replaced.
pub open spec fn spec_encode_without_replacements(label: Seq<char>, text: Seq<char>) -> Option<Seq<u8>> {
    match spec_encode(label, text) {
        Some((bytes, false)) => Some(bytes),
        _ => None,
    }
}

/// Encodes `text` in the encoding named by `label`, refusing any replacement.
pub fn encode_without_replacements(label: &str, text: &str) -> (r: Option<Vec<u8>>)
    ensures
        match r {
            Some(b) => spec_encode_without_replacements(label@, text@) == Some(b@),
            None => spec_encode_without_replacements(label@, text@) is None,
        },
{
    match encode_text(label, text) {
        Some((bytes, false)) => Some(bytes),
        _ => None,
    }
}

/// ASCII lowercase of a character.
pub open spec fn ascii_lower_char(c: char) -> char {
    if 'A' <= c <= 'Z' {
        ((c as u32) + 32) as char
    } else {
        c
    }
}

/// ASCII lowercase of a string.
pub open spec fn ascii_lower_str(s: Seq<char>) -> Seq<char> {
    s.map_values(|c: char| ascii_lower_char(c))
}

/// `str::to_ascii_lowercase`: ASCII letters `A` to `Z` become `a` to `z`, every other
/// character stays as it is.
#[verifier::external_body]
pub(crate) fn to_ascii_lowercase(s: &str) -> (r: String)
    ensures
        r@ == ascii_lower_str(s@),
{
    s.to_ascii_lowercase()
}

/// The name of the encoding that `encoding_rs` finds for a label, `None` where the label
/// names no encoding or names the replacement encoding.
pub uninterp spec fn spec_encoding_for_label(label: Seq<char>) -> Option<Seq<char>>;

/// Looks an encoding up by label with `encoding_rs::Encoding::for_label_no_replacement`
/// and gives its name (`Encoding::name`). The contract only names the result.
#[verifier::external_body]
pub(crate) fn encoding_for_label(label: &str) -> (r: Option<String>)
    ensures
        match r {
            Some(name) => spec_encoding_for_label(label@) == Some(name@),
            None => spec_encoding_for_label(label@) is None,
        },
{
    encoding_rs::Encoding::for_label_no_replacement(label.as_bytes()).map(|e| e.name().to_string())
}

/// Whether the encoding that a label names is ASCII-compatible: every encoding but
/// UTF-16BE, UTF-16LE, ISO-2022-JP and the replacement encoding (which the lookup
/// never gives).
pub open spec fn spec_is_ascii_compatible(label: Seq<char>) -> bool {
    match spec_encoding_for_label(label) {
        Some(name) => name != "UTF-16BE"@ && name != "UTF-16LE"@ && name != "ISO-2022-JP"@,
        None => false,
    }
}

/// `encoding_rs::Encoding::is_ascii_compatible` for the encoding that the label names,
/// found with `Encoding::for_label_no_replacement`: false exactly for the replacement
/// encoding, UTF-16BE, UTF-16LE and ISO-2022-JP, each known by its name.
#[verifier::external_body]
pub(crate) fn is_ascii_compatible(label: &str) -> (r: bool)
    requires
        spec_encoding_for_label(label@) is Some,
    ensures
        r == spec_is_ascii_compatible(label@),
{
    encoding_rs::Encoding::for_label_no_replacement(label.as_bytes()).map_or(false, |e| e.is_ascii_compatible())
}

} // verus!

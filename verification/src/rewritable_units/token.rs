use vstd::prelude::*;
use crate::html::{Namespace, namespace_uri_of};
use crate::base::{
    ascii_lower_str, decode, encode_with_replacements, encoded_chars, spec_decode, spec_encoding_for_label,
    to_ascii_lowercase,
};
use super::element::{TagNameError, spec_tag_name_bytes, tag_name_bytes_from_str};
use super::text_encoder::{escape_body_text, push_escaped_body_text};
use super::tokens::{
    AttributeNameError, AttributeValidationError, CommentTextError, TextError, comment_text_from_str, name_from_str,
    spec_validation_error, validation_error,
    spec_attr_name_bytes, spec_comment_text_bytes, spec_element_text_bytes, try_element_specific_text_from,
};

verus! {

/// Appends `bytes` to `out`.
pub fn push_bytes(out: &mut Vec<u8>, bytes: &[u8])
    ensures
        final(out)@ == old(out)@ + bytes@,
{
    let mut i: usize = 0;
    while i < bytes.len()
        invariant
            i <= bytes@.len(),
            out@ == old(out)@ + bytes@.take(i as int),
        decreases bytes@.len() - i,
    {
        out.push(bytes[i]);
        i = i + 1;
        proof {
            assert(bytes@.take(i as int) =~= bytes@.take(i - 1) + seq![bytes@[i - 1]]);
        }
    }
    proof {
        assert(bytes@.take(bytes@.len() as int) =~= bytes@);
    }
}

/// The kind of text that the tokenizer was reading when it produced a text chunk.
#[derive(Debug, Copy, Clone, PartialEq, Eq, Structural)]
pub enum TextType {
    PlainText,
    RCData,
    RawText,
    ScriptData,
    Data,
    CDataSection,
}

impl TextType {
    /// Whether character references are read in text of this kind.
    pub open spec fn spec_allows_text_entities(self) -> bool {
        self == TextType::Data || self == TextType::RCData
    }

    /// Whether character references are read in text of this kind: in data and in
    /// RCDATA (the text of `<title>` and `<textarea>`).
    pub fn allows_text_entities(&self) -> (r: bool)
        ensures
            r == self.spec_allows_text_entities(),
    {
        match self {
            TextType::Data | TextType::RCData => true,
            _ => false,
        }
    }
}

/// What is inserted before and after a token, what replaces it and whether it is
/// removed; the inserted markup is held in the document's encoding.
#[derive(Debug)]
pub struct OrderingMutations {
    pub content_before: Vec<u8>,
    pub replacements: Vec<u8>,
    pub content_after: Vec<u8>,
    pub removed: bool,
}

impl OrderingMutations {
    /// No mutation yet.
    pub fn new() -> (r: OrderingMutations)
        ensures
            r.content_before@ == Seq::<u8>::empty(),
            r.replacements@ == Seq::<u8>::empty(),
            r.content_after@ == Seq::<u8>::empty(),
            !r.removed,
    {
        OrderingMutations {
            content_before: Vec::new(),
            replacements: Vec::new(),
            content_after: Vec::new(),
            removed: false,
        }
    }

    /// What is written for a token whose own serialization is `body`: the content
    /// before it, then the replacement if there is one, else the token unless it was
    /// removed, then the content after it.
    pub open spec fn wrap(&self, body: Seq<u8>) -> Seq<u8> {
        self.content_before@ + (if self.replacements@.len() > 0 {
            self.replacements@
        } else if !self.removed {
            body
        } else {
            Seq::empty()
        }) + self.content_after@
    }

    /// Inserts `html` before the token, after what was inserted there already.
    pub fn before(&mut self, html: &str, encoding: &str)
        ensures
            final(self).content_before@ == old(self).content_before@ + encoded_chars(encoding@, html@),
            final(self).replacements == old(self).replacements,
            final(self).content_after == old(self).content_after,
            final(self).removed == old(self).removed,
    {
        let bytes = encode_with_replacements(encoding, html);
        push_bytes(&mut self.content_before, bytes.as_slice());
    }

    /// Inserts `html` right after the token, before what was inserted there already.
    pub fn after(&mut self, html: &str, encoding: &str)
        ensures
            final(self).content_after@ == encoded_chars(encoding@, html@) + old(self).content_after@,
            final(self).content_before == old(self).content_before,
            final(self).replacements == old(self).replacements,
            final(self).removed == old(self).removed,
    {
        let mut bytes = encode_with_replacements(encoding, html);
        let mut rest = Vec::new();
        std::mem::swap(&mut rest, &mut self.content_after);
        bytes.append(&mut rest);
        self.content_after = bytes;
    }

    /// Replaces the token with `html`, after what replaced it already.
    pub fn replace(&mut self, html: &str, encoding: &str)
        ensures
            final(self).replacements@ == old(self).replacements@ + encoded_chars(encoding@, html@),
            final(self).content_before == old(self).content_before,
            final(self).content_after == old(self).content_after,
            final(self).removed == old(self).removed,
    {
        let bytes = encode_with_replacements(encoding, html);
        push_bytes(&mut self.replacements, bytes.as_slice());
    }

    /// Removes the token.
    pub fn remove(&mut self)
        ensures
            final(self).removed,
            final(self).content_before == old(self).content_before,
            final(self).replacements == old(self).replacements,
            final(self).content_after == old(self).content_after,
    {
        self.removed = true;
    }

    /// Writes what comes before the token itself (the content before it and the
    /// replacement, if any) and tells whether the token itself is to be written next.
    pub fn write_before(&self, out: &mut Vec<u8>) -> (write_token: bool)
        ensures
            final(out)@ == old(out)@ + self.content_before@ + (if self.replacements@.len() > 0 {
                self.replacements@
            } else {
                Seq::empty()
            }),
            write_token == (self.replacements@.len() == 0 && !self.removed),
    {
        push_bytes(out, self.content_before.as_slice());
        if self.replacements.len() > 0 {
            push_bytes(out, self.replacements.as_slice());
            false
        } else {
            proof {
                assert(out@ =~= old(out)@ + self.content_before@ + Seq::<u8>::empty());
            }
            !self.removed
        }
    }
}

/// Writing the parts of `wrap` one after another gives `wrap`.
pub proof fn lemma_wrap(m: OrderingMutations, start: Seq<u8>, body: Seq<u8>)
    ensures
        start + m.content_before@ + (if m.replacements@.len() > 0 { m.replacements@ } else { Seq::empty() })
            + (if m.replacements@.len() == 0 && !m.removed { body } else { Seq::empty() }) + m.content_after@
            == start + m.wrap(body),
{
    assert(start + m.content_before@ + (if m.replacements@.len() > 0 { m.replacements@ } else { Seq::empty() })
        + (if m.replacements@.len() == 0 && !m.removed { body } else { Seq::empty() }) + m.content_after@
        =~= start + m.wrap(body));
}

/// A token with no mutation is written as it is.
pub proof fn lemma_unmutated_token_written_as_is(m: OrderingMutations, body: Seq<u8>)
    requires
        m.content_before@.len() == 0,
        m.replacements@.len() == 0,
        m.content_after@.len() == 0,
        !m.removed,
    ensures
        m.wrap(body) == body,
{
    assert(m.wrap(body) =~= body);
}

/// A removed token that nothing replaces leaves only what was inserted before and after
/// it.
pub proof fn lemma_removed_token_leaves_inserted_content(m: OrderingMutations, body: Seq<u8>)
    requires
        m.removed,
        m.replacements@.len() == 0,
    ensures
        m.wrap(body) == m.content_before@ + m.content_after@,
{
    assert(m.wrap(body) =~= m.content_before@ + m.content_after@);
}

/// Where a token is replaced, what is written does not depend on the token, removed or
/// not.
pub proof fn lemma_replacement_hides_token(m: OrderingMutations, body: Seq<u8>, other: Seq<u8>)
    requires
        m.replacements@.len() > 0,
    ensures
        m.wrap(body) == m.wrap(other),
        m.wrap(body) == m.content_before@ + m.replacements@ + m.content_after@,
{
}

/// `"` written as `&quot;`, every other byte as it is.
pub open spec fn escape_quotes(s: Seq<u8>) -> Seq<u8>
    decreases s.len(),
{
    if s.len() == 0 {
        Seq::empty()
    } else {
        escape_quotes(s.drop_last()) + (if s.last() == 34u8 {
            seq![38u8, 113u8, 117u8, 111u8, 116u8, 59u8]
        } else {
            seq![s.last()]
        })
    }
}

/// Appends `value` to `out` with `"` written as `&quot;`.
pub fn push_quote_escaped(value: &[u8], out: &mut Vec<u8>)
    ensures
        final(out)@ == old(out)@ + escape_quotes(value@),
{
    let mut i: usize = 0;
    proof {
        assert(value@.take(0) =~= Seq::<u8>::empty());
        assert(old(out)@ + escape_quotes(Seq::<u8>::empty()) =~= old(out)@);
    }
    while i < value.len()
        invariant
            i <= value@.len(),
            out@ == old(out)@ + escape_quotes(value@.take(i as int)),
        decreases value@.len() - i,
    {
        let b = value[i];
        let ghost before = out@;
        if b == 34u8 {
            out.push(38u8);
            out.push(113u8);
            out.push(117u8);
            out.push(111u8);
            out.push(116u8);
            out.push(59u8);
        } else {
            out.push(b);
        }
        proof {
            assert(value@.take(i + 1).drop_last() =~= value@.take(i as int));
            let tail = if b == 34u8 { seq![38u8, 113u8, 117u8, 111u8, 116u8, 59u8] } else { seq![b] };
            assert(out@ =~= before + tail);
            assert(old(out)@ + escape_quotes(value@.take(i as int)) + tail =~= old(out)@ + escape_quotes(
                value@.take(i + 1),
            ));
        }
        i = i + 1;
    }
    proof {
        assert(value@.take(value@.len() as int) =~= value@);
    }
}

/// An attribute of a start tag: its name and value in the document's encoding, and the
/// bytes it was read from while it is unchanged.
#[derive(Debug)]
pub struct Attribute {
    name: Vec<u8>,
    value: Vec<u8>,
    raw: Option<Vec<u8>>,
    encoding: String,
}

impl Attribute {
    /// The name's bytes.
    pub closed spec fn name_bytes(&self) -> Seq<u8> {
        self.name@
    }

    /// The value's bytes.
    pub closed spec fn value_bytes(&self) -> Seq<u8> {
        self.value@
    }

    /// The bytes the attribute was read from, while it is unchanged.
    pub closed spec fn raw_bytes(&self) -> Option<Seq<u8>> {
        match self.raw {
            Some(r) => Some(r@),
            None => None,
        }
    }

    /// The label of the document's encoding.
    pub closed spec fn encoding(&self) -> Seq<char> {
        self.encoding@
    }

    /// The name, decoded and lowercased.
    pub open spec fn spec_name(&self) -> Seq<char> {
        ascii_lower_str(spec_decode(self.encoding(), self.name_bytes()))
    }

    /// The serialization from the parts: `name="value"`, `"` in the value written as
    /// `&quot;`.
    pub open spec fn parts_bytes(&self) -> Seq<u8> {
        self.name_bytes() + seq![61u8, 34u8] + escape_quotes(self.value_bytes()) + seq![34u8]
    }

    /// The serialization: the bytes it was read from while unchanged, else from the
    /// parts.
    pub open spec fn spec_bytes(&self) -> Seq<u8> {
        match self.raw_bytes() {
            Some(r) => r,
            None => self.parts_bytes(),
        }
    }

    /// The document's encoding is known.
    pub open spec fn wf(&self) -> bool {
        spec_encoding_for_label(self.encoding()) is Some
    }

    /// The two attributes have the same parts.
    pub open spec fn same_parts(&self, other: Attribute) -> bool {
        &&& self.name_bytes() == other.name_bytes()
        &&& self.value_bytes() == other.value_bytes()
        &&& self.raw_bytes() == other.raw_bytes()
        &&& self.encoding() == other.encoding()
    }

    /// An attribute read from a document.
    pub fn new_parsed(name: Vec<u8>, value: Vec<u8>, raw: Vec<u8>, encoding: &str) -> (r: Attribute)
        ensures
            r.name_bytes() == name@,
            r.value_bytes() == value@,
            r.raw_bytes() == Some(raw@),
            r.encoding() == encoding@,
    {
        Attribute { name, value, raw: Some(raw), encoding: encoding.to_owned() }
    }

    /// A new attribute: the name is checked (see `spec_attr_name_bytes`), the value
    /// encoded, characters the encoding lacks written as numeric character references.
    pub fn try_from(name: &str, value: &str, encoding: &str) -> (r: Result<Attribute, AttributeNameError>)
        ensures
            match r {
                Ok(a) => spec_attr_name_bytes(encoding@, name@) == Ok::<Seq<u8>, AttributeNameError>(
                    a.name_bytes(),
                ) && a.value_bytes() == encoded_chars(encoding@, value@) && a.raw_bytes() is None
                    && a.encoding() == encoding@,
                Err(e) => spec_attr_name_bytes(encoding@, name@) == Err::<Seq<u8>, AttributeNameError>(e),
            },
    {
        match name_from_str(name, encoding) {
            Ok(name) => Ok(
                Attribute {
                    name,
                    value: encode_with_replacements(encoding, value),
                    raw: None,
                    encoding: encoding.to_owned(),
                },
            ),
            Err(e) => Err(e),
        }
    }

    /// The name, decoded and lowercased.
    pub fn name(&self) -> (r: String)
        requires
            self.wf(),
        ensures
            r@ == self.spec_name(),
    {
        let decoded = decode(self.encoding.as_str(), self.name.as_slice());
        to_ascii_lowercase(decoded.as_str())
    }

    /// The name, decoded, in the case it was written in.
    pub fn name_preserve_case(&self) -> (r: String)
        requires
            self.wf(),
        ensures
            r@ == spec_decode(self.encoding(), self.name_bytes()),
    {
        decode(self.encoding.as_str(), self.name.as_slice())
    }

    /// A copy of the attribute that owns all its parts.
    pub fn to_owned(&self) -> (r: Attribute)
        ensures
            r.name_bytes() == self.name_bytes(),
            r.value_bytes() == self.value_bytes(),
            r.raw_bytes() == self.raw_bytes(),
            r.encoding() == self.encoding(),
    {
        let raw = match &self.raw {
            Some(r) => Some(vstd::slice::slice_to_vec(r.as_slice())),
            None => None,
        };
        Attribute {
            name: vstd::slice::slice_to_vec(self.name.as_slice()),
            value: vstd::slice::slice_to_vec(self.value.as_slice()),
            raw,
            encoding: self.encoding.as_str().to_owned(),
        }
    }

    /// The value, decoded.
    pub fn value(&self) -> (r: String)
        requires
            self.wf(),
        ensures
            r@ == spec_decode(self.encoding(), self.value_bytes()),
    {
        decode(self.encoding.as_str(), self.value.as_slice())
    }

    /// Renames the attribute; the name is checked (see `spec_attr_name_bytes`) and the
    /// attribute is then written from its parts. An invalid name leaves it unchanged.
    pub fn set_name(&mut self, name: &str) -> (r: Result<(), AttributeValidationError>)
        ensures
            match r {
                Ok(_) => spec_attr_name_bytes(old(self).encoding(), name@) == Ok::<Seq<u8>, AttributeNameError>(
                    final(self).name_bytes(),
                ) && final(self).value_bytes() == old(self).value_bytes() && final(self).encoding() == old(
                    self,
                ).encoding() && final(self).raw_bytes() is None,
                Err(e) => (match spec_attr_name_bytes(old(self).encoding(), name@) {
                    Ok(_) => false,
                    Err(n) => spec_validation_error(n) == e,
                }) && *final(self) == *old(self),
            },
    {
        match name_from_str(name, self.encoding.as_str()) {
            Ok(bytes) => {
                self.name = bytes;
                self.raw = None;
                Ok(())
            },
            Err(e) => Err(validation_error(e)),
        }
    }

    /// Sets the value; the attribute is then written from its parts.
    pub fn set_value(&mut self, value: &str)
        ensures
            final(self).value_bytes() == encoded_chars(old(self).encoding(), value@),
            final(self).name_bytes() == old(self).name_bytes(),
            final(self).encoding() == old(self).encoding(),
            final(self).raw_bytes() is None,
    {
        self.value = encode_with_replacements(self.encoding.as_str(), value);
        self.raw = None;
    }

    /// Writes the attribute from its parts.
    pub fn serialize_from_parts(&self, out: &mut Vec<u8>)
        ensures
            final(out)@ == old(out)@ + self.parts_bytes(),
    {
        push_bytes(out, self.name.as_slice());
        out.push(61u8);
        out.push(34u8);
        push_quote_escaped(self.value.as_slice(), out);
        out.push(34u8);
        proof {
            assert(out@ =~= old(out)@ + self.parts_bytes());
        }
    }

    /// Writes the attribute: the bytes it was read from while unchanged, else from its
    /// parts.
    pub fn to_bytes(&self, out: &mut Vec<u8>)
        ensures
            final(out)@ == old(out)@ + self.spec_bytes(),
    {
        match &self.raw {
            Some(raw) => push_bytes(out, raw.as_slice()),
            None => self.serialize_from_parts(out),
        }
    }
}

/// The attributes written one after another, separated by a space.
pub open spec fn attrs_bytes(attrs: Seq<Attribute>) -> Seq<u8>
    decreases attrs.len(),
{
    if attrs.len() == 0 {
        Seq::empty()
    } else if attrs.len() == 1 {
        attrs[0].spec_bytes()
    } else {
        attrs_bytes(attrs.drop_last()) + seq![32u8] + attrs.last().spec_bytes()
    }
}

/// Writes the attributes separated by a space.
pub fn attributes_to_bytes(attrs: &Vec<Attribute>, out: &mut Vec<u8>)
    ensures
        final(out)@ == old(out)@ + attrs_bytes(attrs@),
{
    let mut i: usize = 0;
    proof {
        assert(attrs@.take(0) =~= Seq::<Attribute>::empty());
        assert(old(out)@ + attrs_bytes(Seq::<Attribute>::empty()) =~= old(out)@);
    }
    while i < attrs.len()
        invariant
            i <= attrs@.len(),
            out@ == old(out)@ + attrs_bytes(attrs@.take(i as int)),
        decreases attrs@.len() - i,
    {
        let ghost before = out@;
        if i > 0 {
            out.push(32u8);
        }
        attrs[i].to_bytes(out);
        proof {
            let t = attrs@.take(i + 1);
            assert(t.drop_last() =~= attrs@.take(i as int));
            assert(t.last() == attrs@[i as int]);
            if i == 0 {
                assert(attrs_bytes(t) == t[0].spec_bytes());
                assert(out@ =~= old(out)@ + attrs_bytes(t));
            } else {
                assert(out@ =~= old(out)@ + attrs_bytes(t));
            }
        }
        i = i + 1;
    }
    proof {
        assert(attrs@.take(attrs@.len() as int) =~= attrs@);
    }
}

/// Index of the first attribute whose name is `name`.
pub open spec fn find_attr(attrs: Seq<Attribute>, name: Seq<char>) -> Option<int>
    decreases attrs.len(),
{
    if attrs.len() == 0 {
        None
    } else {
        match find_attr(attrs.drop_last(), name) {
            Some(i) => Some(i),
            None => if attrs.last().spec_name() == name {
                Some(attrs.len() - 1)
            } else {
                None
            },
        }
    }
}

/// What `find_attr` gives, read from left to right.
pub proof fn lemma_find_attr(attrs: Seq<Attribute>, name: Seq<char>, i: int)
    requires
        0 <= i <= attrs.len(),
        forall|k: int| 0 <= k < i ==> (#[trigger] attrs[k]).spec_name() != name,
        i < attrs.len() ==> attrs[i].spec_name() == name,
    ensures
        find_attr(attrs, name) == (if i < attrs.len() { Some(i) } else { None::<int> }),
    decreases attrs.len(),
{
    if attrs.len() > 0 {
        if i == attrs.len() {
            lemma_find_attr(attrs.drop_last(), name, i - 1);
        } else {
            lemma_find_attr(attrs.drop_last(), name, i);
        }
    }
}

/// `find_attr` finds an index of the sequence.
proof fn lemma_find_attr_bounds(a: Seq<Attribute>, name: Seq<char>)
    ensures
        find_attr(a, name) matches Some(i) ==> 0 <= i < a.len(),
    decreases a.len(),
{
    if a.len() > 0 {
        lemma_find_attr_bounds(a.drop_last(), name);
    }
}

/// Changing the value of the attribute that `find_attr` finds, and nothing else that
/// names depend on, leaves it the one found.
proof fn lemma_find_attr_update(a: Seq<Attribute>, b: Seq<Attribute>, name: Seq<char>, i: int)
    requires
        find_attr(a, ascii_lower_str(name)) == Some(i),
        a.len() == b.len(),
        0 <= i < a.len(),
        forall|k: int| 0 <= k < a.len() && k != i ==> #[trigger] b[k] == a[k],
        b[i].name_bytes() == a[i].name_bytes(),
        b[i].encoding() == a[i].encoding(),
    ensures
        find_attr(b, ascii_lower_str(name)) == Some(i),
    decreases a.len(),
{
    let n = ascii_lower_str(name);
    lemma_find_attr_bounds(a.drop_last(), n);
    if i < a.len() - 1 {
        assert(find_attr(a.drop_last(), n) == Some(i));
        lemma_find_attr_update(a.drop_last(), b.drop_last(), name, i);
    } else {
        assert(find_attr(a.drop_last(), n) is None);
        assert forall|k: int| 0 <= k < a.len() - 1 implies #[trigger] b.drop_last()[k] == a.drop_last()[k] by {}
        assert(b.drop_last() =~= a.drop_last());
    }
}

/// Every attribute knows the document's encoding.
pub open spec fn attrs_wf(attrs: Seq<Attribute>) -> bool {
    forall|k: int| 0 <= k < attrs.len() ==> (#[trigger] attrs[k]).wf()
}

/// Index of the first attribute whose name is `name`.
fn position_of_attr(attrs: &Vec<Attribute>, name: &String) -> (r: Option<usize>)
    requires
        attrs_wf(attrs@),
    ensures
        match r {
            Some(i) => find_attr(attrs@, name@) == Some(i as int) && i < attrs@.len(),
            None => find_attr(attrs@, name@) is None,
        },
{
    let mut i: usize = 0;
    while i < attrs.len()
        invariant
            i <= attrs@.len(),
            attrs_wf(attrs@),
            forall|k: int| 0 <= k < i ==> (#[trigger] attrs@[k]).spec_name() != name@,
        decreases attrs@.len() - i,
    {
        let n = attrs[i].name();
        if n == *name {
            proof {
                lemma_find_attr(attrs@, name@, i as int);
            }
            return Some(i);
        }
        i = i + 1;
    }
    proof {
        lemma_find_attr(attrs@, name@, i as int);
    }
    None
}

/// An end tag.
#[derive(Debug)]
pub struct EndTag {
    name: Vec<u8>,
    raw: Option<Vec<u8>>,
    encoding: String,
    ordering_mutations: OrderingMutations,
}

impl EndTag {
    /// The name's bytes.
    pub closed spec fn name_bytes(&self) -> Seq<u8> {
        self.name@
    }

    /// The bytes the tag was read from, while it is unchanged.
    pub closed spec fn raw_bytes(&self) -> Option<Seq<u8>> {
        match self.raw {
            Some(r) => Some(r@),
            None => None,
        }
    }

    /// The label of the document's encoding.
    pub closed spec fn encoding(&self) -> Seq<char> {
        self.encoding@
    }

    /// The mutations of the tag.
    pub closed spec fn mutations(&self) -> OrderingMutations {
        self.ordering_mutations
    }

    /// The document's encoding is known.
    pub open spec fn wf(&self) -> bool {
        spec_encoding_for_label(self.encoding()) is Some
    }

    /// `</name>`.
    pub open spec fn parts_bytes(&self) -> Seq<u8> {
        seq![60u8, 47u8] + self.name_bytes() + seq![62u8]
    }

    /// The tag itself: the bytes it was read from while unchanged, else from its parts.
    pub open spec fn body(&self) -> Seq<u8> {
        match self.raw_bytes() {
            Some(r) => r,
            None => self.parts_bytes(),
        }
    }

    /// What is written for the tag, its mutations included.
    pub open spec fn spec_bytes(&self) -> Seq<u8> {
        self.mutations().wrap(self.body())
    }

    /// An end tag read from a document.
    pub fn new_parsed(name: Vec<u8>, raw: Vec<u8>, encoding: &str) -> (r: EndTag)
        ensures
            r.name_bytes() == name@,
            r.raw_bytes() == Some(raw@),
            r.encoding() == encoding@,
            r.mutations().content_before@.len() == 0,
            r.mutations().replacements@.len() == 0,
            r.mutations().content_after@.len() == 0,
            !r.mutations().removed,
    {
        EndTag { name, raw: Some(raw), encoding: encoding.to_owned(), ordering_mutations: OrderingMutations::new() }
    }

    /// The name, decoded and lowercased.
    pub fn name(&self) -> (r: String)
        requires
            self.wf(),
        ensures
            r@ == ascii_lower_str(spec_decode(self.encoding(), self.name_bytes())),
    {
        let decoded = decode(self.encoding.as_str(), self.name.as_slice());
        to_ascii_lowercase(decoded.as_str())
    }

    /// Renames the tag (see `spec_tag_name_bytes`); it is then written from its parts.
    /// A refused name leaves the tag as it was.
    pub fn set_name(&mut self, name: &str) -> (r: Result<(), TagNameError>)
        ensures
            match spec_tag_name_bytes(old(self).encoding(), name@) {
                Ok(b) => r is Ok && final(self).name_bytes() == b && final(self).raw_bytes() is None,
                Err(e) => r == Err::<(), TagNameError>(e) && *final(self) == *old(self),
            },
            final(self).encoding() == old(self).encoding(),
            final(self).mutations() == old(self).mutations(),
    {
        match tag_name_bytes_from_str(name, self.encoding.as_str()) {
            Ok(bytes) => {
                self.name = bytes;
                self.raw = None;
                Ok(())
            },
            Err(e) => Err(e),
        }
    }

    /// Renames the tag with a name already checked and encoded; it is then written from
    /// its parts.
    pub fn set_name_bytes(&mut self, name: Vec<u8>)
        ensures
            final(self).name_bytes() == name@,
            final(self).raw_bytes() is None,
            final(self).encoding() == old(self).encoding(),
            final(self).mutations() == old(self).mutations(),
    {
        self.name = name;
        self.raw = None;
    }

    /// Inserts `html` before the tag.
    pub fn before(&mut self, html: &str)
        ensures
            final(self).mutations().content_before@ == old(self).mutations().content_before@ + encoded_chars(
                old(self).encoding(),
                html@,
            ),
            final(self).mutations().replacements == old(self).mutations().replacements,
            final(self).mutations().content_after == old(self).mutations().content_after,
            final(self).mutations().removed == old(self).mutations().removed,
            final(self).name_bytes() == old(self).name_bytes(),
            final(self).raw_bytes() == old(self).raw_bytes(),
            final(self).encoding() == old(self).encoding(),
    {
        self.ordering_mutations.before(html, self.encoding.as_str());
    }

    /// Inserts `html` right after the tag.
    pub fn after(&mut self, html: &str)
        ensures
            final(self).mutations().content_after@ == encoded_chars(old(self).encoding(), html@) + old(
                self,
            ).mutations().content_after@,
            final(self).mutations().content_before == old(self).mutations().content_before,
            final(self).mutations().replacements == old(self).mutations().replacements,
            final(self).mutations().removed == old(self).mutations().removed,
            final(self).name_bytes() == old(self).name_bytes(),
            final(self).raw_bytes() == old(self).raw_bytes(),
            final(self).encoding() == old(self).encoding(),
    {
        self.ordering_mutations.after(html, self.encoding.as_str());
    }

    /// Replaces the tag with `html`.
    pub fn replace(&mut self, html: &str)
        ensures
            final(self).mutations().replacements@ == old(self).mutations().replacements@ + encoded_chars(
                old(self).encoding(),
                html@,
            ),
            final(self).mutations().content_before == old(self).mutations().content_before,
            final(self).mutations().content_after == old(self).mutations().content_after,
            final(self).mutations().removed == old(self).mutations().removed,
            final(self).name_bytes() == old(self).name_bytes(),
            final(self).raw_bytes() == old(self).raw_bytes(),
            final(self).encoding() == old(self).encoding(),
    {
        self.ordering_mutations.replace(html, self.encoding.as_str());
    }

    /// Removes the tag.
    pub fn remove(&mut self)
        ensures
            final(self).mutations().removed,
            final(self).mutations().content_before == old(self).mutations().content_before,
            final(self).mutations().replacements == old(self).mutations().replacements,
            final(self).mutations().content_after == old(self).mutations().content_after,
            final(self).name_bytes() == old(self).name_bytes(),
            final(self).raw_bytes() == old(self).raw_bytes(),
            final(self).encoding() == old(self).encoding(),
    {
        self.ordering_mutations.remove();
    }

    /// Writes `</name>`.
    pub fn serialize_from_parts(&self, out: &mut Vec<u8>)
        ensures
            final(out)@ == old(out)@ + self.parts_bytes(),
    {
        out.push(60u8);
        out.push(47u8);
        push_bytes(out, self.name.as_slice());
        out.push(62u8);
        proof {
            assert(out@ =~= old(out)@ + self.parts_bytes());
        }
    }

    /// Writes the tag with its mutations.
    pub fn to_bytes(&self, out: &mut Vec<u8>)
        ensures
            final(out)@ == old(out)@ + self.spec_bytes(),
    {
        let ghost start = out@;
        let write_token = self.ordering_mutations.write_before(out);
        let ghost mid = out@;
        if write_token {
            match &self.raw {
                Some(raw) => push_bytes(out, raw.as_slice()),
                None => self.serialize_from_parts(out),
            }
        } else {
            proof {
                assert(out@ =~= mid + Seq::<u8>::empty());
            }
        }
        push_bytes(out, self.ordering_mutations.content_after.as_slice());
        proof {
            lemma_wrap(self.ordering_mutations, start, self.body());
        }
    }
}

/// A comment.
#[derive(Debug)]
pub struct Comment {
    text: Vec<u8>,
    raw: Option<Vec<u8>>,
    encoding: String,
    ordering_mutations: OrderingMutations,
}

impl Comment {
    /// The text's bytes.
    pub closed spec fn text_bytes(&self) -> Seq<u8> {
        self.text@
    }

    /// The bytes the comment was read from, while it is unchanged.
    pub closed spec fn raw_bytes(&self) -> Option<Seq<u8>> {
        match self.raw {
            Some(r) => Some(r@),
            None => None,
        }
    }

    /// The label of the document's encoding.
    pub closed spec fn encoding(&self) -> Seq<char> {
        self.encoding@
    }

    /// The mutations of the comment.
    pub closed spec fn mutations(&self) -> OrderingMutations {
        self.ordering_mutations
    }

    /// The document's encoding is known.
    pub open spec fn wf(&self) -> bool {
        spec_encoding_for_label(self.encoding()) is Some
    }

    /// `<!--text-->`.
    pub open spec fn parts_bytes(&self) -> Seq<u8> {
        seq![60u8, 33u8, 45u8, 45u8] + self.text_bytes() + seq![45u8, 45u8, 62u8]
    }

    /// The comment itself: the bytes it was read from while unchanged, else from its
    /// parts.
    pub open spec fn body(&self) -> Seq<u8> {
        match self.raw_bytes() {
            Some(r) => r,
            None => self.parts_bytes(),
        }
    }

    /// What is written for the comment, its mutations included.
    pub open spec fn spec_bytes(&self) -> Seq<u8> {
        self.mutations().wrap(self.body())
    }

    /// A comment read from a document.
    pub fn new_parsed(text: Vec<u8>, raw: Vec<u8>, encoding: &str) -> (r: Comment)
        ensures
            r.text_bytes() == text@,
            r.raw_bytes() == Some(raw@),
            r.encoding() == encoding@,
            r.mutations().content_before@.len() == 0,
            r.mutations().replacements@.len() == 0,
            r.mutations().content_after@.len() == 0,
            !r.mutations().removed,
    {
        Comment { text, raw: Some(raw), encoding: encoding.to_owned(), ordering_mutations: OrderingMutations::new() }
    }

    /// The text, decoded.
    pub fn text(&self) -> (r: String)
        requires
            self.wf(),
        ensures
            r@ == spec_decode(self.encoding(), self.text_bytes()),
    {
        decode(self.encoding.as_str(), self.text.as_slice())
    }

    /// Sets the text (see `spec_comment_text_bytes`); the comment is then written from
    /// its parts. A refused text leaves the comment as it was.
    pub fn set_text(&mut self, text: &str) -> (r: Result<(), CommentTextError>)
        ensures
            match spec_comment_text_bytes(old(self).encoding(), text) {
                Ok(b) => r is Ok && final(self).text_bytes() == b && final(self).raw_bytes() is None,
                Err(e) => r == Err::<(), CommentTextError>(e) && *final(self) == *old(self),
            },
            final(self).encoding() == old(self).encoding(),
            final(self).mutations() == old(self).mutations(),
    {
        match comment_text_from_str(text, self.encoding.as_str()) {
            Ok(bytes) => {
                self.text = bytes;
                self.raw = None;
                Ok(())
            },
            Err(e) => Err(e),
        }
    }

    /// Inserts `html` before the comment.
    pub fn before(&mut self, html: &str)
        ensures
            final(self).mutations().content_before@ == old(self).mutations().content_before@ + encoded_chars(
                old(self).encoding(),
                html@,
            ),
            final(self).mutations().replacements == old(self).mutations().replacements,
            final(self).mutations().content_after == old(self).mutations().content_after,
            final(self).mutations().removed == old(self).mutations().removed,
            final(self).text_bytes() == old(self).text_bytes(),
            final(self).raw_bytes() == old(self).raw_bytes(),
            final(self).encoding() == old(self).encoding(),
    {
        self.ordering_mutations.before(html, self.encoding.as_str());
    }

    /// Inserts `html` right after the comment.
    pub fn after(&mut self, html: &str)
        ensures
            final(self).mutations().content_after@ == encoded_chars(old(self).encoding(), html@) + old(
                self,
            ).mutations().content_after@,
            final(self).mutations().content_before == old(self).mutations().content_before,
            final(self).mutations().replacements == old(self).mutations().replacements,
            final(self).mutations().removed == old(self).mutations().removed,
            final(self).text_bytes() == old(self).text_bytes(),
            final(self).raw_bytes() == old(self).raw_bytes(),
            final(self).encoding() == old(self).encoding(),
    {
        self.ordering_mutations.after(html, self.encoding.as_str());
    }

    /// Replaces the comment with `html`.
    pub fn replace(&mut self, html: &str)
        ensures
            final(self).mutations().replacements@ == old(self).mutations().replacements@ + encoded_chars(
                old(self).encoding(),
                html@,
            ),
            final(self).mutations().content_before == old(self).mutations().content_before,
            final(self).mutations().content_after == old(self).mutations().content_after,
            final(self).mutations().removed == old(self).mutations().removed,
            final(self).text_bytes() == old(self).text_bytes(),
            final(self).raw_bytes() == old(self).raw_bytes(),
            final(self).encoding() == old(self).encoding(),
    {
        self.ordering_mutations.replace(html, self.encoding.as_str());
    }

    /// Removes the comment.
    pub fn remove(&mut self)
        ensures
            final(self).mutations().removed,
            final(self).mutations().content_before == old(self).mutations().content_before,
            final(self).mutations().replacements == old(self).mutations().replacements,
            final(self).mutations().content_after == old(self).mutations().content_after,
            final(self).text_bytes() == old(self).text_bytes(),
            final(self).raw_bytes() == old(self).raw_bytes(),
            final(self).encoding() == old(self).encoding(),
    {
        self.ordering_mutations.remove();
    }

    /// Writes `<!--text-->`.
    pub fn serialize_from_parts(&self, out: &mut Vec<u8>)
        ensures
            final(out)@ == old(out)@ + self.parts_bytes(),
    {
        out.push(60u8);
        out.push(33u8);
        out.push(45u8);
        out.push(45u8);
        push_bytes(out, self.text.as_slice());
        out.push(45u8);
        out.push(45u8);
        out.push(62u8);
        proof {
            assert(out@ =~= old(out)@ + self.parts_bytes());
        }
    }

    /// Writes the comment with its mutations.
    pub fn to_bytes(&self, out: &mut Vec<u8>)
        ensures
            final(out)@ == old(out)@ + self.spec_bytes(),
    {
        let ghost start = out@;
        let write_token = self.ordering_mutations.write_before(out);
        let ghost mid = out@;
        if write_token {
            match &self.raw {
                Some(raw) => push_bytes(out, raw.as_slice()),
                None => self.serialize_from_parts(out),
            }
        } else {
            proof {
                assert(out@ =~= mid + Seq::<u8>::empty());
            }
        }
        push_bytes(out, self.ordering_mutations.content_after.as_slice());
        proof {
            lemma_wrap(self.ordering_mutations, start, self.body());
        }
    }
}

/// A start tag.
#[derive(Debug)]
pub struct StartTag {
    name: Vec<u8>,
    attributes: Vec<Attribute>,
    ns: Namespace,
    self_closing: bool,
    raw: Option<Vec<u8>>,
    encoding: String,
    ordering_mutations: OrderingMutations,
}

impl StartTag {
    /// The name's bytes.
    pub closed spec fn name_bytes(&self) -> Seq<u8> {
        self.name@
    }

    /// The attributes.
    pub closed spec fn attrs(&self) -> Seq<Attribute> {
        self.attributes@
    }

    /// Whether the tag is self-closing.
    pub closed spec fn is_self_closing(&self) -> bool {
        self.self_closing
    }

    /// The namespace of the element.
    pub closed spec fn namespace(&self) -> Namespace {
        self.ns
    }

    /// The bytes the tag was read from, while it is unchanged.
    pub closed spec fn raw_bytes(&self) -> Option<Seq<u8>> {
        match self.raw {
            Some(r) => Some(r@),
            None => None,
        }
    }

    /// The label of the document's encoding.
    pub closed spec fn encoding(&self) -> Seq<char> {
        self.encoding@
    }

    /// The mutations of the tag.
    pub closed spec fn mutations(&self) -> OrderingMutations {
        self.ordering_mutations
    }

    /// The document's encoding is known, and it is that of every attribute.
    pub open spec fn wf(&self) -> bool {
        &&& spec_encoding_for_label(self.encoding()) is Some
        &&& forall|k: int| 0 <= k < self.attrs().len() ==> (#[trigger] self.attrs()[k]).encoding() == self.encoding()
    }

    /// `<name attrs>`, or `<name attrs />` where the tag is self-closing; with no
    /// attributes, `<name>` or `<name/>`.
    pub open spec fn parts_bytes(&self) -> Seq<u8> {
        seq![60u8] + self.name_bytes() + (if self.attrs().len() > 0 {
            seq![32u8] + attrs_bytes(self.attrs()) + (if self.is_self_closing() { seq![32u8] } else { Seq::empty() })
        } else {
            Seq::empty()
        }) + (if self.is_self_closing() { seq![47u8, 62u8] } else { seq![62u8] })
    }

    /// The tag itself: the bytes it was read from while unchanged, else from its parts.
    pub open spec fn body(&self) -> Seq<u8> {
        match self.raw_bytes() {
            Some(r) => r,
            None => self.parts_bytes(),
        }
    }

    /// What is written for the tag, its mutations included.
    pub open spec fn spec_bytes(&self) -> Seq<u8> {
        self.mutations().wrap(self.body())
    }

    /// A start tag read from a document.
    pub fn new_parsed(
        name: Vec<u8>,
        attributes: Vec<Attribute>,
        ns: Namespace,
        self_closing: bool,
        raw: Vec<u8>,
        encoding: &str,
    ) -> (r: StartTag)
        ensures
            r.name_bytes() == name@,
            r.attrs() == attributes@,
            r.namespace() == ns,
            r.is_self_closing() == self_closing,
            r.raw_bytes() == Some(raw@),
            r.encoding() == encoding@,
            r.mutations().content_before@.len() == 0,
            r.mutations().replacements@.len() == 0,
            r.mutations().content_after@.len() == 0,
            !r.mutations().removed,
    {
        StartTag {
            name,
            attributes,
            ns,
            self_closing,
            raw: Some(raw),
            encoding: encoding.to_owned(),
            ordering_mutations: OrderingMutations::new(),
        }
    }

    /// The name, decoded and lowercased.
    pub fn name(&self) -> (r: String)
        requires
            self.wf(),
        ensures
            r@ == ascii_lower_str(spec_decode(self.encoding(), self.name_bytes())),
    {
        let decoded = decode(self.encoding.as_str(), self.name.as_slice());
        to_ascii_lowercase(decoded.as_str())
    }

    /// Renames the tag (see `spec_tag_name_bytes`); it is then written from its parts.
    /// A refused name leaves the tag as it was.
    pub fn set_name(&mut self, name: &str) -> (r: Result<(), TagNameError>)
        ensures
            match spec_tag_name_bytes(old(self).encoding(), name@) {
                Ok(b) => r is Ok && final(self).name_bytes() == b && final(self).raw_bytes() is None,
                Err(e) => r == Err::<(), TagNameError>(e) && *final(self) == *old(self),
            },
            final(self).attrs() == old(self).attrs(),
            final(self).is_self_closing() == old(self).is_self_closing(),
            final(self).namespace() == old(self).namespace(),
            final(self).encoding() == old(self).encoding(),
            final(self).mutations() == old(self).mutations(),
    {
        match tag_name_bytes_from_str(name, self.encoding.as_str()) {
            Ok(bytes) => {
                self.name = bytes;
                self.raw = None;
                Ok(())
            },
            Err(e) => Err(e),
        }
    }

    /// The label of the document's encoding.
    pub fn encoding_label(&self) -> (r: &str)
        ensures
            r@ == self.encoding(),
    {
        self.encoding.as_str()
    }

    /// The attributes.
    pub fn attributes(&self) -> (r: &Vec<Attribute>)
        ensures
            r@ == self.attrs(),
    {
        &self.attributes
    }

    /// The value of the first attribute with the given name (ASCII case aside).
    pub fn get_attribute(&self, name: &str) -> (r: Option<String>)
        requires
            self.wf(),
        ensures
            match find_attr(self.attrs(), ascii_lower_str(name@)) {
                Some(i) => r is Some && r.unwrap()@ == spec_decode(self.encoding(), self.attrs()[i].value_bytes()),
                None => r is None,
            },
    {
        let name = to_ascii_lowercase(name);
        proof {
            assert(attrs_wf(self.attributes@)) by {
                assert forall|k: int| 0 <= k < self.attributes@.len() implies (#[trigger] self.attributes@[k]).wf() by {
                    assert(self.attrs()[k].encoding() == self.encoding());
                }
            }
        }
        match position_of_attr(&self.attributes, &name) {
            Some(i) => {
                proof {
                    assert(self.attrs()[i as int].encoding() == self.encoding());
                }
                Some(self.attributes[i].value())
            },
            None => None,
        }
    }

    /// Whether the tag has an attribute with the given name (ASCII case aside).
    pub fn has_attribute(&self, name: &str) -> (r: bool)
        requires
            self.wf(),
        ensures
            r == find_attr(self.attrs(), ascii_lower_str(name@)) is Some,
    {
        let name = to_ascii_lowercase(name);
        proof {
            assert(attrs_wf(self.attributes@)) by {
                assert forall|k: int| 0 <= k < self.attributes@.len() implies (#[trigger] self.attributes@[k]).wf() by {
                    assert(self.attrs()[k].encoding() == self.encoding());
                }
            }
        }
        position_of_attr(&self.attributes, &name).is_some()
    }

    /// Sets the value of the first attribute with the given name (ASCII case aside), or
    /// adds the attribute, its name lowercased, where there is none; the tag is then
    /// written from its parts. A refused name (see `spec_attr_name_bytes`) leaves the tag
    /// as it was.
    pub fn set_attribute(&mut self, name: &str, value: &str) -> (r: Result<(), AttributeNameError>)
        requires
            old(self).wf(),
        ensures
            final(self).wf(),
            final(self).name_bytes() == old(self).name_bytes(),
            final(self).is_self_closing() == old(self).is_self_closing(),
            final(self).namespace() == old(self).namespace(),
            final(self).encoding() == old(self).encoding(),
            final(self).mutations() == old(self).mutations(),
            match find_attr(old(self).attrs(), ascii_lower_str(name@)) {
                Some(i) => {
                    &&& r is Ok
                    &&& final(self).raw_bytes() is None
                    &&& final(self).attrs().len() == old(self).attrs().len()
                    &&& forall|k: int| 0 <= k < old(self).attrs().len() && k != i ==> #[trigger] final(self).attrs()[k]
                        == old(self).attrs()[k]
                    &&& final(self).attrs()[i].name_bytes() == old(self).attrs()[i].name_bytes()
                    &&& final(self).attrs()[i].value_bytes() == encoded_chars(old(self).encoding(), value@)
                    &&& final(self).attrs()[i].raw_bytes() is None
                    &&& find_attr(final(self).attrs(), ascii_lower_str(name@)) == Some(i)
                },
                None => match spec_attr_name_bytes(old(self).encoding(), ascii_lower_str(name@)) {
                    Ok(b) => {
                        &&& r is Ok
                        &&& final(self).raw_bytes() is None
                        &&& final(self).attrs().len() == old(self).attrs().len() + 1
                        &&& final(self).attrs().drop_last() == old(self).attrs()
                        &&& final(self).attrs().last().name_bytes() == b
                        &&& final(self).attrs().last().value_bytes() == encoded_chars(old(self).encoding(), value@)
                        &&& final(self).attrs().last().raw_bytes() is None
                    },
                    Err(e) => r == Err::<(), AttributeNameError>(e) && *final(self) == *old(self),
                },
            },
    {
        let lname = to_ascii_lowercase(name);
        proof {
            assert(attrs_wf(self.attributes@)) by {
                assert forall|k: int| 0 <= k < self.attributes@.len() implies (#[trigger] self.attributes@[k]).wf() by {
                    assert(self.attrs()[k].encoding() == self.encoding());
                }
            }
        }
        match position_of_attr(&self.attributes, &lname) {
            Some(i) => {
                let mut attr = self.attributes.remove(i);
                attr.set_value(value);
                self.attributes.insert(i, attr);
                self.raw = None;
                proof {
                    assert forall|k: int| 0 <= k < old(self).attrs().len() && k != i implies #[trigger] self.attrs()[k]
                        == old(self).attrs()[k] by {}
                    lemma_find_attr_update(old(self).attrs(), self.attrs(), name@, i as int);
                    assert forall|k: int| 0 <= k < self.attrs().len() implies (#[trigger] self.attrs()[k]).encoding()
                        == self.encoding() by {
                        if k != i {
                            assert(self.attrs()[k] == old(self).attrs()[k]);
                        }
                    }
                }
                Ok(())
            },
            None => match Attribute::try_from(lname.as_str(), value, self.encoding.as_str()) {
                Ok(attr) => {
                    self.attributes.push(attr);
                    self.raw = None;
                    proof {
                        assert(self.attributes@.drop_last() =~= old(self).attributes@);
                    }
                    Ok(())
                },
                Err(e) => Err(e),
            },
        }
    }

    /// Removes the first attribute with the given name (ASCII case aside); where there is
    /// one, the tag is then written from its parts.
    pub fn remove_attribute(&mut self, name: &str)
        requires
            old(self).wf(),
        ensures
            final(self).wf(),
            match find_attr(old(self).attrs(), ascii_lower_str(name@)) {
                Some(i) => final(self).attrs() == old(self).attrs().remove(i) && final(self).raw_bytes() is None,
                None => *final(self) == *old(self),
            },
            final(self).name_bytes() == old(self).name_bytes(),
            final(self).is_self_closing() == old(self).is_self_closing(),
            final(self).namespace() == old(self).namespace(),
            final(self).encoding() == old(self).encoding(),
            final(self).mutations() == old(self).mutations(),
    {
        let name = to_ascii_lowercase(name);
        proof {
            assert(attrs_wf(self.attributes@)) by {
                assert forall|k: int| 0 <= k < self.attributes@.len() implies (#[trigger] self.attributes@[k]).wf() by {
                    assert(self.attrs()[k].encoding() == self.encoding());
                }
            }
        }
        match position_of_attr(&self.attributes, &name) {
            Some(i) => {
                self.attributes.remove(i);
                self.raw = None;
                proof {
                    assert forall|k: int| 0 <= k < self.attrs().len() implies (#[trigger] self.attrs()[k]).encoding()
                        == self.encoding() by {
                        if k < i {
                            assert(self.attrs()[k] == old(self).attrs()[k]);
                        } else {
                            assert(self.attrs()[k] == old(self).attrs()[k + 1]);
                        }
                    }
                }
            },
            None => {},
        }
    }

    /// Whether the tag is self-closing.
    pub fn self_closing(&self) -> (r: bool)
        ensures
            r == self.is_self_closing(),
    {
        self.self_closing
    }

    /// The URI of the element's namespace.
    pub fn namespace_uri(&self) -> (r: &'static str)
        ensures
            r@ == namespace_uri_of(self.namespace()),
    {
        self.ns.uri()
    }

    /// A copy of the tag that owns all its parts, attributes and mutations included.
    pub fn to_owned(&self) -> (r: StartTag)
        ensures
            r.name_bytes() == self.name_bytes(),
            r.attrs().len() == self.attrs().len(),
            forall|i: int| 0 <= i < self.attrs().len() ==> #[trigger] r.attrs()[i].same_parts(self.attrs()[i]),
            r.namespace() == self.namespace(),
            r.is_self_closing() == self.is_self_closing(),
            r.raw_bytes() == self.raw_bytes(),
            r.encoding() == self.encoding(),
            r.mutations().content_before@ == self.mutations().content_before@,
            r.mutations().replacements@ == self.mutations().replacements@,
            r.mutations().content_after@ == self.mutations().content_after@,
            r.mutations().removed == self.mutations().removed,
    {
        let mut attributes: Vec<Attribute> = Vec::new();
        let mut i: usize = 0;
        while i < self.attributes.len()
            invariant
                i <= self.attributes@.len(),
                attributes@.len() == i,
                forall|k: int| 0 <= k < i ==> #[trigger] attributes@[k].same_parts(self.attributes@[k]),
            decreases self.attributes@.len() - i,
        {
            attributes.push(self.attributes[i].to_owned());
            i = i + 1;
        }
        let m = &self.ordering_mutations;
        StartTag {
            name: vstd::slice::slice_to_vec(self.name.as_slice()),
            attributes,
            ns: self.ns,
            self_closing: self.self_closing,
            raw: copy_opt_bytes(&self.raw),
            encoding: self.encoding.as_str().to_owned(),
            ordering_mutations: OrderingMutations {
                content_before: vstd::slice::slice_to_vec(m.content_before.as_slice()),
                replacements: vstd::slice::slice_to_vec(m.replacements.as_slice()),
                content_after: vstd::slice::slice_to_vec(m.content_after.as_slice()),
                removed: m.removed,
            },
        }
    }

    /// Makes the tag self-closing or not; it is then written from its parts.
    pub fn set_self_closing(&mut self, self_closing: bool)
        ensures
            final(self).is_self_closing() == self_closing,
            final(self).namespace() == old(self).namespace(),
            final(self).raw_bytes() is None,
            final(self).name_bytes() == old(self).name_bytes(),
            final(self).attrs() == old(self).attrs(),
            final(self).encoding() == old(self).encoding(),
            final(self).mutations() == old(self).mutations(),
    {
        self.self_closing = self_closing;
        self.raw = None;
    }

    /// Inserts `html` before the tag.
    pub fn before(&mut self, html: &str)
        ensures
            final(self).mutations().content_before@ == old(self).mutations().content_before@ + encoded_chars(
                old(self).encoding(),
                html@,
            ),
            final(self).mutations().replacements == old(self).mutations().replacements,
            final(self).mutations().content_after == old(self).mutations().content_after,
            final(self).mutations().removed == old(self).mutations().removed,
            final(self).name_bytes() == old(self).name_bytes(),
            final(self).attrs() == old(self).attrs(),
            final(self).is_self_closing() == old(self).is_self_closing(),
            final(self).namespace() == old(self).namespace(),
            final(self).raw_bytes() == old(self).raw_bytes(),
            final(self).encoding() == old(self).encoding(),
    {
        self.ordering_mutations.before(html, self.encoding.as_str());
    }

    /// Inserts `html` right after the tag.
    pub fn after(&mut self, html: &str)
        ensures
            final(self).mutations().content_after@ == encoded_chars(old(self).encoding(), html@) + old(
                self,
            ).mutations().content_after@,
            final(self).mutations().content_before == old(self).mutations().content_before,
            final(self).mutations().replacements == old(self).mutations().replacements,
            final(self).mutations().removed == old(self).mutations().removed,
            final(self).name_bytes() == old(self).name_bytes(),
            final(self).attrs() == old(self).attrs(),
            final(self).is_self_closing() == old(self).is_self_closing(),
            final(self).namespace() == old(self).namespace(),
            final(self).raw_bytes() == old(self).raw_bytes(),
            final(self).encoding() == old(self).encoding(),
    {
        self.ordering_mutations.after(html, self.encoding.as_str());
    }

    /// Replaces the tag with `html`.
    pub fn replace(&mut self, html: &str)
        ensures
            final(self).mutations().replacements@ == old(self).mutations().replacements@ + encoded_chars(
                old(self).encoding(),
                html@,
            ),
            final(self).mutations().content_before == old(self).mutations().content_before,
            final(self).mutations().content_after == old(self).mutations().content_after,
            final(self).mutations().removed == old(self).mutations().removed,
            final(self).name_bytes() == old(self).name_bytes(),
            final(self).attrs() == old(self).attrs(),
            final(self).is_self_closing() == old(self).is_self_closing(),
            final(self).namespace() == old(self).namespace(),
            final(self).raw_bytes() == old(self).raw_bytes(),
            final(self).encoding() == old(self).encoding(),
    {
        self.ordering_mutations.replace(html, self.encoding.as_str());
    }

    /// Removes the tag.
    pub fn remove(&mut self)
        ensures
            final(self).mutations().removed,
            final(self).mutations().content_before == old(self).mutations().content_before,
            final(self).mutations().replacements == old(self).mutations().replacements,
            final(self).mutations().content_after == old(self).mutations().content_after,
            final(self).name_bytes() == old(self).name_bytes(),
            final(self).attrs() == old(self).attrs(),
            final(self).is_self_closing() == old(self).is_self_closing(),
            final(self).namespace() == old(self).namespace(),
            final(self).raw_bytes() == old(self).raw_bytes(),
            final(self).encoding() == old(self).encoding(),
    {
        self.ordering_mutations.remove();
    }

    /// Writes the tag from its parts. With attributes, a space always comes before
    /// `/>`, since the last attribute value may be unquoted.
    pub fn serialize_from_parts(&self, out: &mut Vec<u8>)
        ensures
            final(out)@ == old(out)@ + self.parts_bytes(),
    {
        out.push(60u8);
        push_bytes(out, self.name.as_slice());
        let ghost mid = out@;
        if self.attributes.len() > 0 {
            out.push(32u8);
            attributes_to_bytes(&self.attributes, out);
            if self.self_closing {
                out.push(32u8);
            }
            proof {
                assert(out@ =~= mid + (seq![32u8] + attrs_bytes(self.attrs()) + (if self.is_self_closing() {
                    seq![32u8]
                } else {
                    Seq::empty()
                })));
            }
        } else {
            proof {
                assert(out@ =~= mid + Seq::<u8>::empty());
            }
        }
        let ghost mid2 = out@;
        if self.self_closing {
            out.push(47u8);
            out.push(62u8);
        } else {
            out.push(62u8);
        }
        proof {
            assert(out@ =~= old(out)@ + self.parts_bytes());
        }
    }

    /// Writes the tag with its mutations.
    pub fn to_bytes(&self, out: &mut Vec<u8>)
        ensures
            final(out)@ == old(out)@ + self.spec_bytes(),
    {
        let ghost start = out@;
        let write_token = self.ordering_mutations.write_before(out);
        let ghost mid = out@;
        if write_token {
            match &self.raw {
                Some(raw) => push_bytes(out, raw.as_slice()),
                None => self.serialize_from_parts(out),
            }
        } else {
            proof {
                assert(out@ =~= mid + Seq::<u8>::empty());
            }
        }
        push_bytes(out, self.ordering_mutations.content_after.as_slice());
        proof {
            lemma_wrap(self.ordering_mutations, start, self.body());
        }
    }
}

/// A document type declaration. It is written as it was read.
#[derive(Debug)]
pub struct Doctype {
    name: Option<Vec<u8>>,
    public_id: Option<Vec<u8>>,
    system_id: Option<Vec<u8>>,
    force_quirks: bool,
    raw: Vec<u8>,
    encoding: String,
}

/// The view of optional bytes.
pub open spec fn opt_bytes(b: Option<Vec<u8>>) -> Option<Seq<u8>> {
    match b {
        Some(v) => Some(v@),
        None => None,
    }
}

/// A copy of optional bytes.
pub fn copy_opt_bytes(b: &Option<Vec<u8>>) -> (r: Option<Vec<u8>>)
    ensures
        opt_bytes(r) == opt_bytes(*b),
{
    match b {
        Some(v) => Some(vstd::slice::slice_to_vec(v.as_slice())),
        None => None,
    }
}

impl Doctype {
    /// The name's bytes, where there is a name.
    pub closed spec fn name_bytes(&self) -> Option<Seq<u8>> {
        opt_bytes(self.name)
    }

    /// The public identifier's bytes, where there is one.
    pub closed spec fn public_id_bytes(&self) -> Option<Seq<u8>> {
        opt_bytes(self.public_id)
    }

    /// The system identifier's bytes, where there is one.
    pub closed spec fn system_id_bytes(&self) -> Option<Seq<u8>> {
        opt_bytes(self.system_id)
    }

    /// Whether the declaration forces quirks mode.
    pub closed spec fn is_force_quirks(&self) -> bool {
        self.force_quirks
    }

    /// The bytes the declaration was read from.
    pub closed spec fn raw_bytes(&self) -> Seq<u8> {
        self.raw@
    }

    /// The label of the document's encoding.
    pub closed spec fn encoding(&self) -> Seq<char> {
        self.encoding@
    }

    /// The document's encoding is known.
    pub open spec fn wf(&self) -> bool {
        spec_encoding_for_label(self.encoding()) is Some
    }

    /// A declaration read from a document.
    pub fn new_parsed(
        name: Option<Vec<u8>>,
        public_id: Option<Vec<u8>>,
        system_id: Option<Vec<u8>>,
        force_quirks: bool,
        raw: Vec<u8>,
        encoding: &str,
    ) -> (r: Doctype)
        ensures
            r.name_bytes() == opt_bytes(name),
            r.public_id_bytes() == opt_bytes(public_id),
            r.system_id_bytes() == opt_bytes(system_id),
            r.is_force_quirks() == force_quirks,
            r.raw_bytes() == raw@,
            r.encoding() == encoding@,
    {
        Doctype { name, public_id, system_id, force_quirks, raw, encoding: encoding.to_owned() }
    }

    /// The name, decoded and lowercased.
    pub fn name(&self) -> (r: Option<String>)
        requires
            self.wf(),
        ensures
            match self.name_bytes() {
                Some(b) => r is Some && r.unwrap()@ == ascii_lower_str(spec_decode(self.encoding(), b)),
                None => r is None,
            },
    {
        match &self.name {
            Some(n) => {
                let decoded = decode(self.encoding.as_str(), n.as_slice());
                Some(to_ascii_lowercase(decoded.as_str()))
            },
            None => None,
        }
    }

    /// The public identifier, decoded.
    pub fn public_id(&self) -> (r: Option<String>)
        requires
            self.wf(),
        ensures
            match self.public_id_bytes() {
                Some(b) => r is Some && r.unwrap()@ == spec_decode(self.encoding(), b),
                None => r is None,
            },
    {
        match &self.public_id {
            Some(i) => Some(decode(self.encoding.as_str(), i.as_slice())),
            None => None,
        }
    }

    /// The system identifier, decoded.
    pub fn system_id(&self) -> (r: Option<String>)
        requires
            self.wf(),
        ensures
            match self.system_id_bytes() {
                Some(b) => r is Some && r.unwrap()@ == spec_decode(self.encoding(), b),
                None => r is None,
            },
    {
        match &self.system_id {
            Some(i) => Some(decode(self.encoding.as_str(), i.as_slice())),
            None => None,
        }
    }

    /// Whether the declaration forces quirks mode.
    pub fn force_quirks(&self) -> (r: bool)
        ensures
            r == self.is_force_quirks(),
    {
        self.force_quirks
    }

    /// A copy of the declaration that owns all its parts.
    pub fn to_owned(&self) -> (r: Doctype)
        ensures
            r.name_bytes() == self.name_bytes(),
            r.public_id_bytes() == self.public_id_bytes(),
            r.system_id_bytes() == self.system_id_bytes(),
            r.is_force_quirks() == self.is_force_quirks(),
            r.raw_bytes() == self.raw_bytes(),
            r.encoding() == self.encoding(),
    {
        Doctype {
            name: copy_opt_bytes(&self.name),
            public_id: copy_opt_bytes(&self.public_id),
            system_id: copy_opt_bytes(&self.system_id),
            force_quirks: self.force_quirks,
            raw: vstd::slice::slice_to_vec(self.raw.as_slice()),
            encoding: self.encoding.as_str().to_owned(),
        }
    }

    /// Writes the declaration as it was read.
    pub fn to_bytes(&self, out: &mut Vec<u8>)
        ensures
            final(out)@ == old(out)@ + self.raw_bytes(),
    {
        push_bytes(out, self.raw.as_slice());
    }
}

/// A chunk of text.
#[derive(Debug)]
pub struct TextChunk {
    text: String,
    raw: Option<Vec<u8>>,
    text_type: TextType,
    last_in_current_boundaries: bool,
    parsed: bool,
    encoding: String,
}

impl TextChunk {
    /// The text.
    pub closed spec fn text(&self) -> Seq<char> {
        self.text@
    }

    /// The bytes written for the chunk as they stand, where there are such bytes.
    pub closed spec fn raw_bytes(&self) -> Option<Seq<u8>> {
        opt_bytes(self.raw)
    }

    /// The kind of text.
    pub closed spec fn kind(&self) -> TextType {
        self.text_type
    }

    /// Whether the chunk is the last of its text node seen so far.
    pub closed spec fn is_last_in_current_boundaries(&self) -> bool {
        self.last_in_current_boundaries
    }

    /// Whether the chunk was read from the document.
    pub closed spec fn is_parsed(&self) -> bool {
        self.parsed
    }

    /// The label of the document's encoding.
    pub closed spec fn encoding(&self) -> Seq<char> {
        self.encoding@
    }

    /// The serialization from the parts: nothing for no text; else the text encoded,
    /// and HTML-escaped where it is not read from the document and its kind reads
    /// character references.
    pub open spec fn parts_bytes(&self) -> Seq<u8> {
        if self.text().len() == 0 {
            Seq::empty()
        } else if !self.is_parsed() && self.kind().spec_allows_text_entities() {
            escape_body_text(encoded_chars(self.encoding(), self.text()))
        } else {
            encoded_chars(self.encoding(), self.text())
        }
    }

    /// What is written for the chunk: its bytes where it has them, else from its parts.
    pub open spec fn spec_bytes(&self) -> Seq<u8> {
        match self.raw_bytes() {
            Some(r) => r,
            None => self.parts_bytes(),
        }
    }

    /// A chunk read from a document.
    pub fn new_parsed(text: &str, text_type: TextType, last_in_current_boundaries: bool, encoding: &str) -> (r:
        TextChunk)
        ensures
            r.text() == text@,
            r.raw_bytes() is None,
            r.kind() == text_type,
            r.is_last_in_current_boundaries() == last_in_current_boundaries,
            r.is_parsed(),
            r.encoding() == encoding@,
    {
        TextChunk {
            text: text.to_owned(),
            raw: None,
            text_type,
            last_in_current_boundaries,
            parsed: true,
            encoding: encoding.to_owned(),
        }
    }

    /// A new chunk of data text, escaped when written.
    pub fn new(text: &str, encoding: &str) -> (r: TextChunk)
        ensures
            r.text() == text@,
            r.raw_bytes() is None,
            r.kind() == TextType::Data,
            !r.is_last_in_current_boundaries(),
            !r.is_parsed(),
            r.encoding() == encoding@,
    {
        TextChunk {
            text: text.to_owned(),
            raw: None,
            text_type: TextType::Data,
            last_in_current_boundaries: false,
            parsed: false,
            encoding: encoding.to_owned(),
        }
    }

    /// A new chunk of script or stylesheet text (see `spec_element_text_bytes`): its
    /// encoded bytes are kept and written as they are.
    fn try_element_specific_text_from(
        text: &str,
        encoding: &str,
        closing_tag: &str,
        closing_tag_error: TextError,
        text_type: TextType,
    ) -> (r: Result<TextChunk, TextError>)
        ensures
            match spec_element_text_bytes(encoding@, text, closing_tag, closing_tag_error) {
                Ok(b) => r is Ok && r.unwrap().raw_bytes() == Some(b) && r.unwrap().text() == text@
                    && r.unwrap().kind() == text_type && !r.unwrap().is_parsed()
                    && !r.unwrap().is_last_in_current_boundaries() && r.unwrap().encoding() == encoding@,
                Err(e) => r == Err::<TextChunk, TextError>(e),
            },
    {
        match try_element_specific_text_from(text, encoding, closing_tag, closing_tag_error) {
            Ok(raw) => Ok(
                TextChunk {
                    text: text.to_owned(),
                    raw: Some(raw),
                    text_type,
                    last_in_current_boundaries: false,
                    parsed: false,
                    encoding: encoding.to_owned(),
                },
            ),
            Err(e) => Err(e),
        }
    }

    /// A new chunk of script text: it may not hold `</script>`, and every character
    /// must be encodable.
    pub fn try_script_from(text: &str, encoding: &str) -> (r: Result<TextChunk, TextError>)
        ensures
            match spec_element_text_bytes(encoding@, text, "</script>", TextError::ScriptEndTagInScriptText) {
                Ok(b) => r is Ok && r.unwrap().raw_bytes() == Some(b) && r.unwrap().text() == text@
                    && r.unwrap().kind() == TextType::ScriptData && r.unwrap().encoding() == encoding@,
                Err(e) => r == Err::<TextChunk, TextError>(e),
            },
    {
        TextChunk::try_element_specific_text_from(
            text,
            encoding,
            "</script>",
            TextError::ScriptEndTagInScriptText,
            TextType::ScriptData,
        )
    }

    /// A new chunk of stylesheet text: it may not hold `</style>`, and every character
    /// must be encodable.
    pub fn try_stylesheet_from(text: &str, encoding: &str) -> (r: Result<TextChunk, TextError>)
        ensures
            match spec_element_text_bytes(encoding@, text, "</style>", TextError::StyleEndTagInStylesheetText) {
                Ok(b) => r is Ok && r.unwrap().raw_bytes() == Some(b) && r.unwrap().text() == text@
                    && r.unwrap().kind() == TextType::RawText && r.unwrap().encoding() == encoding@,
                Err(e) => r == Err::<TextChunk, TextError>(e),
            },
    {
        TextChunk::try_element_specific_text_from(
            text,
            encoding,
            "</style>",
            TextError::StyleEndTagInStylesheetText,
            TextType::RawText,
        )
    }

    /// The text.
    pub fn as_str(&self) -> (r: &str)
        ensures
            r@ == self.text(),
    {
        self.text.as_str()
    }

    /// The kind of text.
    pub fn text_type(&self) -> (r: TextType)
        ensures
            r == self.kind(),
    {
        self.text_type
    }

    /// Whether the chunk is the last of its text node seen so far.
    pub fn last_in_current_boundaries(&self) -> (r: bool)
        ensures
            r == self.is_last_in_current_boundaries(),
    {
        self.last_in_current_boundaries
    }

    /// Whether the chunk is the last of its text node seen so far.
    pub fn last_in_text_node(&self) -> (r: bool)
        ensures
            r == self.is_last_in_current_boundaries(),
    {
        self.last_in_current_boundaries
    }

    /// A copy of the chunk that owns all its parts.
    pub fn to_owned(&self) -> (r: TextChunk)
        ensures
            r.text() == self.text(),
            r.raw_bytes() == self.raw_bytes(),
            r.kind() == self.kind(),
            r.is_last_in_current_boundaries() == self.is_last_in_current_boundaries(),
            r.is_parsed() == self.is_parsed(),
            r.encoding() == self.encoding(),
    {
        TextChunk {
            text: self.text.as_str().to_owned(),
            raw: copy_opt_bytes(&self.raw),
            text_type: self.text_type,
            last_in_current_boundaries: self.last_in_current_boundaries,
            parsed: self.parsed,
            encoding: self.encoding.as_str().to_owned(),
        }
    }

    /// Writes the chunk from its parts.
    pub fn serialize_from_parts(&self, out: &mut Vec<u8>)
        ensures
            final(out)@ == old(out)@ + self.parts_bytes(),
    {
        if self.text.as_str().is_empty() {
            proof {
                assert(out@ =~= old(out)@ + Seq::<u8>::empty());
            }
        } else {
            let encoded = encode_with_replacements(self.encoding.as_str(), self.text.as_str());
            if !self.parsed && self.text_type.allows_text_entities() {
                push_escaped_body_text(encoded.as_slice(), out);
            } else {
                push_bytes(out, encoded.as_slice());
            }
        }
    }

    /// Writes the chunk: its bytes where it has them, else from its parts.
    pub fn to_bytes(&self, out: &mut Vec<u8>)
        ensures
            final(out)@ == old(out)@ + self.spec_bytes(),
    {
        match &self.raw {
            Some(raw) => push_bytes(out, raw.as_slice()),
            None => self.serialize_from_parts(out),
        }
    }
}

/// What can be written out as bytes.
pub trait Serialize {
    /// The bytes written.
    spec fn serialized(&self) -> Seq<u8>;

    /// Appends the bytes to `out`.
    fn to_bytes(&self, out: &mut Vec<u8>)
        ensures
            final(out)@ == old(out)@ + self.serialized(),
    ;
}

impl Serialize for Attribute {
    open spec fn serialized(&self) -> Seq<u8> {
        self.spec_bytes()
    }

    fn to_bytes(&self, out: &mut Vec<u8>) {
        Attribute::to_bytes(self, out)
    }
}

impl Serialize for EndTag {
    open spec fn serialized(&self) -> Seq<u8> {
        self.spec_bytes()
    }

    fn to_bytes(&self, out: &mut Vec<u8>) {
        EndTag::to_bytes(self, out)
    }
}

impl Serialize for Comment {
    open spec fn serialized(&self) -> Seq<u8> {
        self.spec_bytes()
    }

    fn to_bytes(&self, out: &mut Vec<u8>) {
        Comment::to_bytes(self, out)
    }
}

impl Serialize for StartTag {
    open spec fn serialized(&self) -> Seq<u8> {
        self.spec_bytes()
    }

    fn to_bytes(&self, out: &mut Vec<u8>) {
        StartTag::to_bytes(self, out)
    }
}

impl Serialize for Doctype {
    open spec fn serialized(&self) -> Seq<u8> {
        self.raw_bytes()
    }

    fn to_bytes(&self, out: &mut Vec<u8>) {
        Doctype::to_bytes(self, out)
    }
}

impl Serialize for TextChunk {
    open spec fn serialized(&self) -> Seq<u8> {
        self.spec_bytes()
    }

    fn to_bytes(&self, out: &mut Vec<u8>) {
        TextChunk::to_bytes(self, out)
    }
}

impl Serialize for Token {
    open spec fn serialized(&self) -> Seq<u8> {
        self.spec_bytes()
    }

    fn to_bytes(&self, out: &mut Vec<u8>) {
        Token::to_bytes(self, out)
    }
}

/// A token of the document.
#[derive(Debug)]
pub enum Token {
    TextChunk(TextChunk),
    Comment(Comment),
    StartTag(StartTag),
    EndTag(EndTag),
    Doctype(Doctype),
}

impl Token {
    /// What is written for the token.
    pub open spec fn spec_bytes(&self) -> Seq<u8> {
        match self {
            Token::TextChunk(t) => t.spec_bytes(),
            Token::Comment(t) => t.spec_bytes(),
            Token::StartTag(t) => t.spec_bytes(),
            Token::EndTag(t) => t.spec_bytes(),
            Token::Doctype(t) => t.raw_bytes(),
        }
    }

    /// Writes the token.
    pub fn to_bytes(&self, out: &mut Vec<u8>)
        ensures
            final(out)@ == old(out)@ + self.spec_bytes(),
    {
        match self {
            Token::TextChunk(t) => t.to_bytes(out),
            Token::Comment(t) => t.to_bytes(out),
            Token::StartTag(t) => t.to_bytes(out),
            Token::EndTag(t) => t.to_bytes(out),
            Token::Doctype(t) => t.to_bytes(out),
        }
    }
}

} // verus!

use vstd::prelude::*;
use crate::html::namespace_uri_of;
use vstd::string::StrSliceExecFns;
use crate::base::{ascii_lower_str, encode_without_replacements, encoded_chars, spec_decode, spec_encode_without_replacements};
use super::mutations::{ContentType, Mutations};
use super::token::{Attribute, EndTag, StartTag, find_attr};
use super::tokens::{AttributeNameError, spec_attr_name_bytes};

verus! {

/// An error that occurs when invalid value is provided for the tag name.
#[derive(Debug, Copy, Clone, PartialEq, Eq, Structural)]
pub enum TagNameError {
    /// The provided value is empty.
    Empty,
    /// The first character of the provided value is not an ASCII alphabetical character.
    InvalidFirstCharacter,
    /// The provided value contains a character that is forbidden by the HTML grammar in tag
    /// names (e.g. `'>'`).
    ForbiddenCharacter(char),
    /// The provided value contains a character that can't be represented in the document's
    /// encoding.
    UnencodableCharacter,
}

/// The characters that the HTML grammar forbids in tag names.
pub open spec fn is_forbidden_in_tag_name(c: char) -> bool {
    c == ' ' || c == '\n' || c == '\r' || c == '\t' || c == '\x0C' || c == '/' || c == '>'
}

/// An ASCII letter.
pub open spec fn is_ascii_alphabetic(c: char) -> bool {
    ('a' <= c && c <= 'z') || ('A' <= c && c <= 'Z')
}

/// The first character of `s` from `i` on that is forbidden in tag names.
pub open spec fn first_forbidden_in_tag_name(s: Seq<char>, i: int) -> Option<char>
    decreases s.len() - i,
{
    if i < 0 || i >= s.len() {
        None
    } else if is_forbidden_in_tag_name(s[i]) {
        Some(s[i])
    } else {
        first_forbidden_in_tag_name(s, i + 1)
    }
}

/// What a tag name given as a string becomes: its bytes in the document's encoding, or
/// the first reason it is not a valid tag name.
pub open spec fn spec_tag_name_bytes(encoding: Seq<char>, name: Seq<char>) -> Result<Seq<u8>, TagNameError> {
    if name.len() == 0 {
        Err(TagNameError::Empty)
    } else if !is_ascii_alphabetic(name[0]) {
        Err(TagNameError::InvalidFirstCharacter)
    } else {
        match first_forbidden_in_tag_name(name, 0) {
            Some(c) => Err(TagNameError::ForbiddenCharacter(c)),
            None => match spec_encode_without_replacements(encoding, name) {
                Some(b) => Ok(b),
                None => Err(TagNameError::UnencodableCharacter),
            },
        }
    }
}

fn is_forbidden_in_tag_name_exec(c: char) -> (r: bool)
    ensures
        r == is_forbidden_in_tag_name(c),
{
    c == ' ' || c == '\n' || c == '\r' || c == '\t' || c == '\x0C' || c == '/' || c == '>'
}

/// Checks a tag name and encodes it in the document's encoding, named by `encoding`.
pub fn tag_name_bytes_from_str(name: &str, encoding: &str) -> (r: Result<Vec<u8>, TagNameError>)
    ensures
        match r {
            Ok(b) => spec_tag_name_bytes(encoding@, name@) == Ok::<Seq<u8>, TagNameError>(b@),
            Err(e) => spec_tag_name_bytes(encoding@, name@) == Err::<Seq<u8>, TagNameError>(e),
        },
{
    let len = name.unicode_len();
    if len == 0 {
        return Err(TagNameError::Empty);
    }
    let first = name.get_char(0);
    if !(('a' <= first && first <= 'z') || ('A' <= first && first <= 'Z')) {
        return Err(TagNameError::InvalidFirstCharacter);
    }
    let mut i: usize = 0;
    while i < len
        invariant
            len == name@.len(),
            len > 0,
            is_ascii_alphabetic(name@[0]),
            i <= len,
            first_forbidden_in_tag_name(name@, 0) == first_forbidden_in_tag_name(name@, i as int),
        decreases len - i,
    {
        let c = name.get_char(i);
        if is_forbidden_in_tag_name_exec(c) {
            proof {
                assert(first_forbidden_in_tag_name(name@, i as int) == Some(c));
            }
            return Err(TagNameError::ForbiddenCharacter(c));
        }
        i = i + 1;
    }
    match encode_without_replacements(encoding, name) {
        Some(b) => Ok(b),
        None => Err(TagNameError::UnencodableCharacter),
    }
}

/// The changes of optional mutations: none where there are none.
pub open spec fn opt_changes(m: Option<Mutations>) -> (
    Seq<(Seq<char>, ContentType)>,
    Seq<(Seq<char>, ContentType)>,
    Seq<(Seq<char>, ContentType)>,
    bool,
) {
    match m {
        Some(m) => m.changes(),
        None => (Seq::empty(), Seq::empty(), Seq::empty(), false),
    }
}

/// What an element asks of its end tag: a new name, changes, or both.
#[derive(Debug)]
pub struct EndTagHandler {
    pub name: Option<Vec<u8>>,
    pub mutations: Option<Mutations>,
}

impl EndTagHandler {
    /// Renames the end tag as asked, and gives the changes to write it with.
    pub fn apply(self, end_tag: &mut EndTag) -> (r: Mutations)
        ensures
            match self.name {
                Some(n) => final(end_tag).name_bytes() == n@ && final(end_tag).raw_bytes() is None,
                None => *final(end_tag) == *old(end_tag),
            },
            final(end_tag).encoding() == old(end_tag).encoding(),
            final(end_tag).mutations() == old(end_tag).mutations(),
            r.changes() == opt_changes(self.mutations),
    {
        match self.name {
            Some(n) => end_tag.set_name_bytes(n),
            None => {},
        }
        match self.mutations {
            Some(m) => m,
            None => Mutations::new(),
        }
    }
}

/// An element: its start tag, the changes around and inside it, and what its end tag is
/// to become. An element that can't have content (a void one, or a self-closing foreign
/// one) has no end tag: what would go there goes after its start tag.
#[derive(Debug)]
pub struct Element {
    start_tag: StartTag,
    start_tag_mutations: Mutations,
    end_tag_mutations: Option<Mutations>,
    modified_end_tag_name: Option<Vec<u8>>,
    can_have_content: bool,
    should_remove_content: bool,
}

impl Element {
    /// The start tag.
    pub closed spec fn tag(&self) -> StartTag {
        self.start_tag
    }

    /// The changes around the start tag.
    pub closed spec fn start_changes(&self) -> (
        Seq<(Seq<char>, ContentType)>,
        Seq<(Seq<char>, ContentType)>,
        Seq<(Seq<char>, ContentType)>,
        bool,
    ) {
        self.start_tag_mutations.changes()
    }

    /// The changes around the end tag.
    pub closed spec fn end_changes(&self) -> (
        Seq<(Seq<char>, ContentType)>,
        Seq<(Seq<char>, ContentType)>,
        Seq<(Seq<char>, ContentType)>,
        bool,
    ) {
        opt_changes(self.end_tag_mutations)
    }

    /// Whether the end tag was changed at all.
    pub closed spec fn has_end_changes(&self) -> bool {
        self.end_tag_mutations is Some
    }

    /// The new name of the end tag, if the element was renamed.
    pub closed spec fn end_name(&self) -> Option<Seq<u8>> {
        match self.modified_end_tag_name {
            Some(n) => Some(n@),
            None => None,
        }
    }

    /// Whether the element can have content.
    pub closed spec fn has_content(&self) -> bool {
        self.can_have_content
    }

    /// Whether the element's content is to be removed.
    pub closed spec fn removes_content(&self) -> bool {
        self.should_remove_content
    }

    /// The element of a start tag, with no change yet.
    pub fn new(start_tag: StartTag, can_have_content: bool) -> (r: Element)
        ensures
            r.tag() == start_tag,
            r.has_content() == can_have_content,
            r.start_changes() == opt_changes(None),
            !r.has_end_changes(),
            r.end_name() is None,
            !r.removes_content(),
    {
        Element {
            start_tag,
            start_tag_mutations: Mutations::new(),
            end_tag_mutations: None,
            modified_end_tag_name: None,
            can_have_content,
            should_remove_content: false,
        }
    }

    /// The start tag.
    pub fn start_tag(&self) -> (r: &StartTag)
        ensures
            *r == self.tag(),
    {
        &self.start_tag
    }

    /// The changes around the start tag.
    pub fn start_tag_mutations(&self) -> (r: &Mutations)
        ensures
            r.changes() == self.start_changes(),
    {
        &self.start_tag_mutations
    }

    /// Takes the end tag's mutations out, fresh ones where there were none.
    fn end_tag_mutations_take(&mut self) -> (r: Mutations)
        ensures
            r.changes() == old(self).end_changes(),
            !final(self).has_end_changes(),
            final(self).tag() == old(self).tag(),
            final(self).start_changes() == old(self).start_changes(),
            final(self).end_name() == old(self).end_name(),
            final(self).has_content() == old(self).has_content(),
            final(self).removes_content() == old(self).removes_content(),
    {
        match self.end_tag_mutations.take() {
            Some(m) => m,
            None => Mutations::new(),
        }
    }

    /// Drops the content inserted inside the element and marks its content removed.
    fn remove_content(&mut self)
        ensures
            final(self).start_changes() == (
                old(self).start_changes().0,
                old(self).start_changes().1,
                Seq::<(Seq<char>, ContentType)>::empty(),
                old(self).start_changes().3,
            ),
            final(self).end_changes() == (
                Seq::<(Seq<char>, ContentType)>::empty(),
                old(self).end_changes().1,
                old(self).end_changes().2,
                old(self).end_changes().3,
            ),
            final(self).has_end_changes(),
            final(self).removes_content(),
            final(self).tag() == old(self).tag(),
            final(self).end_name() == old(self).end_name(),
            final(self).has_content() == old(self).has_content(),
    {
        self.start_tag_mutations.clear_content_after();
        let mut m = self.end_tag_mutations_take();
        m.clear_content_before();
        self.end_tag_mutations = Some(m);
        self.should_remove_content = true;
    }

    /// The tag name, decoded and lowercased.
    pub fn tag_name(&self) -> (r: String)
        requires
            self.tag().wf(),
        ensures
            r@ == ascii_lower_str(spec_decode(self.tag().encoding(), self.tag().name_bytes())),
    {
        self.start_tag.name()
    }

    /// Renames the element (see `spec_tag_name_bytes`); its end tag, where it has one, is
    /// renamed too. A refused name leaves the element as it was.
    pub fn set_tag_name(&mut self, name: &str) -> (r: Result<(), TagNameError>)
        ensures
            match spec_tag_name_bytes(old(self).tag().encoding(), name@) {
                Ok(b) => {
                    &&& r is Ok
                    &&& final(self).tag().name_bytes() == b
                    &&& final(self).tag().raw_bytes() is None
                    &&& final(self).tag().attrs() == old(self).tag().attrs()
                    &&& final(self).tag().is_self_closing() == old(self).tag().is_self_closing()
                    &&& final(self).tag().namespace() == old(self).tag().namespace()
                    &&& final(self).tag().mutations() == old(self).tag().mutations()
                    &&& final(self).end_name() == (if old(self).has_content() {
                        Some(b)
                    } else {
                        old(self).end_name()
                    })
                },
                Err(e) => r == Err::<(), TagNameError>(e) && *final(self) == *old(self),
            },
            final(self).tag().encoding() == old(self).tag().encoding(),
            final(self).start_changes() == old(self).start_changes(),
            final(self).end_changes() == old(self).end_changes(),
            final(self).has_content() == old(self).has_content(),
    {
        match tag_name_bytes_from_str(name, self.start_tag.encoding_label()) {
            Ok(bytes) => {
                let r = self.start_tag.set_name(name);
                if self.can_have_content {
                    self.modified_end_tag_name = Some(bytes);
                }
                r
            },
            Err(e) => Err(e),
        }
    }

    /// The URI of the element's namespace.
    pub fn namespace_uri(&self) -> (r: &'static str)
        ensures
            r@ == namespace_uri_of(self.tag().namespace()),
    {
        self.start_tag.namespace_uri()
    }

    /// The attributes.
    pub fn attributes(&self) -> (r: &Vec<Attribute>)
        ensures
            r@ == self.tag().attrs(),
    {
        self.start_tag.attributes()
    }

    /// The value of the first attribute with the given name (ASCII case aside).
    pub fn get_attribute(&self, name: &str) -> (r: Option<String>)
        requires
            self.tag().wf(),
        ensures
            match find_attr(self.tag().attrs(), ascii_lower_str(name@)) {
                Some(i) => r is Some && r.unwrap()@ == spec_decode(self.tag().encoding(), self.tag().attrs()[i].value_bytes()),
                None => r is None,
            },
    {
        self.start_tag.get_attribute(name)
    }

    /// Whether the element has an attribute with the given name (ASCII case aside).
    pub fn has_attribute(&self, name: &str) -> (r: bool)
        requires
            self.tag().wf(),
        ensures
            r == find_attr(self.tag().attrs(), ascii_lower_str(name@)) is Some,
    {
        self.start_tag.has_attribute(name)
    }

    /// Sets an attribute, as `StartTag::set_attribute` does.
    pub fn set_attribute(&mut self, name: &str, value: &str) -> (r: Result<(), AttributeNameError>)
        requires
            old(self).tag().wf(),
        ensures
            final(self).tag().wf(),
            final(self).tag().name_bytes() == old(self).tag().name_bytes(),
            final(self).tag().is_self_closing() == old(self).tag().is_self_closing(),
            final(self).tag().namespace() == old(self).tag().namespace(),
            final(self).tag().encoding() == old(self).tag().encoding(),
            final(self).tag().mutations() == old(self).tag().mutations(),
            match find_attr(old(self).tag().attrs(), ascii_lower_str(name@)) {
                Some(i) => {
                    &&& r is Ok
                    &&& final(self).tag().raw_bytes() is None
                    &&& final(self).tag().attrs().len() == old(self).tag().attrs().len()
                    &&& forall|k: int| 0 <= k < old(self).tag().attrs().len() && k != i
                        ==> #[trigger] final(self).tag().attrs()[k] == old(self).tag().attrs()[k]
                    &&& final(self).tag().attrs()[i].name_bytes() == old(self).tag().attrs()[i].name_bytes()
                    &&& final(self).tag().attrs()[i].value_bytes() == encoded_chars(old(self).tag().encoding(), value@)
                    &&& final(self).tag().attrs()[i].raw_bytes() is None
                    &&& find_attr(final(self).tag().attrs(), ascii_lower_str(name@)) == Some(i)
                },
                None => match spec_attr_name_bytes(old(self).tag().encoding(), ascii_lower_str(name@)) {
                    Ok(b) => {
                        &&& r is Ok
                        &&& final(self).tag().raw_bytes() is None
                        &&& final(self).tag().attrs().len() == old(self).tag().attrs().len() + 1
                        &&& final(self).tag().attrs().drop_last() == old(self).tag().attrs()
                        &&& final(self).tag().attrs().last().name_bytes() == b
                        &&& final(self).tag().attrs().last().value_bytes() == encoded_chars(
                            old(self).tag().encoding(),
                            value@,
                        )
                        &&& final(self).tag().attrs().last().raw_bytes() is None
                    },
                    Err(e) => r == Err::<(), AttributeNameError>(e),
                },
            },
            r is Err ==> *final(self) == *old(self),
            final(self).start_changes() == old(self).start_changes(),
            final(self).end_changes() == old(self).end_changes(),
            final(self).end_name() == old(self).end_name(),
            final(self).has_content() == old(self).has_content(),
    {
        self.start_tag.set_attribute(name, value)
    }

    /// Removes an attribute, as `StartTag::remove_attribute` does.
    pub fn remove_attribute(&mut self, name: &str)
        requires
            old(self).tag().wf(),
        ensures
            final(self).tag().wf(),
            match find_attr(old(self).tag().attrs(), ascii_lower_str(name@)) {
                Some(i) => final(self).tag().attrs() == old(self).tag().attrs().remove(i)
                    && final(self).tag().raw_bytes() is None,
                None => final(self).tag() == old(self).tag(),
            },
            final(self).tag().name_bytes() == old(self).tag().name_bytes(),
            final(self).tag().is_self_closing() == old(self).tag().is_self_closing(),
            final(self).tag().namespace() == old(self).tag().namespace(),
            final(self).tag().encoding() == old(self).tag().encoding(),
            final(self).tag().mutations() == old(self).tag().mutations(),
            final(self).start_changes() == old(self).start_changes(),
            final(self).end_changes() == old(self).end_changes(),
            final(self).end_name() == old(self).end_name(),
            final(self).has_content() == old(self).has_content(),
    {
        self.start_tag.remove_attribute(name)
    }

    /// Inserts content before the element.
    pub fn before(&mut self, content: &str, content_type: ContentType)
        ensures
            final(self).start_changes() == (
                old(self).start_changes().0.push((content@, content_type)),
                old(self).start_changes().1,
                old(self).start_changes().2,
                old(self).start_changes().3,
            ),
            final(self).end_changes() == old(self).end_changes(),
            final(self).tag() == old(self).tag(),
    {
        self.start_tag_mutations.before(content, content_type);
    }

    /// Inserts content right after the element: after its end tag, or after its start
    /// tag where it has no end tag.
    pub fn after(&mut self, content: &str, content_type: ContentType)
        ensures
            old(self).has_content() ==> final(self).end_changes() == (
                old(self).end_changes().0,
                old(self).end_changes().1,
                seq![(content@, content_type)] + old(self).end_changes().2,
                old(self).end_changes().3,
            ) && final(self).start_changes() == old(self).start_changes(),
            !old(self).has_content() ==> final(self).start_changes() == (
                old(self).start_changes().0,
                old(self).start_changes().1,
                seq![(content@, content_type)] + old(self).start_changes().2,
                old(self).start_changes().3,
            ) && final(self).end_changes() == old(self).end_changes(),
            final(self).tag() == old(self).tag(),
    {
        if self.can_have_content {
            let mut m = self.end_tag_mutations_take();
            m.after(content, content_type);
            self.end_tag_mutations = Some(m);
        } else {
            self.start_tag_mutations.after(content, content_type);
        }
    }

    /// Inserts content at the start of the element's content, right after its start tag.
    pub fn prepend(&mut self, content: &str, content_type: ContentType)
        ensures
            final(self).start_changes() == (
                old(self).start_changes().0,
                old(self).start_changes().1,
                seq![(content@, content_type)] + old(self).start_changes().2,
                old(self).start_changes().3,
            ),
            final(self).end_changes() == old(self).end_changes(),
            final(self).tag() == old(self).tag(),
    {
        self.start_tag_mutations.after(content, content_type);
    }

    /// Inserts content at the end of the element's content, right before its end tag;
    /// nothing for an element that can't have content.
    pub fn append(&mut self, content: &str, content_type: ContentType)
        ensures
            final(self).end_changes() == (if old(self).has_content() {
                (
                    old(self).end_changes().0.push((content@, content_type)),
                    old(self).end_changes().1,
                    old(self).end_changes().2,
                    old(self).end_changes().3,
                )
            } else {
                old(self).end_changes()
            }),
            final(self).start_changes() == old(self).start_changes(),
            final(self).tag() == old(self).tag(),
    {
        if self.can_have_content {
            let mut m = self.end_tag_mutations_take();
            m.before(content, content_type);
            self.end_tag_mutations = Some(m);
        }
    }

    /// Replaces the element's content with the given content; nothing for an element
    /// that can't have content.
    pub fn set_inner_content(&mut self, content: &str, content_type: ContentType)
        ensures
            old(self).has_content() ==> {
                &&& final(self).start_changes() == (
                    old(self).start_changes().0,
                    old(self).start_changes().1,
                    seq![(content@, content_type)],
                    old(self).start_changes().3,
                )
                &&& final(self).end_changes() == (
                    Seq::<(Seq<char>, ContentType)>::empty(),
                    old(self).end_changes().1,
                    old(self).end_changes().2,
                    old(self).end_changes().3,
                )
                &&& final(self).removes_content()
            },
            !old(self).has_content() ==> *final(self) == *old(self),
            final(self).tag() == old(self).tag(),
    {
        if self.can_have_content {
            self.remove_content();
            self.start_tag_mutations.after(content, content_type);
            proof {
                assert(seq![(content@, content_type)] + Seq::<(Seq<char>, ContentType)>::empty() =~= seq![
                    (content@, content_type),
                ]);
            }
        }
    }

    /// Replaces the whole element, its content included, with the given content.
    pub fn replace(&mut self, content: &str, content_type: ContentType)
        ensures
            final(self).start_changes().0 == old(self).start_changes().0,
            final(self).start_changes().1 == seq![(content@, content_type)],
            final(self).start_changes().3,
            old(self).has_content() ==> {
                &&& final(self).start_changes().2.len() == 0
                &&& final(self).end_changes() == (
                    Seq::<(Seq<char>, ContentType)>::empty(),
                    old(self).end_changes().1,
                    old(self).end_changes().2,
                    true,
                )
                &&& final(self).removes_content()
            },
            !old(self).has_content() ==> final(self).start_changes().2 == old(self).start_changes().2
                && final(self).end_changes() == old(self).end_changes(),
            final(self).tag() == old(self).tag(),
    {
        self.start_tag_mutations.replace(content, content_type);
        if self.can_have_content {
            self.remove_content();
            let mut m = self.end_tag_mutations_take();
            m.remove();
            self.end_tag_mutations = Some(m);
        }
    }

    /// Removes the whole element, its content included.
    pub fn remove(&mut self)
        ensures
            final(self).start_changes().0 == old(self).start_changes().0,
            final(self).start_changes().1 == old(self).start_changes().1,
            final(self).start_changes().3,
            old(self).has_content() ==> {
                &&& final(self).start_changes().2.len() == 0
                &&& final(self).end_changes() == (
                    Seq::<(Seq<char>, ContentType)>::empty(),
                    old(self).end_changes().1,
                    old(self).end_changes().2,
                    true,
                )
                &&& final(self).removes_content()
            },
            !old(self).has_content() ==> final(self).start_changes().2 == old(self).start_changes().2
                && final(self).end_changes() == old(self).end_changes(),
            final(self).tag() == old(self).tag(),
    {
        self.start_tag_mutations.remove();
        if self.can_have_content {
            self.remove_content();
            let mut m = self.end_tag_mutations_take();
            m.remove();
            self.end_tag_mutations = Some(m);
        }
    }

    /// Removes the element's tags and keeps its content.
    pub fn remove_and_keep_content(&mut self)
        ensures
            final(self).start_changes() == (
                old(self).start_changes().0,
                old(self).start_changes().1,
                old(self).start_changes().2,
                true,
            ),
            final(self).end_changes() == (if old(self).has_content() {
                (old(self).end_changes().0, old(self).end_changes().1, old(self).end_changes().2, true)
            } else {
                old(self).end_changes()
            }),
            final(self).removes_content() == old(self).removes_content(),
            final(self).tag() == old(self).tag(),
    {
        self.start_tag_mutations.remove();
        if self.can_have_content {
            let mut m = self.end_tag_mutations_take();
            m.remove();
            self.end_tag_mutations = Some(m);
        }
    }

    /// Whether the element was removed.
    pub fn removed(&self) -> (r: bool)
        ensures
            r == self.start_changes().3,
    {
        self.start_tag_mutations.removed()
    }

    /// Whether the element's content is to be removed.
    pub fn should_remove_content(&self) -> (r: bool)
        ensures
            r == self.removes_content(),
    {
        self.should_remove_content
    }

    /// The start tag, the changes to write it with, and what the end tag is to become
    /// (see `into_end_tag_handler`).
    pub fn into_parts(self) -> (r: (StartTag, Mutations, Option<EndTagHandler>))
        ensures
            r.0 == self.tag(),
            r.1.changes() == self.start_changes(),
            match r.2 {
                Some(h) => (self.has_end_changes() || self.end_name() is Some) && match h.name {
                    Some(n) => self.end_name() == Some(n@),
                    None => self.end_name() is None,
                } && match h.mutations {
                    Some(m) => self.has_end_changes() && m.changes() == self.end_changes(),
                    None => !self.has_end_changes(),
                },
                None => !self.has_end_changes() && self.end_name() is None,
            },
    {
        let handler = if self.end_tag_mutations.is_some() || self.modified_end_tag_name.is_some() {
            Some(EndTagHandler { name: self.modified_end_tag_name, mutations: self.end_tag_mutations })
        } else {
            None
        };
        (self.start_tag, self.start_tag_mutations, handler)
    }

    /// What the end tag is to become, where the element asked anything of it.
    pub fn into_end_tag_handler(self) -> (r: Option<EndTagHandler>)
        ensures
            match r {
                Some(h) => (self.has_end_changes() || self.end_name() is Some) && match h.name {
                    Some(n) => self.end_name() == Some(n@),
                    None => self.end_name() is None,
                } && match h.mutations {
                    Some(m) => self.has_end_changes() && m.changes() == self.end_changes(),
                    None => !self.has_end_changes(),
                },
                None => !self.has_end_changes() && self.end_name() is None,
            },
    {
        if self.end_tag_mutations.is_some() || self.modified_end_tag_name.is_some() {
            Some(EndTagHandler { name: self.modified_end_tag_name, mutations: self.end_tag_mutations })
        } else {
            None
        }
    }
}

} // verus!

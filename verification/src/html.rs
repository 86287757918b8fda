use vstd::prelude::*;
use crate::tag_name::{TagName, spec_hash_of, get_hash_of_bytes};
use crate::base::{encode_without_replacements, spec_encode_without_replacements};
use vstd::string::StringSliceAdditionalSpecFns;

verus! {

/// The namespace of an element.
#[derive(Debug, Copy, Clone, PartialEq, Eq, Structural)]
pub enum Namespace {
    Html,
    Svg,
    MathML,
}

/// The URI that names a namespace.
pub open spec fn namespace_uri_of(ns: Namespace) -> Seq<char> {
    match ns {
        Namespace::Html => "http://www.w3.org/1999/xhtml"@,
        Namespace::Svg => "http://www.w3.org/2000/svg"@,
        Namespace::MathML => "http://www.w3.org/1998/Math/MathML"@,
    }
}

impl Namespace {
    /// The URI that names the namespace.
    pub fn uri(self) -> (r: &'static str)
        ensures
            r@ == namespace_uri_of(self),
    {
        match self {
            Namespace::Html => "http://www.w3.org/1999/xhtml",
            Namespace::Svg => "http://www.w3.org/2000/svg",
            Namespace::MathML => "http://www.w3.org/1998/Math/MathML",
        }
    }
}

/// Returns `true` for the HTML namespace.
pub fn is_html_namespace(ns: Namespace) -> (r: bool)
    ensures
        r == (ns == Namespace::Html),
{
    match ns {
        Namespace::Html => true,
        _ => false,
    }
}

/// ASCII lowercase of a byte.
pub open spec fn to_lower(b: u8) -> u8 {
    if 65 <= b <= 90 {
        (b + 32) as u8
    } else {
        b
    }
}

/// ASCII lowercase of a byte string.
pub open spec fn lowercase(s: Seq<u8>) -> Seq<u8> {
    Seq::new(s.len(), |i: int| to_lower(s[i]))
}

/// Returns the ASCII lowercase of a byte.
pub fn byte_to_lower(b: u8) -> (r: u8)
    ensures
        r == to_lower(b),
{
    if 65 <= b && b <= 90 {
        b + 32
    } else {
        b
    }
}

/// Compares two byte strings.
pub fn bytes_eq(a: &[u8], b: &[u8]) -> (r: bool)
    ensures
        r == (a@ == b@),
{
    if a.len() != b.len() {
        return false;
    }
    let mut i: usize = 0;
    while i < a.len()
        invariant
            a@.len() == b@.len(),
            i <= a@.len(),
            forall|k: int| 0 <= k < i ==> a@[k] == b@[k],
        decreases a@.len() - i,
    {
        if a[i] != b[i] {
            return false;
        }
        i = i + 1;
    }
    proof {
        assert(a@ =~= b@);
    }
    true
}

/// Compares two byte strings without regard to ASCII case.
pub fn bytes_eq_ignore_ascii_case(a: &[u8], b: &[u8]) -> (r: bool)
    ensures
        r == (lowercase(a@) == lowercase(b@)),
{
    if a.len() != b.len() {
        assert(lowercase(a@).len() != lowercase(b@).len());
        return false;
    }
    let mut i: usize = 0;
    while i < a.len()
        invariant
            a@.len() == b@.len(),
            i <= a@.len(),
            forall|k: int| 0 <= k < i ==> to_lower(a@[k]) == to_lower(b@[k]),
        decreases a@.len() - i,
    {
        if byte_to_lower(a[i]) != byte_to_lower(b[i]) {
            assert(lowercase(a@)[i as int] != lowercase(b@)[i as int]);
            return false;
        }
        i = i + 1;
    }
    assert(lowercase(a@) =~= lowercase(b@));
    true
}

/// The view of a [`LocalName`]: the hash of a name that can be hashed, or its
/// lowercased bytes.
pub ghost enum LocalNameView {
    Hash(u64),
    Bytes(Seq<u8>),
}

/// The local name of an element.
///
/// Names that can be hashed (see [`TagName::get_hash`]) are held by their hash, which
/// is cheap to compare; the others by their bytes, compared without regard to ASCII
/// case.
#[derive(Debug, Clone)]
pub enum LocalName {
    Hash(u64),
    Bytes(Vec<u8>),
}

/// The local name that a name given as bytes becomes.
pub open spec fn local_name_of(name: Seq<u8>) -> LocalNameView {
    match spec_hash_of(name) {
        Some(h) => LocalNameView::Hash(h),
        None => LocalNameView::Bytes(lowercase(name)),
    }
}

/// The local name that a name written in a selector stands for, in the encoding named
/// by `encoding`: its hash where the name can be hashed, else its lowercased bytes in
/// that encoding; `None` where the encoding can't represent the name.
pub open spec fn local_name_of_str(encoding: Seq<char>, name: Seq<char>) -> Option<LocalNameView> {
    match spec_hash_of(vstd::utf8::encode_utf8(name)) {
        Some(h) => Some(LocalNameView::Hash(h)),
        None => match spec_encode_without_replacements(encoding, name) {
            Some(b) => Some(LocalNameView::Bytes(lowercase(b))),
            None => None,
        },
    }
}

impl LocalName {
    pub open spec fn view(&self) -> LocalNameView {
        match self {
            LocalName::Hash(h) => LocalNameView::Hash(*h),
            LocalName::Bytes(b) => LocalNameView::Bytes(lowercase(b@)),
        }
    }

    /// Makes the local name of the name given as bytes.
    pub fn from_bytes(name: &[u8]) -> (r: LocalName)
        ensures
            r@ == local_name_of(name@),
    {
        match get_hash_of_bytes(name) {
            Some(h) => LocalName::Hash(h),
            None => LocalName::Bytes(vstd::slice::slice_to_vec(name)),
        }
    }

    /// Makes the local name of a name written as a string, in the encoding named by
    /// `encoding`; `None` where the encoding can't represent the name.
    pub fn from_str_without_replacements(name: &str, encoding: &str) -> (r: Option<LocalName>)
        ensures
            match r {
                Some(n) => local_name_of_str(encoding@, name@) == Some(n@),
                None => local_name_of_str(encoding@, name@) is None,
            },
    {
        match TagName::get_hash(name) {
            Some(h) => Some(LocalName::Hash(h)),
            None => match encode_without_replacements(encoding, name) {
                Some(b) => Some(LocalName::Bytes(b)),
                None => None,
            },
        }
    }

    /// Returns `true` if the name is the given standard tag name.
    pub fn is(&self, tag: TagName) -> (r: bool)
        ensures
            r == (self@ == LocalNameView::Hash(tag.spec_hash())),
    {
        match self {
            LocalName::Hash(h) => *h == tag.hash(),
            LocalName::Bytes(_) => false,
        }
    }

    /// Compares two local names.
    pub fn eq(&self, other: &LocalName) -> (r: bool)
        ensures
            r == (self@ == other@),
    {
        match (self, other) {
            (LocalName::Hash(a), LocalName::Hash(b)) => *a == *b,
            (LocalName::Bytes(a), LocalName::Bytes(b)) => bytes_eq_ignore_ascii_case(a.as_slice(), b.as_slice()),
            _ => false,
        }
    }

    /// Returns a copy of the local name.
    pub fn duplicate(&self) -> (r: LocalName)
        ensures
            r@ == self@,
    {
        match self {
            LocalName::Hash(h) => LocalName::Hash(*h),
            LocalName::Bytes(b) => LocalName::Bytes(b.clone()),
        }
    }
}

} // verus!

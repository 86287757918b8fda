use vstd::prelude::*;
use crate::base::{ascii_lower_str, spec_decode, encoding_for_label, is_ascii_compatible, spec_encoding_for_label, spec_is_ascii_compatible};
use crate::rewritable_units::token::{StartTag, find_attr};
use vstd::string::StringSliceAdditionalSpecFns;

verus! {

/// An ASCII-compatible encoding, named by its label; the only kind the rewriter works
/// in.
#[derive(Debug)]
pub struct AsciiCompatibleEncoding {
    label: String,
}

impl AsciiCompatibleEncoding {
    /// The label.
    pub closed spec fn label(&self) -> Seq<char> {
        self.label@
    }

    /// The label names a known ASCII-compatible encoding.
    pub open spec fn wf(&self) -> bool {
        spec_encoding_for_label(self.label()) is Some && spec_is_ascii_compatible(self.label())
    }

    /// The encoding named by `label` where it is a known ASCII-compatible one.
    pub fn new(label: &str) -> (r: Option<AsciiCompatibleEncoding>)
        ensures
            r is Some <==> (spec_encoding_for_label(label@) is Some && spec_is_ascii_compatible(label@)),
            r matches Some(e) ==> e.label() == label@ && e.wf(),
    {
        match encoding_for_label(label) {
            Some(_) => {
                if is_ascii_compatible(label) {
                    Some(AsciiCompatibleEncoding { label: label.to_owned() })
                } else {
                    None
                }
            },
            None => None,
        }
    }

    /// UTF-8, the most commonly used encoding.
    pub fn utf_8() -> (r: AsciiCompatibleEncoding)
        ensures
            r.label() == "utf-8"@,
    {
        AsciiCompatibleEncoding { label: "utf-8".to_owned() }
    }

    /// The label of the encoding.
    pub fn get(&self) -> (r: &str)
        ensures
            r@ == self.label(),
    {
        self.label.as_str()
    }

    /// The encoding that the `charset` parameter of a MIME type names, where that is a
    /// known ASCII-compatible one.
    pub fn from_mimetype(mime: &str) -> (r: Option<AsciiCompatibleEncoding>)
        ensures
            match spec_mime_charset(mime@) {
                Some(cs) => (r is Some <==> (spec_encoding_for_label(cs) is Some && spec_is_ascii_compatible(cs)))
                    && (r matches Some(e) ==> e.label() == cs),
                None => r is None,
            },
    {
        match mime_charset(mime) {
            Some(cs) => AsciiCompatibleEncoding::new(cs.as_str()),
            None => None,
        }
    }
}

/// The value of the `charset` parameter of `mime` read as a MIME type, `None` where it
/// is no MIME type or has no such parameter.
pub uninterp spec fn spec_mime_charset(mime: Seq<char>) -> Option<Seq<char>>;

/// Parses `mime` with the `mime` crate (`str::parse::<mime::Mime>`) and reads its
/// `charset` parameter (`Mime::get_param`). The contract only names the result.
#[verifier::external_body]
fn mime_charset(mime: &str) -> (r: Option<String>)
    ensures
        match r {
            Some(cs) => spec_mime_charset(mime@) == Some(cs@),
            None => spec_mime_charset(mime@) is None,
        },
{
    let parsed = mime.parse::<mime::Mime>().ok()?;
    parsed.get_param("charset").map(|cs| cs.as_str().to_owned())
}

/// The encoding a `<meta>` tag declares: the one its `charset` attribute names, else,
/// where its `http-equiv` is `Content-Type` (ASCII case aside), the one the `charset`
/// parameter of its `content` names; only known ASCII-compatible encodings count.
pub open spec fn spec_meta_charset(
    charset: Option<Seq<char>>,
    http_equiv: Option<Seq<char>>,
    content: Option<Seq<char>>,
) -> Option<Seq<char>> {
    let from_charset = match charset {
        Some(cs) => if spec_encoding_for_label(cs) is Some && spec_is_ascii_compatible(cs) {
            Some(cs)
        } else {
            None
        },
        None => None,
    };
    if from_charset is Some {
        from_charset
    } else {
        match (http_equiv, content) {
            (Some(he), Some(c)) => if ascii_lower_str(he) == "content-type"@ {
                match spec_mime_charset(c) {
                    Some(cs) => if spec_encoding_for_label(cs) is Some && spec_is_ascii_compatible(cs) {
                        Some(cs)
                    } else {
                        None
                    },
                    None => None,
                }
            } else {
                None
            },
            _ => None,
        }
    }
}

/// The encoding a `<meta>` tag declares, from its `charset`, `http-equiv` and `content`
/// attributes (see `spec_meta_charset`).
pub fn meta_charset(charset: Option<&str>, http_equiv: Option<&str>, content: Option<&str>) -> (r: Option<
    AsciiCompatibleEncoding,
>)
    ensures
        match spec_meta_charset(opt_view(charset), opt_view(http_equiv), opt_view(content)) {
            Some(cs) => r is Some && r.unwrap().label() == cs && r.unwrap().wf(),
            None => r is None,
        },
{
    let from_charset = match charset {
        Some(cs) => AsciiCompatibleEncoding::new(cs),
        None => None,
    };
    if from_charset.is_some() {
        return from_charset;
    }
    match (http_equiv, content) {
        (Some(he), Some(c)) => {
            let lowered = crate::base::to_ascii_lowercase(he);
            let expected = "content-type".to_owned();
            if lowered == expected {
                AsciiCompatibleEncoding::from_mimetype(c)
            } else {
                None
            }
        },
        _ => None,
    }
}

/// The view of an optional string.
pub open spec fn opt_view(s: Option<&str>) -> Option<Seq<char>> {
    match s {
        Some(v) => Some(v@),
        None => None,
    }
}

/// The decoded value of the first attribute of `el` whose name is `name`.
pub open spec fn attr_value(el: StartTag, name: Seq<char>) -> Option<Seq<char>> {
    match find_attr(el.attrs(), ascii_lower_str(name)) {
        Some(i) => Some(spec_decode(el.encoding(), el.attrs()[i].value_bytes())),
        None => None,
    }
}

/// Follows `<meta>` tags for the encoding they declare: HTML lets a document set its
/// encoding once, so only the first declaration of a usable encoding counts.
#[derive(Debug)]
pub struct MetaCharsetAdjuster {
    found: bool,
}

impl MetaCharsetAdjuster {
    /// Whether an encoding was declared already.
    pub closed spec fn is_found(&self) -> bool {
        self.found
    }

    /// No encoding declared yet.
    pub fn new() -> (r: MetaCharsetAdjuster)
        ensures
            !r.is_found(),
    {
        MetaCharsetAdjuster { found: false }
    }

    /// The encoding to switch to on a `<meta>` tag: what it declares (see
    /// `spec_meta_charset`), unless an encoding was declared before.
    pub fn on_meta_tag(&mut self, el: &StartTag) -> (r: Option<AsciiCompatibleEncoding>)
        requires
            el.wf(),
        ensures
            old(self).is_found() ==> r is None && final(self).is_found(),
            !old(self).is_found() ==> match spec_meta_charset(
                attr_value(*el, "charset"@),
                attr_value(*el, "http-equiv"@),
                attr_value(*el, "content"@),
            ) {
                Some(cs) => r is Some && r.unwrap().label() == cs && r.unwrap().wf() && final(self).is_found(),
                None => r is None && !final(self).is_found(),
            },
    {
        if self.found {
            return None;
        }
        let charset = el.get_attribute("charset");
        let http_equiv = el.get_attribute("http-equiv");
        let content = el.get_attribute("content");
        let found = meta_charset(
            match &charset {
                Some(s) => Some(s.as_str()),
                None => None,
            },
            match &http_equiv {
                Some(s) => Some(s.as_str()),
                None => None,
            },
            match &content {
                Some(s) => Some(s.as_str()),
                None => None,
            },
        );
        if found.is_some() {
            self.found = true;
        }
        found
    }
}

} // verus!

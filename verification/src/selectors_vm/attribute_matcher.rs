use vstd::prelude::*;
use crate::html::{Namespace, is_html_namespace, lowercase, to_lower, byte_to_lower};
use super::parser::{ParsedCaseSensitivity, AttrSelectorOperator};

verus! {

/// An attribute of a start tag, as written in the document.
#[derive(Debug, Clone)]
pub struct AttributeItem {
    pub name: Vec<u8>,
    pub value: Vec<u8>,
}

/// The operand of a compiled attribute expression: the lowercased attribute name, the
/// value to compare with and how to compare it.
#[derive(Debug, Clone)]
pub struct CompiledAttributeExprOperand {
    pub name: Vec<u8>,
    pub value: Vec<u8>,
    pub case_sensitivity: ParsedCaseSensitivity,
}

/// Answers attribute selector questions about the attributes of one start tag.
#[derive(Debug, Clone)]
pub struct AttributeMatcher {
    pub attributes: Vec<AttributeItem>,
    pub is_html_element: bool,
}

/// Attribute values are split into words on these bytes.
pub open spec fn is_attr_whitespace(b: u8) -> bool {
    b == 32 || b == 10 || b == 13 || b == 9 || b == 12
}

/// Whether values are compared case-insensitively: explicitly asked for, or asked
/// for HTML elements only and the element is one.
pub open spec fn is_case_insensitive(cs: ParsedCaseSensitivity, is_html_element: bool) -> bool {
    match cs {
        ParsedCaseSensitivity::AsciiCaseInsensitive => true,
        ParsedCaseSensitivity::AsciiCaseInsensitiveIfInHtmlElementInHtmlDocument => is_html_element,
        _ => false,
    }
}

/// Equality of byte strings, ASCII case aside where `insensitive` holds.
pub open spec fn cs_eq(insensitive: bool, a: Seq<u8>, b: Seq<u8>) -> bool {
    if insensitive {
        lowercase(a) == lowercase(b)
    } else {
        a == b
    }
}

/// `v[i..j]` is one of the words that splitting `v` on whitespace gives (empty words
/// included, as between two whitespace bytes).
pub open spec fn is_part(v: Seq<u8>, i: int, j: int) -> bool {
    &&& 0 <= i <= j <= v.len()
    &&& (i == 0 || is_attr_whitespace(v[i - 1]))
    &&& (j == v.len() || is_attr_whitespace(v[j]))
    &&& forall|k: int| i <= k < j ==> !is_attr_whitespace(#[trigger] v[k])
}

/// Some word of `v` equals `w`.
pub open spec fn has_part(v: Seq<u8>, w: Seq<u8>, insensitive: bool) -> bool {
    exists|i: int, j: int| is_part(v, i, j) && cs_eq(insensitive, #[trigger] v.subrange(i, j), w)
}

/// The attribute at `i` has the lowercased name `lname`.
pub open spec fn attr_has_name(attrs: Seq<AttributeItem>, i: int, lname: Seq<u8>) -> bool {
    lowercase(attrs[i].name@) == lname
}

/// The index of the first attribute with the lowercased name `lname`, looking from `i`.
pub open spec fn find_attr_from(attrs: Seq<AttributeItem>, lname: Seq<u8>, i: int) -> Option<int>
    decreases attrs.len() - i,
{
    if i < 0 || i >= attrs.len() {
        None
    } else if attr_has_name(attrs, i, lname) {
        Some(i)
    } else {
        find_attr_from(attrs, lname, i + 1)
    }
}

/// The index of the first attribute with the lowercased name `lname`.
pub open spec fn find_attr(attrs: Seq<AttributeItem>, lname: Seq<u8>) -> Option<int> {
    find_attr_from(attrs, lname, 0)
}

/// The value of the first attribute with the lowercased name `lname`.
pub open spec fn attr_value(attrs: Seq<AttributeItem>, lname: Seq<u8>) -> Option<Seq<u8>> {
    match find_attr(attrs, lname) {
        Some(i) => Some(attrs[i].value@),
        None => None,
    }
}

/// `[name=value]`
pub open spec fn spec_eq_matches(actual: Seq<u8>, value: Seq<u8>, ins: bool) -> bool {
    cs_eq(ins, actual, value)
}

/// `[name~=value]`
pub open spec fn spec_includes_matches(actual: Seq<u8>, value: Seq<u8>, ins: bool) -> bool {
    has_part(actual, value, ins)
}

/// `[name|=value]`: the value, or the value followed by `-`.
pub open spec fn spec_dash_matches(actual: Seq<u8>, value: Seq<u8>, ins: bool) -> bool {
    cs_eq(ins, actual, value) || (actual.len() > value.len() && actual[value.len() as int] == 45
        && cs_eq(ins, actual.subrange(0, value.len() as int), value))
}

/// `[name^=value]`
pub open spec fn spec_prefix_matches(actual: Seq<u8>, value: Seq<u8>, ins: bool) -> bool {
    actual.len() > 0 && actual.len() >= value.len() && cs_eq(
        ins,
        actual.subrange(0, value.len() as int),
        value,
    )
}

/// `[name$=value]`
pub open spec fn spec_suffix_matches(actual: Seq<u8>, value: Seq<u8>, ins: bool) -> bool {
    actual.len() >= value.len() && cs_eq(
        ins,
        actual.subrange(actual.len() - value.len(), actual.len() as int),
        value,
    )
}

/// `[name*=value]`: a non-empty value occurs in the attribute's value.
pub open spec fn spec_substring_matches(actual: Seq<u8>, value: Seq<u8>, ins: bool) -> bool {
    value.len() > 0 && exists|i: int|
        0 <= i && i + value.len() <= actual.len() && cs_eq(
            ins,
            #[trigger] actual.subrange(i, i + value.len()),
            value,
        )
}

/// The attribute value `actual` matches `value` by the operator.
pub open spec fn spec_operator_matches(op: AttrSelectorOperator, actual: Seq<u8>, value: Seq<u8>, ins: bool) -> bool {
    match op {
        AttrSelectorOperator::Equal => spec_eq_matches(actual, value, ins),
        AttrSelectorOperator::Includes => spec_includes_matches(actual, value, ins),
        AttrSelectorOperator::DashMatch => spec_dash_matches(actual, value, ins),
        AttrSelectorOperator::Prefix => spec_prefix_matches(actual, value, ins),
        AttrSelectorOperator::Substring => spec_substring_matches(actual, value, ins),
        AttrSelectorOperator::Suffix => spec_suffix_matches(actual, value, ins),
    }
}

/// Compares `a[start..start + b.len()]` with `b`.
fn eq_at(a: &[u8], start: usize, b: &[u8], insensitive: bool) -> (r: bool)
    requires
        start + b@.len() <= a@.len(),
    ensures
        r == cs_eq(insensitive, a@.subrange(start as int, start + b@.len()), b@),
{
    let alen = a.len();
    let mut i: usize = 0;
    while i < b.len()
        invariant
            alen == a@.len(),
            start + b@.len() <= a@.len(),
            i <= b@.len(),
            forall|k: int|
                0 <= k < i ==> (if insensitive {
                    to_lower(a@[start + k]) == to_lower(b@[k])
                } else {
                    a@[start + k] == b@[k]
                }),
        decreases b@.len() - i,
    {
        let x = a[start + i];
        let y = b[i];
        let same = if insensitive {
            byte_to_lower(x) == byte_to_lower(y)
        } else {
            x == y
        };
        if !same {
            proof {
                let sub = a@.subrange(start as int, start + b@.len());
                assert(sub[i as int] == x);
                if insensitive {
                    assert(lowercase(sub)[i as int] != lowercase(b@)[i as int]);
                } else {
                    assert(sub[i as int] != b@[i as int]);
                }
            }
            return false;
        }
        i = i + 1;
    }
    proof {
        let sub = a@.subrange(start as int, start + b@.len());
        if insensitive {
            assert(lowercase(sub) =~= lowercase(b@));
        } else {
            assert(sub =~= b@);
        }
    }
    true
}

fn is_whitespace_byte(b: u8) -> (r: bool)
    ensures
        r == is_attr_whitespace(b),
{
    b == 32 || b == 10 || b == 13 || b == 9 || b == 12
}

/// Whether the word `v[start..end]` equals `w`.
fn word_eq(v: &[u8], start: usize, end: usize, w: &[u8], insensitive: bool) -> (r: bool)
    requires
        start <= end <= v@.len(),
    ensures
        r == cs_eq(insensitive, v@.subrange(start as int, end as int), w@),
{
    if end - start == w.len() {
        eq_at(v, start, w, insensitive)
    } else {
        proof {
            if insensitive {
                assert(lowercase(v@.subrange(start as int, end as int)).len() != lowercase(w@).len());
            }
        }
        false
    }
}

/// Whether some word of `v` equals `w`.
fn has_part_exec(v: &[u8], w: &[u8], insensitive: bool) -> (r: bool)
    ensures
        r == has_part(v@, w@, insensitive),
{
    let n = v.len();
    let mut start: usize = 0;
    let mut pos: usize = 0;
    while pos < n
        invariant
            n == v@.len(),
            start <= pos <= n,
            start == 0 || is_attr_whitespace(v@[start - 1]),
            forall|k: int| start <= k < pos ==> !is_attr_whitespace(#[trigger] v@[k]),
            forall|i: int, j: int|
                is_part(v@, i, j) && j < pos ==> !cs_eq(insensitive, #[trigger] v@.subrange(i, j), w@),
        decreases n - pos,
    {
        if is_whitespace_byte(v[pos]) {
            assert(is_part(v@, start as int, pos as int));
            if word_eq(v, start, pos, w, insensitive) {
                return true;
            }
            proof {
                assert forall|i: int, j: int|
                    is_part(v@, i, j) && j < pos + 1 implies !cs_eq(insensitive, #[trigger] v@.subrange(i, j), w@) by {
                    if j == pos {
                        if i < start {
                            assert(!is_attr_whitespace(v@[start - 1]));
                        }
                        if i > start {
                            assert(is_attr_whitespace(v@[i - 1]));
                        }
                    }
                }
            }
            start = pos + 1;
        }
        pos = pos + 1;
    }
    assert(is_part(v@, start as int, n as int));
    if word_eq(v, start, n, w, insensitive) {
        return true;
    }
    proof {
        assert forall|i: int, j: int| is_part(v@, i, j) implies !cs_eq(insensitive, #[trigger] v@.subrange(i, j), w@) by {
            if j == n {
                if i < start {
                    assert(!is_attr_whitespace(v@[start - 1]));
                }
                if i > start {
                    assert(is_attr_whitespace(v@[i - 1]));
                }
            }
        }
    }
    false
}

impl AttributeMatcher {
    /// Makes the matcher for the attributes of a start tag of the given namespace.
    pub fn new(attributes: Vec<AttributeItem>, ns: Namespace) -> (r: AttributeMatcher)
        ensures
            r.attributes@ == attributes@,
            r.is_html_element == (ns == Namespace::Html),
    {
        AttributeMatcher { attributes, is_html_element: is_html_namespace(ns) }
    }

    /// The first attribute with the lowercased name `lname`.
    fn find(&self, lname: &[u8]) -> (r: Option<usize>)
        ensures
            match r {
                Some(i) => find_attr(self.attributes@, lname@) == Some(i as int) && i < self.attributes@.len(),
                None => find_attr(self.attributes@, lname@) is None,
            },
    {
        let mut i: usize = 0;
        while i < self.attributes.len()
            invariant
                i <= self.attributes@.len(),
                find_attr(self.attributes@, lname@) == find_attr_from(self.attributes@, lname@, i as int),
            decreases self.attributes@.len() - i,
        {
            let name = self.attributes[i].name.as_slice();
            if name.len() == lname.len() && eq_at(name, 0, lname, true) && lower_is_identity(lname) {
                proof {
                    assert(name@.subrange(0, lname@.len() as int) =~= name@);
                    assert(lowercase(lname@) =~= lname@);
                }
                return Some(i);
            }
            proof {
                assert(name@.subrange(0, name@.len() as int) =~= name@);
                if attr_has_name(self.attributes@, i as int, lname@) {
                    assert(lowercase(name@).len() == name@.len());
                    assert(lowercase(lowercase(name@)) =~= lowercase(name@));
                    if name@.len() == lname@.len() {
                        assert(lowercase(lname@) =~= lname@);
                    }
                }
            }
            i = i + 1;
        }
        None
    }

    /// The value of the first attribute with the lowercased name `lname`.
    fn value_of(&self, lname: &[u8]) -> (r: Option<&Vec<u8>>)
        ensures
            match r {
                Some(v) => attr_value(self.attributes@, lname@) == Some(v@),
                None => attr_value(self.attributes@, lname@) is None,
            },
    {
        match self.find(lname) {
            Some(i) => Some(&self.attributes[i].value),
            None => None,
        }
    }

    /// Whether the tag has an attribute with the lowercased name `lname`.
    pub fn has_attribute(&self, lname: &[u8]) -> (r: bool)
        ensures
            r == (find_attr(self.attributes@, lname@) is Some),
    {
        self.find(lname).is_some()
    }

    /// Whether the tag's `id` is `id`.
    pub fn has_id(&self, id: &[u8]) -> (r: bool)
        ensures
            r == (attr_value(self.attributes@, seq![105u8, 100u8]) == Some(id@)),
    {
        let name: [u8; 2] = [105u8, 100u8];
        let name_slice = name.as_slice();
        assert(name_slice@ =~= seq![105u8, 100u8]);
        match self.value_of(name_slice) {
            Some(v) => crate::html::bytes_eq(v.as_slice(), id),
            None => false,
        }
    }

    /// Whether `class_name` is one of the words of the tag's `class`.
    pub fn has_class(&self, class_name: &[u8]) -> (r: bool)
        ensures
            r == match attr_value(self.attributes@, seq![99u8, 108u8, 97u8, 115u8, 115u8]) {
                Some(v) => has_part(v, class_name@, false),
                None => false,
            },
    {
        let name: [u8; 5] = [99u8, 108u8, 97u8, 115u8, 115u8];
        let name_slice = name.as_slice();
        assert(name_slice@ =~= seq![99u8, 108u8, 97u8, 115u8, 115u8]);
        match self.value_of(name_slice) {
            Some(v) => has_part_exec(v.as_slice(), class_name, false),
            None => false,
        }
    }

    /// `[name=value]`
    pub fn attr_eq(&self, operand: &CompiledAttributeExprOperand) -> (r: bool)
        ensures
            r == self.spec_value_matches(operand, AttrSelectorOperator::Equal),
    {
        let ins = case_insensitive(operand.case_sensitivity, self.is_html_element);
        match self.value_of(operand.name.as_slice()) {
            Some(actual) => {
                let a = actual.as_slice();
                let v = operand.value.as_slice();
                proof {
                    assert(a@.subrange(0, a@.len() as int) =~= a@);
                    if ins {
                        assert(a@.len() != v@.len() ==> lowercase(a@).len() != lowercase(v@).len());
                    }
                }
                a.len() == v.len() && eq_at(a, 0, v, ins)
            },
            None => false,
        }
    }

    /// The value of the attribute named by the operand matches it by the operator.
    pub open spec fn spec_value_matches(
        &self,
        operand: &CompiledAttributeExprOperand,
        op: AttrSelectorOperator,
    ) -> bool {
        match attr_value(self.attributes@, operand.name@) {
            Some(actual) => spec_operator_matches(
                op,
                actual,
                operand.value@,
                is_case_insensitive(operand.case_sensitivity, self.is_html_element),
            ),
            None => false,
        }
    }

    /// `[name~=value]`
    pub fn matches_splitted_by_whitespace(&self, operand: &CompiledAttributeExprOperand) -> (r: bool)
        ensures
            r == self.spec_value_matches(operand, AttrSelectorOperator::Includes),
    {
        let ins = case_insensitive(operand.case_sensitivity, self.is_html_element);
        match self.value_of(operand.name.as_slice()) {
            Some(actual) => has_part_exec(actual.as_slice(), operand.value.as_slice(), ins),
            None => false,
        }
    }

    /// `[name|=value]`
    pub fn has_dash_matching_attr(&self, operand: &CompiledAttributeExprOperand) -> (r: bool)
        ensures
            r == self.spec_value_matches(operand, AttrSelectorOperator::DashMatch),
    {
        let ins = case_insensitive(operand.case_sensitivity, self.is_html_element);
        match self.value_of(operand.name.as_slice()) {
            Some(actual) => {
                let a = actual.as_slice();
                let v = operand.value.as_slice();
                proof {
                    assert(a@.subrange(0, a@.len() as int) =~= a@);
                    if ins {
                        assert(a@.len() != v@.len() ==> lowercase(a@).len() != lowercase(v@).len());
                    }
                }
                if a.len() == v.len() && eq_at(a, 0, v, ins) {
                    true
                } else {
                    a.len() > v.len() && a[v.len()] == 45u8 && eq_at(a, 0, v, ins)
                }
            },
            None => false,
        }
    }

    /// `[name^=value]`
    pub fn has_attr_with_prefix(&self, operand: &CompiledAttributeExprOperand) -> (r: bool)
        ensures
            r == self.spec_value_matches(operand, AttrSelectorOperator::Prefix),
    {
        let ins = case_insensitive(operand.case_sensitivity, self.is_html_element);
        match self.value_of(operand.name.as_slice()) {
            Some(actual) => {
                let a = actual.as_slice();
                let v = operand.value.as_slice();
                a.len() > 0 && a.len() >= v.len() && eq_at(a, 0, v, ins)
            },
            None => false,
        }
    }

    /// `[name$=value]`
    pub fn has_attr_with_suffix(&self, operand: &CompiledAttributeExprOperand) -> (r: bool)
        ensures
            r == self.spec_value_matches(operand, AttrSelectorOperator::Suffix),
    {
        let ins = case_insensitive(operand.case_sensitivity, self.is_html_element);
        match self.value_of(operand.name.as_slice()) {
            Some(actual) => {
                let a = actual.as_slice();
                let v = operand.value.as_slice();
                a.len() >= v.len() && eq_at(a, a.len() - v.len(), v, ins)
            },
            None => false,
        }
    }

    /// `[name*=value]`
    pub fn has_attr_with_substring(&self, operand: &CompiledAttributeExprOperand) -> (r: bool)
        ensures
            r == self.spec_value_matches(operand, AttrSelectorOperator::Substring),
    {
        let ins = case_insensitive(operand.case_sensitivity, self.is_html_element);
        match self.value_of(operand.name.as_slice()) {
            Some(actual) => {
                let a = actual.as_slice();
                let v = operand.value.as_slice();
                if v.len() == 0 || a.len() < v.len() {
                    return false;
                }
                let bound = a.len() - v.len() + 1;
                let mut i: usize = 0;
                while i < bound
                    invariant
                        bound == a@.len() - v@.len() + 1,
                        attr_value(self.attributes@, operand.name@) == Some(a@),
                        v@ == operand.value@,
                        ins == is_case_insensitive(operand.case_sensitivity, self.is_html_element),
                        v@.len() > 0,
                        v@.len() <= a@.len(),
                        i <= a@.len(),
                        forall|k: int| 0 <= k < i && k + v@.len() <= a@.len() ==> !cs_eq(ins, #[trigger] a@.subrange(k, k + v@.len()), v@),
                    decreases a@.len() - i,
                {
                    if eq_at(a, i, v, ins) {
                        assert(0 <= i && i + v@.len() <= a@.len() && cs_eq(ins, a@.subrange(i as int, i + v@.len()), v@));
                        assert(spec_substring_matches(a@, v@, ins));
                        return true;
                    }
                    i = i + 1;
                }
                proof {
                    assert forall|k: int| 0 <= k && k + v@.len() <= a@.len() implies !cs_eq(ins, #[trigger] a@.subrange(k, k + v@.len()), v@) by {
                        assert(k < i);
                    }
                }
                false
            },
            None => false,
        }
    }
}

/// Whether the operand's values are compared case-insensitively.
fn case_insensitive(cs: ParsedCaseSensitivity, is_html_element: bool) -> (r: bool)
    ensures
        r == is_case_insensitive(cs, is_html_element),
{
    match cs {
        ParsedCaseSensitivity::AsciiCaseInsensitive => true,
        ParsedCaseSensitivity::AsciiCaseInsensitiveIfInHtmlElementInHtmlDocument => is_html_element,
        _ => false,
    }
}

/// Whether lowercasing leaves the bytes as they are.
fn lower_is_identity(s: &[u8]) -> (r: bool)
    ensures
        r == (lowercase(s@) == s@),
{
    let mut i: usize = 0;
    while i < s.len()
        invariant
            i <= s@.len(),
            forall|k: int| 0 <= k < i ==> to_lower(s@[k]) == s@[k],
        decreases s@.len() - i,
    {
        if byte_to_lower(s[i]) != s[i] {
            assert(lowercase(s@)[i as int] != s@[i as int]);
            return false;
        }
        i = i + 1;
    }
    assert(lowercase(s@) =~= s@);
    true
}

} // verus!

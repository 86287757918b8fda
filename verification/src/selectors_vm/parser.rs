use vstd::prelude::*;
use super::error::SelectorError;

verus! {

/// The operator of an attribute selector with a value.
#[derive(Debug, PartialEq, Eq, Structural, Copy, Clone)]
pub enum AttrSelectorOperator {
    Equal,
    Includes,
    DashMatch,
    Prefix,
    Substring,
    Suffix,
}

/// How the value of an attribute selector is compared.
#[derive(Debug, PartialEq, Eq, Structural, Copy, Clone)]
pub enum ParsedCaseSensitivity {
    ExplicitCaseSensitive,
    AsciiCaseInsensitive,
    CaseSensitive,
    AsciiCaseInsensitiveIfInHtmlElementInHtmlDocument,
}

/// A combinator between two compound selectors.
#[derive(Debug, PartialEq, Eq, Structural, Copy, Clone)]
pub enum Combinator {
    Child,
    Descendant,
    NextSibling,
    LaterSibling,
    PseudoElement,
    SlotAssignment,
    Part,
}

/// One component of a parsed complex selector, as the CSS selector grammar gives it.
#[derive(Debug)]
pub enum Component {
    Combinator(Combinator),
    ExplicitAnyNamespace,
    ExplicitNoNamespace,
    DefaultNamespace,
    Namespace,
    ExplicitUniversalType,
    LocalName(String),
    ID(String),
    Class(String),
    AttributeInNoNamespaceExists { local_name: String },
    AttributeInNoNamespace {
        local_name: String,
        operator: AttrSelectorOperator,
        value: String,
        case_sensitivity: ParsedCaseSensitivity,
        never_matches: bool,
    },
    AttributeOther,
    Negation(Vec<Component>),
    FirstChild,
    LastChild,
    OnlyChild,
    Root,
    Empty,
    Scope,
    NthChild,
    NthLastChild,
    NthOfType,
    NthLastOfType,
    FirstOfType,
    LastOfType,
    OnlyOfType,
    NonTSPseudoClass,
    Slotted,
    Part,
    Host,
    PseudoElement,
}

/// The error of a component that may stand inside a negation: `None` for the simple
/// selectors that are supported.
pub open spec fn simple_component_error(c: Component) -> Option<SelectorError> {
    match c {
        Component::Combinator(comb) => match comb {
            Combinator::Child | Combinator::Descendant => None,
            Combinator::NextSibling => Some(SelectorError::UnsupportedCombinator('+')),
            Combinator::LaterSibling => Some(SelectorError::UnsupportedCombinator('~')),
            _ => Some(SelectorError::UnsupportedPseudoClassOrElement),
        },
        Component::LocalName(_)
        | Component::ExplicitUniversalType
        | Component::ExplicitAnyNamespace
        | Component::ExplicitNoNamespace
        | Component::ID(_)
        | Component::Class(_)
        | Component::AttributeInNoNamespaceExists { .. }
        | Component::AttributeInNoNamespace { .. } => None,
        Component::Negation(_) => Some(SelectorError::NestedNegation),
        Component::DefaultNamespace | Component::Namespace | Component::AttributeOther => Some(
            SelectorError::NamespacedSelector,
        ),
        _ => Some(SelectorError::UnsupportedPseudoClassOrElement),
    }
}

/// The first error among the contents of a negation, looked at from index `i` on.
pub open spec fn negation_error_from(cs: Seq<Component>, i: int) -> Option<SelectorError>
    decreases cs.len() - i,
{
    if i < 0 || i >= cs.len() {
        None
    } else {
        match cs[i] {
            Component::Combinator(_) => Some(SelectorError::UnsupportedPseudoClassOrElement),
            _ => match simple_component_error(cs[i]) {
                Some(e) => Some(e),
                None => negation_error_from(cs, i + 1),
            },
        }
    }
}

/// The error of a negation's contents: an empty negation, or the first unsupported
/// component inside it.
pub open spec fn negation_error(cs: Seq<Component>) -> Option<SelectorError> {
    if cs.len() == 0 {
        Some(SelectorError::EmptyNegation)
    } else {
        negation_error_from(cs, 0)
    }
}

/// The error of one component of a complex selector, `None` if it is supported.
pub open spec fn component_error(c: Component) -> Option<SelectorError> {
    match c {
        Component::Negation(cs) => negation_error(cs@),
        _ => simple_component_error(c),
    }
}

/// The first error among `cs[..k]` in the order in which a selector is matched: the
/// compound selectors from the last to the first, each from its first component to its
/// last, and each combinator after the compound selector on its right. `pending` is the
/// first error of the part of the compound selector that ends the range, from `k` on.
pub open spec fn match_order_error(cs: Seq<Component>, k: int, pending: Option<SelectorError>) -> Option<SelectorError>
    decreases k,
{
    if k <= 0 || k > cs.len() {
        pending
    } else if is_combinator(cs[k - 1]) {
        match pending {
            Some(e) => Some(e),
            None => match component_error(cs[k - 1]) {
                Some(e) => Some(e),
                None => match_order_error(cs, k - 1, None),
            },
        }
    } else {
        match_order_error(
            cs,
            k - 1,
            match component_error(cs[k - 1]) {
                Some(e) => Some(e),
                None => pending,
            },
        )
    }
}

/// The first error among `cs[..i]`, in the order in which a selector is matched.
pub open spec fn item_error_upto(cs: Seq<Component>, i: int) -> Option<SelectorError> {
    match_order_error(cs, i, None)
}

pub open spec fn is_combinator(c: Component) -> bool {
    c is Combinator
}

/// The combinators of a complex selector stand between compound selectors: none first,
/// none last and never two in a row.
pub open spec fn well_placed_combinators(cs: Seq<Component>) -> bool {
    &&& cs.len() > 0
    &&& !is_combinator(cs[0])
    &&& !is_combinator(cs[cs.len() - 1])
    &&& forall|i: int| 0 <= i < cs.len() - 1 && is_combinator(#[trigger] cs[i]) ==> !is_combinator(cs[i + 1])
}

/// The error of a complex selector: its first unsupported component, then an empty
/// selector or a dangling combinator.
pub open spec fn item_error(cs: Seq<Component>) -> Option<SelectorError> {
    match item_error_upto(cs, cs.len() as int) {
        Some(e) => Some(e),
        None => if cs.len() == 0 {
            Some(SelectorError::EmptySelector)
        } else if !well_placed_combinators(cs) {
            Some(SelectorError::DanglingCombinator)
        } else {
            None
        },
    }
}

/// The error of a selector list: the first error of its complex selectors.
pub open spec fn list_error_from(items: Seq<Vec<Component>>, i: int) -> Option<SelectorError>
    decreases items.len() - i,
{
    if i < 0 || i >= items.len() {
        None
    } else {
        match item_error(items[i]@) {
            Some(e) => Some(e),
            None => list_error_from(items, i + 1),
        }
    }
}

pub open spec fn list_error(items: Seq<Vec<Component>>) -> Option<SelectorError> {
    if items.len() == 0 {
        Some(SelectorError::EmptySelector)
    } else {
        list_error_from(items, 0)
    }
}

/// A parsed CSS selector list that the rewriter supports.
///
/// Each complex selector of the list is held as its components in parse order:
/// compound selectors from left to right, combinators between them.
#[derive(Debug)]
pub struct Selector {
    pub items: Vec<Vec<Component>>,
}

impl Selector {
    pub open spec fn spec_items(&self) -> Seq<Vec<Component>> {
        self.items@
    }

    /// Every complex selector of the list is supported.
    pub open spec fn wf(&self) -> bool {
        list_error(self.spec_items()) is None
    }

    /// Checks the components of a parsed selector list and keeps the list if all of them
    /// are supported; otherwise returns the error of the first one that is not, complex
    /// selector by complex selector, each in the order in which it is matched.
    pub fn new(items: Vec<Vec<Component>>) -> (r: Result<Selector, SelectorError>)
        ensures
            match r {
                Ok(s) => s.spec_items() == items@ && s.wf(),
                Err(e) => list_error(items@) == Some(e),
            },
    {
        match validate_components(&items) {
            Some(e) => Err(e),
            None => Ok(Selector { items }),
        }
    }

    /// The number of complex selectors in the list.
    pub fn len(&self) -> (r: usize)
        ensures
            r == self.spec_items().len(),
    {
        self.items.len()
    }
}

fn simple_error(c: &Component) -> (r: Option<SelectorError>)
    ensures
        r == simple_component_error(*c),
{
    match c {
        Component::Combinator(comb) => match comb {
            Combinator::Child | Combinator::Descendant => None,
            Combinator::NextSibling => Some(SelectorError::UnsupportedCombinator('+')),
            Combinator::LaterSibling => Some(SelectorError::UnsupportedCombinator('~')),
            _ => Some(SelectorError::UnsupportedPseudoClassOrElement),
        },
        Component::LocalName(_)
        | Component::ExplicitUniversalType
        | Component::ExplicitAnyNamespace
        | Component::ExplicitNoNamespace
        | Component::ID(_)
        | Component::Class(_)
        | Component::AttributeInNoNamespaceExists { .. }
        | Component::AttributeInNoNamespace { .. } => None,
        Component::Negation(_) => Some(SelectorError::NestedNegation),
        Component::DefaultNamespace | Component::Namespace | Component::AttributeOther => Some(
            SelectorError::NamespacedSelector,
        ),
        _ => Some(SelectorError::UnsupportedPseudoClassOrElement),
    }
}

fn negation_contents_error(cs: &Vec<Component>) -> (r: Option<SelectorError>)
    ensures
        r == negation_error(cs@),
{
    if cs.len() == 0 {
        return Some(SelectorError::EmptyNegation);
    }
    let mut i: usize = 0;
    while i < cs.len()
        invariant
            i <= cs@.len(),
            cs@.len() > 0,
            negation_error(cs@) == negation_error_from(cs@, i as int),
        decreases cs@.len() - i,
    {
        match &cs[i] {
            Component::Combinator(_) => {
                return Some(SelectorError::UnsupportedPseudoClassOrElement);
            },
            c => {
                let e = simple_error(c);
                if e.is_some() {
                    return e;
                }
            },
        }
        i = i + 1;
    }
    None
}

fn component_err(c: &Component) -> (r: Option<SelectorError>)
    ensures
        r == component_error(*c),
{
    match c {
        Component::Negation(cs) => negation_contents_error(cs),
        _ => simple_error(c),
    }
}

fn is_combinator_exec(c: &Component) -> (r: bool)
    ensures
        r == is_combinator(*c),
{
    match c {
        Component::Combinator(_) => true,
        _ => false,
    }
}

fn combinators_well_placed(cs: &Vec<Component>) -> (r: bool)
    ensures
        r == well_placed_combinators(cs@),
{
    let n = cs.len();
    if n == 0 {
        return false;
    }
    if is_combinator_exec(&cs[0]) || is_combinator_exec(&cs[n - 1]) {
        return false;
    }
    let mut i: usize = 0;
    while i + 1 < n
        invariant
            n == cs@.len(),
            n > 0,
            i < n,
            forall|k: int| 0 <= k < i && is_combinator(#[trigger] cs@[k]) ==> !is_combinator(cs@[k + 1]),
        decreases n - i,
    {
        if is_combinator_exec(&cs[i]) && is_combinator_exec(&cs[i + 1]) {
            return false;
        }
        i = i + 1;
    }
    true
}

fn item_err(cs: &Vec<Component>) -> (r: Option<SelectorError>)
    ensures
        r == item_error(cs@),
{
    let mut i: usize = cs.len();
    let mut pending: Option<SelectorError> = None;
    while i > 0
        invariant
            i <= cs@.len(),
            item_error_upto(cs@, cs@.len() as int) == match_order_error(cs@, i as int, pending),
        decreases i,
    {
        let c = &cs[i - 1];
        if is_combinator_exec(c) {
            if pending.is_some() {
                return pending;
            }
            let e = component_err(c);
            if e.is_some() {
                return e;
            }
        } else {
            let e = component_err(c);
            if e.is_some() {
                pending = e;
            }
        }
        i = i - 1;
    }
    if pending.is_some() {
        return pending;
    }
    if cs.len() == 0 {
        Some(SelectorError::EmptySelector)
    } else if !combinators_well_placed(cs) {
        Some(SelectorError::DanglingCombinator)
    } else {
        None
    }
}

/// Returns the first error of a selector list, `None` if every component of every
/// complex selector is supported.
pub fn validate_components(items: &Vec<Vec<Component>>) -> (r: Option<SelectorError>)
    ensures
        r == list_error(items@),
{
    if items.len() == 0 {
        return Some(SelectorError::EmptySelector);
    }
    let mut i: usize = 0;
    while i < items.len()
        invariant
            i <= items@.len(),
            items@.len() > 0,
            list_error(items@) == list_error_from(items@, i as int),
        decreases items@.len() - i,
    {
        let e = item_err(&items[i]);
        if e.is_some() {
            return e;
        }
        i = i + 1;
    }
    None
}

} // verus!

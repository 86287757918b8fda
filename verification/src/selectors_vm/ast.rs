use vstd::prelude::*;
use super::parser::{
    list_error_from,
    AttrSelectorOperator, Combinator, Component, ParsedCaseSensitivity, Selector, list_error,
    item_error, match_order_error, component_error, negation_error, simple_component_error,
    well_placed_combinators, is_combinator,
};
use super::error::SelectorError;

verus! {

/// The operand of an attribute expression with a value.
#[derive(Debug)]
pub struct AttributeExprOperand {
    pub name: String,
    pub value: String,
    pub case_sensitivity: ParsedCaseSensitivity,
}

/// An expression on the attributes of an element.
#[derive(Debug)]
pub enum AttributeExpr {
    Id(String),
    Class(String),
    AttributeExists(String),
    AttributeEqual(AttributeExprOperand),
    AttributeIncludes(AttributeExprOperand),
    AttributeDashMatch(AttributeExprOperand),
    AttributePrefix(AttributeExprOperand),
    AttributeSubstring(AttributeExprOperand),
    AttributeSuffix(AttributeExprOperand),
}

/// An expression on the local name of an element.
#[derive(Debug)]
pub enum NonAttributeExpr {
    ExplicitAny,
    Unmatchable,
    LocalName(String),
}

/// An expression, possibly negated.
#[derive(Debug)]
pub struct Expr<E> {
    pub simple_expr: E,
    pub negation: bool,
}

impl<E> Expr<E> {
    pub fn new(simple_expr: E, negation: bool) -> (r: Self)
        ensures
            r.simple_expr == simple_expr,
            r.negation == negation,
    {
        Expr { simple_expr, negation }
    }
}

/// The expressions of one compound selector.
#[derive(Debug)]
pub struct Predicate {
    pub non_attr_exprs: Option<Vec<Expr<NonAttributeExpr>>>,
    pub attr_exprs: Option<Vec<Expr<AttributeExpr>>>,
}

/// A node of the selector tree: a compound selector, the nodes reached from it by the
/// child combinator, those reached by the descendant combinator, and the payloads of
/// the selectors that end here.
#[derive(Debug)]
pub struct AstNode {
    pub predicate: Predicate,
    pub children: Vec<AstNode>,
    pub descendants: Vec<AstNode>,
    pub payload: Vec<usize>,
}

/// The tree of all selectors that the rewriter matches, sharing common prefixes.
#[derive(Debug)]
pub struct Ast {
    pub root: Vec<AstNode>,
    /// The number of nodes, used to allocate the instructions when compiling.
    pub cumulative_node_count: usize,
}

// ---------------------------------------------------------------------------
// Views

pub ghost struct OperandView {
    pub name: Seq<char>,
    pub value: Seq<char>,
    pub case_sensitivity: ParsedCaseSensitivity,
}

pub ghost enum AttributeExprView {
    Id(Seq<char>),
    Class(Seq<char>),
    AttributeExists(Seq<char>),
    AttributeEqual(OperandView),
    AttributeIncludes(OperandView),
    AttributeDashMatch(OperandView),
    AttributePrefix(OperandView),
    AttributeSubstring(OperandView),
    AttributeSuffix(OperandView),
}

pub ghost enum NonAttributeExprView {
    ExplicitAny,
    Unmatchable,
    LocalName(Seq<char>),
}

pub ghost struct PredicateView {
    pub non_attr_exprs: Option<Seq<(NonAttributeExprView, bool)>>,
    pub attr_exprs: Option<Seq<(AttributeExprView, bool)>>,
}

impl AttributeExprOperand {
    pub open spec fn view(&self) -> OperandView {
        OperandView { name: self.name@, value: self.value@, case_sensitivity: self.case_sensitivity }
    }
}

impl AttributeExpr {
    pub open spec fn view(&self) -> AttributeExprView {
        match self {
            AttributeExpr::Id(s) => AttributeExprView::Id(s@),
            AttributeExpr::Class(s) => AttributeExprView::Class(s@),
            AttributeExpr::AttributeExists(s) => AttributeExprView::AttributeExists(s@),
            AttributeExpr::AttributeEqual(o) => AttributeExprView::AttributeEqual(o@),
            AttributeExpr::AttributeIncludes(o) => AttributeExprView::AttributeIncludes(o@),
            AttributeExpr::AttributeDashMatch(o) => AttributeExprView::AttributeDashMatch(o@),
            AttributeExpr::AttributePrefix(o) => AttributeExprView::AttributePrefix(o@),
            AttributeExpr::AttributeSubstring(o) => AttributeExprView::AttributeSubstring(o@),
            AttributeExpr::AttributeSuffix(o) => AttributeExprView::AttributeSuffix(o@),
        }
    }
}

impl NonAttributeExpr {
    pub open spec fn view(&self) -> NonAttributeExprView {
        match self {
            NonAttributeExpr::ExplicitAny => NonAttributeExprView::ExplicitAny,
            NonAttributeExpr::Unmatchable => NonAttributeExprView::Unmatchable,
            NonAttributeExpr::LocalName(s) => NonAttributeExprView::LocalName(s@),
        }
    }
}

pub open spec fn non_attr_list_view(l: Seq<Expr<NonAttributeExpr>>) -> Seq<(NonAttributeExprView, bool)> {
    Seq::new(l.len(), |i: int| (l[i].simple_expr@, l[i].negation))
}

pub open spec fn attr_list_view(l: Seq<Expr<AttributeExpr>>) -> Seq<(AttributeExprView, bool)> {
    Seq::new(l.len(), |i: int| (l[i].simple_expr@, l[i].negation))
}

impl Predicate {
    pub open spec fn view(&self) -> PredicateView {
        PredicateView {
            non_attr_exprs: match self.non_attr_exprs {
                Some(l) => Some(non_attr_list_view(l@)),
                None => None,
            },
            attr_exprs: match self.attr_exprs {
                Some(l) => Some(attr_list_view(l@)),
                None => None,
            },
        }
    }

    /// The predicate holds at least one expression.
    pub open spec fn non_empty(&self) -> bool {
        self.non_attr_exprs is Some || self.attr_exprs is Some
    }

    /// The empty predicate.
    pub fn empty() -> (r: Predicate)
        ensures
            r@ == empty_predicate(),
            !r.non_empty(),
    {
        Predicate { non_attr_exprs: None, attr_exprs: None }
    }
}

pub open spec fn empty_predicate() -> PredicateView {
    PredicateView { non_attr_exprs: None, attr_exprs: None }
}

// ---------------------------------------------------------------------------
// From components to expressions

/// The expression that a supported simple selector becomes: `Ok` for one on the
/// attributes, `Err` for one on the local name.
pub ghost enum SimpleExprView {
    NonAttr(NonAttributeExprView),
    Attr(AttributeExprView),
}

pub open spec fn operator_expr_view(op: AttrSelectorOperator, o: OperandView) -> AttributeExprView {
    match op {
        AttrSelectorOperator::DashMatch => AttributeExprView::AttributeDashMatch(o),
        AttrSelectorOperator::Equal => AttributeExprView::AttributeEqual(o),
        AttrSelectorOperator::Includes => AttributeExprView::AttributeIncludes(o),
        AttrSelectorOperator::Prefix => AttributeExprView::AttributePrefix(o),
        AttrSelectorOperator::Substring => AttributeExprView::AttributeSubstring(o),
        AttrSelectorOperator::Suffix => AttributeExprView::AttributeSuffix(o),
    }
}

/// The expression of a supported simple selector.
pub open spec fn simple_expr_of(c: Component) -> SimpleExprView {
    match c {
        Component::LocalName(n) => SimpleExprView::NonAttr(NonAttributeExprView::LocalName(n@)),
        Component::ExplicitUniversalType | Component::ExplicitAnyNamespace => SimpleExprView::NonAttr(
            NonAttributeExprView::ExplicitAny,
        ),
        Component::ID(id) => SimpleExprView::Attr(AttributeExprView::Id(id@)),
        Component::Class(c) => SimpleExprView::Attr(AttributeExprView::Class(c@)),
        Component::AttributeInNoNamespaceExists { local_name } => SimpleExprView::Attr(
            AttributeExprView::AttributeExists(local_name@),
        ),
        Component::AttributeInNoNamespace {
            local_name,
            operator,
            value,
            case_sensitivity,
            never_matches,
        } => if never_matches {
            SimpleExprView::NonAttr(NonAttributeExprView::Unmatchable)
        } else {
            SimpleExprView::Attr(
                operator_expr_view(
                    operator,
                    OperandView { name: local_name@, value: value@, case_sensitivity },
                ),
            )
        },
        _ => SimpleExprView::NonAttr(NonAttributeExprView::Unmatchable),
    }
}

/// Appends an expression to an optional list.
pub open spec fn push_opt<T>(l: Option<Seq<T>>, x: T) -> Option<Seq<T>> {
    match l {
        Some(s) => Some(s.push(x)),
        None => Some(seq![x]),
    }
}

/// The predicate with the expression of one more simple selector.
pub open spec fn add_component_view(p: PredicateView, c: Component, negation: bool) -> PredicateView {
    match simple_expr_of(c) {
        SimpleExprView::Attr(e) => PredicateView {
            attr_exprs: push_opt(p.attr_exprs, (e, negation)),
            ..p
        },
        SimpleExprView::NonAttr(e) => PredicateView {
            non_attr_exprs: push_opt(p.non_attr_exprs, (e, negation)),
            ..p
        },
    }
}

/// The predicate with the negated expressions of a negation's contents.
pub open spec fn add_negated_view(p: PredicateView, cs: Seq<Component>) -> PredicateView
    decreases cs.len(),
{
    if cs.len() == 0 {
        p
    } else {
        add_component_view(add_negated_view(p, cs.drop_last()), cs.last(), true)
    }
}

/// The predicate with one more component of a compound selector.
pub open spec fn add_any_component_view(p: PredicateView, c: Component) -> PredicateView {
    match c {
        Component::Negation(cs) => add_negated_view(p, cs@),
        _ => add_component_view(p, c, false),
    }
}

fn clone_operand(name: &String, value: &String, cs: ParsedCaseSensitivity) -> (r: AttributeExprOperand)
    ensures
        r@ == (OperandView { name: name@, value: value@, case_sensitivity: cs }),
{
    AttributeExprOperand { name: name.clone(), value: value.clone(), case_sensitivity: cs }
}

impl Predicate {
    /// Adds the expression of a supported simple selector.
    pub fn add_component(&mut self, component: &Component, negation: bool)
        ensures
            final(self)@ == add_component_view(old(self)@, *component, negation),
            final(self).non_empty(),
    {
        let ghost p = old(self)@;
        match component {
            Component::LocalName(n) => self.add_non_attr(NonAttributeExpr::LocalName(n.clone()), negation),
            Component::ExplicitUniversalType | Component::ExplicitAnyNamespace => self.add_non_attr(
                NonAttributeExpr::ExplicitAny,
                negation,
            ),
            Component::ID(id) => self.add_attr(AttributeExpr::Id(id.clone()), negation),
            Component::Class(c) => self.add_attr(AttributeExpr::Class(c.clone()), negation),
            Component::AttributeInNoNamespaceExists { local_name } => self.add_attr(
                AttributeExpr::AttributeExists(local_name.clone()),
                negation,
            ),
            Component::AttributeInNoNamespace {
                local_name,
                operator,
                value,
                case_sensitivity,
                never_matches,
            } => {
                if *never_matches {
                    self.add_non_attr(NonAttributeExpr::Unmatchable, negation)
                } else {
                    let operand = clone_operand(local_name, value, *case_sensitivity);
                    let e = match operator {
                        AttrSelectorOperator::DashMatch => AttributeExpr::AttributeDashMatch(operand),
                        AttrSelectorOperator::Equal => AttributeExpr::AttributeEqual(operand),
                        AttrSelectorOperator::Includes => AttributeExpr::AttributeIncludes(operand),
                        AttrSelectorOperator::Prefix => AttributeExpr::AttributePrefix(operand),
                        AttrSelectorOperator::Substring => AttributeExpr::AttributeSubstring(operand),
                        AttrSelectorOperator::Suffix => AttributeExpr::AttributeSuffix(operand),
                    };
                    self.add_attr(e, negation)
                }
            },
            _ => self.add_non_attr(NonAttributeExpr::Unmatchable, negation),
        }
    }

    fn add_non_attr(&mut self, e: NonAttributeExpr, negation: bool)
        ensures
            final(self)@ == (PredicateView {
                non_attr_exprs: push_opt(old(self)@.non_attr_exprs, (e@, negation)),
                ..old(self)@
            }),
            final(self).non_empty(),
    {
        add_expr_to_list(&mut self.non_attr_exprs, e, negation);
        proof {
            let l = self.non_attr_exprs.unwrap()@;
            assert(non_attr_list_view(l) =~= match old(self).non_attr_exprs {
                Some(o) => non_attr_list_view(o@).push((e@, negation)),
                None => seq![(e@, negation)],
            });
        }
    }

    fn add_attr(&mut self, e: AttributeExpr, negation: bool)
        ensures
            final(self)@ == (PredicateView {
                attr_exprs: push_opt(old(self)@.attr_exprs, (e@, negation)),
                ..old(self)@
            }),
            final(self).non_empty(),
    {
        add_expr_to_list(&mut self.attr_exprs, e, negation);
        proof {
            let l = self.attr_exprs.unwrap()@;
            assert(attr_list_view(l) =~= match old(self).attr_exprs {
                Some(o) => attr_list_view(o@).push((e@, negation)),
                None => seq![(e@, negation)],
            });
        }
    }

    /// Adds one component of a compound selector: a negation adds the negated
    /// expressions of its contents.
    pub fn add_any_component(&mut self, component: &Component)
        requires
            component_error(*component) is None,
            !is_combinator(*component),
        ensures
            final(self)@ == add_any_component_view(old(self)@, *component),
            final(self).non_empty(),
    {
        match component {
            Component::Negation(cs) => {
                let mut i: usize = 0;
                while i < cs.len()
                    invariant
                        i <= cs@.len(),
                        cs@.len() > 0,
                        self@ == add_negated_view(old(self)@, cs@.subrange(0, i as int)),
                        i > 0 ==> self.non_empty(),
                    decreases cs@.len() - i,
                {
                    proof {
                        assert(cs@.subrange(0, i + 1).drop_last() =~= cs@.subrange(0, i as int));
                    }
                    self.add_component(&cs[i], true);
                    i = i + 1;
                }
                proof {
                    assert(cs@.subrange(0, cs@.len() as int) =~= cs@);
                }
            },
            _ => self.add_component(component, false),
        }
    }
}

/// Appends an expression to an optional list, creating the list if needed.
pub fn add_expr_to_list<E>(list: &mut Option<Vec<Expr<E>>>, expr: E, negation: bool)
    ensures
        match *final(list) {
            Some(l) => l@.len() > 0 && l@.last() == Expr { simple_expr: expr, negation }
                && match *old(list) {
                Some(o) => l@ == o@.push(Expr { simple_expr: expr, negation }),
                None => l@ == seq![Expr { simple_expr: expr, negation }],
            },
            None => false,
        },
{
    match list.take() {
        Some(mut l) => {
            l.push(Expr::new(expr, negation));
            *list = Some(l);
        },
        None => {
            let mut l: Vec<Expr<E>> = Vec::new();
            l.push(Expr::new(expr, negation));
            *list = Some(l);
        },
    }
}

// ---------------------------------------------------------------------------
// Predicate equality

fn string_eq(a: &String, b: &String) -> (r: bool)
    ensures
        r == (a@ == b@),
{
    *a == *b
}

fn operand_eq(a: &AttributeExprOperand, b: &AttributeExprOperand) -> (r: bool)
    ensures
        r == (a@ == b@),
{
    string_eq(&a.name, &b.name) && string_eq(&a.value, &b.value) && a.case_sensitivity
        == b.case_sensitivity
}

fn non_attr_expr_eq(a: &NonAttributeExpr, b: &NonAttributeExpr) -> (r: bool)
    ensures
        r == (a@ == b@),
{
    match (a, b) {
        (NonAttributeExpr::ExplicitAny, NonAttributeExpr::ExplicitAny) => true,
        (NonAttributeExpr::Unmatchable, NonAttributeExpr::Unmatchable) => true,
        (NonAttributeExpr::LocalName(x), NonAttributeExpr::LocalName(y)) => string_eq(x, y),
        _ => false,
    }
}

fn attr_expr_eq(a: &AttributeExpr, b: &AttributeExpr) -> (r: bool)
    ensures
        r == (a@ == b@),
{
    match (a, b) {
        (AttributeExpr::Id(x), AttributeExpr::Id(y)) => string_eq(x, y),
        (AttributeExpr::Class(x), AttributeExpr::Class(y)) => string_eq(x, y),
        (AttributeExpr::AttributeExists(x), AttributeExpr::AttributeExists(y)) => string_eq(x, y),
        (AttributeExpr::AttributeEqual(x), AttributeExpr::AttributeEqual(y)) => operand_eq(x, y),
        (AttributeExpr::AttributeIncludes(x), AttributeExpr::AttributeIncludes(y)) => operand_eq(x, y),
        (AttributeExpr::AttributeDashMatch(x), AttributeExpr::AttributeDashMatch(y)) => operand_eq(x, y),
        (AttributeExpr::AttributePrefix(x), AttributeExpr::AttributePrefix(y)) => operand_eq(x, y),
        (AttributeExpr::AttributeSubstring(x), AttributeExpr::AttributeSubstring(y)) => operand_eq(x, y),
        (AttributeExpr::AttributeSuffix(x), AttributeExpr::AttributeSuffix(y)) => operand_eq(x, y),
        _ => false,
    }
}

fn non_attr_list_eq(a: &Vec<Expr<NonAttributeExpr>>, b: &Vec<Expr<NonAttributeExpr>>) -> (r: bool)
    ensures
        r == (non_attr_list_view(a@) == non_attr_list_view(b@)),
{
    if a.len() != b.len() {
        assert(non_attr_list_view(a@).len() != non_attr_list_view(b@).len());
        return false;
    }
    let mut i: usize = 0;
    while i < a.len()
        invariant
            a@.len() == b@.len(),
            i <= a@.len(),
            forall|k: int| 0 <= k < i ==> non_attr_list_view(a@)[k] == non_attr_list_view(b@)[k],
        decreases a@.len() - i,
    {
        if !(non_attr_expr_eq(&a[i].simple_expr, &b[i].simple_expr) && a[i].negation == b[i].negation) {
            assert(non_attr_list_view(a@)[i as int] != non_attr_list_view(b@)[i as int]);
            return false;
        }
        i = i + 1;
    }
    assert(non_attr_list_view(a@) =~= non_attr_list_view(b@));
    true
}

fn attr_list_eq(a: &Vec<Expr<AttributeExpr>>, b: &Vec<Expr<AttributeExpr>>) -> (r: bool)
    ensures
        r == (attr_list_view(a@) == attr_list_view(b@)),
{
    if a.len() != b.len() {
        assert(attr_list_view(a@).len() != attr_list_view(b@).len());
        return false;
    }
    let mut i: usize = 0;
    while i < a.len()
        invariant
            a@.len() == b@.len(),
            i <= a@.len(),
            forall|k: int| 0 <= k < i ==> attr_list_view(a@)[k] == attr_list_view(b@)[k],
        decreases a@.len() - i,
    {
        if !(attr_expr_eq(&a[i].simple_expr, &b[i].simple_expr) && a[i].negation == b[i].negation) {
            assert(attr_list_view(a@)[i as int] != attr_list_view(b@)[i as int]);
            return false;
        }
        i = i + 1;
    }
    assert(attr_list_view(a@) =~= attr_list_view(b@));
    true
}

impl Predicate {
    /// Compares two predicates expression by expression.
    pub fn same_as(&self, other: &Predicate) -> (r: bool)
        ensures
            r == (self@ == other@),
    {
        let na = match (&self.non_attr_exprs, &other.non_attr_exprs) {
            (Some(a), Some(b)) => non_attr_list_eq(a, b),
            (None, None) => true,
            _ => false,
        };
        let at = match (&self.attr_exprs, &other.attr_exprs) {
            (Some(a), Some(b)) => attr_list_eq(a, b),
            (None, None) => true,
            _ => false,
        };
        na && at
    }
}

// ---------------------------------------------------------------------------
// The tree

/// How a node of a selector path is reached from the node before it.
#[derive(Debug, Copy, Clone, PartialEq, Eq, Structural)]
pub enum Edge {
    Root,
    Child,
    Descendant,
}

/// One compound selector of a complex selector, with the way it is reached.
#[derive(Debug)]
pub struct PathStep {
    pub edge: Edge,
    pub predicate: Predicate,
}

pub ghost struct Step {
    pub edge: Edge,
    pub pred: PredicateView,
}

pub open spec fn steps_view(s: Seq<PathStep>) -> Seq<Step> {
    Seq::new(s.len(), |i: int| Step { edge: s[i].edge, pred: s[i].predicate@ })
}

/// The number of nodes in a forest.
pub open spec fn count_nodes(nodes: Seq<AstNode>) -> nat
    decreases nodes,
{
    if nodes.len() == 0 {
        0
    } else {
        count_nodes(nodes.drop_last()) + count_node(nodes.last())
    }
}

/// The number of nodes in a tree.
pub open spec fn count_node(n: AstNode) -> nat
    decreases n,
{
    1 + count_nodes(n.children@) + count_nodes(n.descendants@)
}

/// No two nodes of the forest have the same predicate: selectors that start alike
/// share their nodes.
pub open spec fn distinct_preds(nodes: Seq<AstNode>) -> bool {
    forall|i: int, j: int| 0 <= i < j < nodes.len() ==> (#[trigger] nodes[i]).predicate@ != (#[trigger] nodes[j]).predicate@
}

/// Every node of the forest holds at least one expression, and sibling nodes have
/// different predicates, at every level.
pub open spec fn forest_wf(nodes: Seq<AstNode>) -> bool
    decreases nodes,
{
    &&& forall|i: int| 0 <= i < nodes.len() ==> node_wf(#[trigger] nodes[i])
    &&& distinct_preds(nodes)
}

/// Every node of the tree holds at least one expression, and sibling nodes have
/// different predicates.
pub open spec fn node_wf(n: AstNode) -> bool
    decreases n,
{
    n.predicate.non_empty() && forest_wf(n.children@) && forest_wf(n.descendants@)
}

/// The index of the first node with the given predicate, looking from `i`.
pub open spec fn find_pred_from(nodes: Seq<AstNode>, pv: PredicateView, i: int) -> Option<int>
    decreases nodes.len() - i,
{
    if i < 0 || i >= nodes.len() {
        None
    } else if nodes[i].predicate@ == pv {
        Some(i)
    } else {
        find_pred_from(nodes, pv, i + 1)
    }
}

pub open spec fn find_pred(nodes: Seq<AstNode>, pv: PredicateView) -> Option<int> {
    find_pred_from(nodes, pv, 0)
}

/// The nodes that an edge leads to from a node.
pub open spec fn next_nodes(n: AstNode, e: Edge) -> Seq<AstNode> {
    if e == Edge::Child {
        n.children@
    } else {
        n.descendants@
    }
}

/// The node at the end of a path of predicates, starting among `nodes`; the edge of the
/// first step is not looked at.
pub open spec fn lookup_from(nodes: Seq<AstNode>, path: Seq<Step>) -> Option<AstNode>
    decreases path.len(),
{
    if path.len() == 0 {
        None
    } else {
        match find_pred(nodes, path[0].pred) {
            None => None,
            Some(i) => if path.len() == 1 {
                Some(nodes[i])
            } else if path[1].edge == Edge::Root {
                None
            } else {
                lookup_from(next_nodes(nodes[i], path[1].edge), path.drop_first())
            },
        }
    }
}

/// The payloads at the end of a path, none where it leads nowhere.
pub open spec fn payloads_at_from(nodes: Seq<AstNode>, path: Seq<Step>) -> Set<usize> {
    match lookup_from(nodes, path) {
        Some(n) => n.payload@.to_set(),
        None => Set::empty(),
    }
}

/// The payloads of the selectors whose path of compound selectors is `path`.
pub open spec fn payloads_at(nodes: Seq<AstNode>, path: Seq<Step>) -> Set<usize> {
    if path.len() > 0 && path[0].edge == Edge::Root {
        payloads_at_from(nodes, path)
    } else {
        Set::empty()
    }
}

/// Two paths agree but for the edge of their first step.
pub open spec fn same_tail(q: Seq<Step>, s: Seq<Step>) -> bool {
    &&& q.len() == s.len()
    &&& forall|t: int| 0 <= t < q.len() ==> (#[trigger] q[t]).pred == s[t].pred
    &&& forall|t: int| 0 < t < q.len() ==> (#[trigger] q[t]).edge == s[t].edge
}

/// `q` agrees with a first part of `s` but for the edge of its first step.
pub open spec fn tail_prefix(q: Seq<Step>, s: Seq<Step>) -> bool {
    1 <= q.len() <= s.len() && same_tail(q, s.take(q.len() as int))
}

/// The forest has a node at the end of the path `q`, a path from the root.
pub open spec fn has_node_at(nodes: Seq<AstNode>, q: Seq<Step>) -> bool {
    q.len() > 0 && q[0].edge == Edge::Root && lookup_from(nodes, q) is Some
}

/// `q` is a first part, one step or more, of the path of one of the complex selectors
/// of the list.
pub open spec fn selector_has_prefix(sel: Selector, q: Seq<Step>) -> bool {
    exists|i: int| 0 <= i < sel.spec_items().len() && 1 <= q.len() <= item_path(#[trigger] sel.spec_items()[i]@).len()
        && q == item_path(sel.spec_items()[i]@).take(q.len() as int)
}

/// A path of steps that the tree can hold: only its first step is a root step.
pub open spec fn path_wf(s: Seq<Step>) -> bool {
    &&& s.len() > 0
    &&& forall|t: int| 0 < t < s.len() ==> (#[trigger] s[t]).edge != Edge::Root
    &&& forall|t: int| 0 <= t < s.len() ==> (#[trigger] s[t]).pred.non_attr_exprs is Some || s[t].pred.attr_exprs is Some
}

// ---------------------------------------------------------------------------
// Complex selectors as paths

/// The path read so far from the first `i` components: the finished steps, the edge
/// that leads to the step being read and the predicate of that step.
pub open spec fn path_fold(cs: Seq<Component>, i: int) -> (Seq<Step>, Edge, PredicateView)
    decreases i,
{
    if i <= 0 || i > cs.len() {
        (seq![], Edge::Root, empty_predicate())
    } else {
        let prev = path_fold(cs, i - 1);
        match cs[i - 1] {
            Component::Combinator(Combinator::Child) => (
                prev.0.push(Step { edge: prev.1, pred: prev.2 }),
                Edge::Child,
                empty_predicate(),
            ),
            Component::Combinator(Combinator::Descendant) => (
                prev.0.push(Step { edge: prev.1, pred: prev.2 }),
                Edge::Descendant,
                empty_predicate(),
            ),
            Component::Combinator(_) => prev,
            c => (prev.0, prev.1, add_any_component_view(prev.2, c)),
        }
    }
}

/// The path of compound selectors of a complex selector.
pub open spec fn item_path(cs: Seq<Component>) -> Seq<Step> {
    let f = path_fold(cs, cs.len() as int);
    f.0.push(Step { edge: f.1, pred: f.2 })
}

/// The paths of all complex selectors of a selector list.
pub open spec fn selector_has_path(sel: Selector, q: Seq<Step>) -> bool {
    exists|i: int| 0 <= i < sel.spec_items().len() && q == item_path(#[trigger] sel.spec_items()[i]@)
}

fn is_child_or_descendant(c: &Component) -> (r: Option<Edge>)
    ensures
        r == match *c {
            Component::Combinator(Combinator::Child) => Some(Edge::Child),
            Component::Combinator(Combinator::Descendant) => Some(Edge::Descendant),
            _ => None::<Edge>,
        },
{
    match c {
        Component::Combinator(Combinator::Child) => Some(Edge::Child),
        Component::Combinator(Combinator::Descendant) => Some(Edge::Descendant),
        _ => None,
    }
}

/// Reads a supported complex selector as its path of compound selectors.
pub fn item_steps(cs: &Vec<Component>) -> (r: Vec<PathStep>)
    requires
        item_error(cs@) is None,
    ensures
        steps_view(r@) == item_path(cs@),
        path_wf(steps_view(r@)),
        tail_wf(steps_view(r@)),
        steps_view(r@)[0].edge == Edge::Root,
        forall|t: int| 0 <= t < r@.len() ==> (#[trigger] r@[t]).predicate.non_empty(),
{
    let ghost csv = cs@;
    let mut steps: Vec<PathStep> = Vec::new();
    let mut edge = Edge::Root;
    let mut pred = Predicate::empty();
    let mut i: usize = 0;
    proof {
        item_error_upto_none(csv);
    }
    while i < cs.len()
        invariant
            csv == cs@,
            i <= cs@.len(),
            well_placed_combinators(cs@),
            forall|k: int| 0 <= k < cs@.len() ==> component_error(#[trigger] cs@[k]) is None,
            (steps_view(steps@), edge, pred@) == path_fold(cs@, i as int),
            i == 0 ==> steps@.len() == 0 && edge == Edge::Root,
            forall|t: int| 0 < t < steps@.len() ==> (#[trigger] steps_view(steps@)[t]).edge != Edge::Root,
            steps@.len() > 0 ==> steps_view(steps@)[0].edge == Edge::Root,
            steps@.len() == 0 ==> edge == Edge::Root,
            steps@.len() > 0 ==> edge != Edge::Root,
            forall|t: int| 0 <= t < steps@.len() ==> (#[trigger] steps@[t]).predicate.non_empty(),
            i > 0 && !is_combinator(cs@[i - 1]) ==> pred.non_empty(),
            i > 0 && is_combinator(cs@[i - 1]) ==> !pred.non_empty(),
        decreases cs@.len() - i,
    {
        let c = &cs[i];
        match is_child_or_descendant(c) {
            Some(e) => {
                let mut p = Predicate::empty();
                std::mem::swap(&mut p, &mut pred);
                let ghost old_steps = steps@;
                steps.push(PathStep { edge, predicate: p });
                proof {
                    assert(steps_view(steps@) =~= steps_view(old_steps).push(Step { edge: steps@.last().edge, pred: steps@.last().predicate@ }));
                    if i == 0 {
                        assert(is_combinator(cs@[0]));
                    } else {
                        assert(!is_combinator(cs@[i - 1]));
                    }
                }
                edge = e;
            },
            None => {
                proof {
                    assert(component_error(cs@[i as int]) is None);
                    assert(!is_combinator(cs@[i as int]));
                }
                pred.add_any_component(c);
            },
        }
        i = i + 1;
    }
    let ghost old_steps = steps@;
    proof {
        assert(!is_combinator(cs@[cs@.len() - 1]));
    }
    steps.push(PathStep { edge, predicate: pred });
    proof {
        assert(steps_view(steps@) =~= steps_view(old_steps).push(Step { edge: steps@.last().edge, pred: steps@.last().predicate@ }));
        assert forall|t: int| 0 <= t < steps_view(steps@).len() implies (#[trigger] steps_view(steps@)[t]).pred.non_attr_exprs is Some || steps_view(steps@)[t].pred.attr_exprs is Some by {
            assert(steps@[t].predicate.non_empty());
        }
    }
    steps
}

/// A supported complex selector has no unsupported component and its combinators
/// are well placed.
proof fn item_error_upto_none(cs: Seq<Component>)
    requires
        item_error(cs) is None,
    ensures
        well_placed_combinators(cs),
        forall|k: int| 0 <= k < cs.len() ==> component_error(#[trigger] cs[k]) is None,
{
    lemma_match_order_error(cs, cs.len() as int, None);
}

proof fn lemma_match_order_error(cs: Seq<Component>, i: int, pending: Option<SelectorError>)
    requires
        0 <= i <= cs.len(),
        match_order_error(cs, i, pending) is None,
    ensures
        pending is None,
        forall|k: int| 0 <= k < i ==> component_error(#[trigger] cs[k]) is None,
    decreases i,
{
    if i > 0 {
        if is_combinator(cs[i - 1]) {
            lemma_match_order_error(cs, i - 1, None);
        } else {
            let p = match component_error(cs[i - 1]) {
                Some(e) => Some(e),
                None => pending,
            };
            lemma_match_order_error(cs, i - 1, p);
        }
    }
}

// ---------------------------------------------------------------------------
// Adding selectors to the tree

/// Finding a predicate only looks at predicates, so replacing a node by one with the
/// same predicate finds the same index.
proof fn lemma_find_pred_update(nodes: Seq<AstNode>, idx: int, n: AstNode, pv: PredicateView, i: int)
    requires
        0 <= idx < nodes.len(),
        n.predicate@ == nodes[idx].predicate@,
        0 <= i,
    ensures
        find_pred_from(nodes.update(idx, n), pv, i) == find_pred_from(nodes, pv, i),
    decreases nodes.len() - i,
{
    if i < nodes.len() {
        lemma_find_pred_update(nodes, idx, n, pv, i + 1);
    }
}

/// Appending a node finds it for its predicate where no node had it before, and
/// finds what was found before for any other predicate.
proof fn lemma_find_pred_push(nodes: Seq<AstNode>, n: AstNode, pv: PredicateView, i: int)
    requires
        find_pred_from(nodes, n.predicate@, i) is None,
        0 <= i <= nodes.len(),
    ensures
        find_pred_from(nodes.push(n), pv, i) == if pv == n.predicate@ {
            Some(nodes.len() as int)
        } else {
            find_pred_from(nodes, pv, i)
        },
    decreases nodes.len() - i,
{
    let pushed = nodes.push(n);
    if i < nodes.len() {
        assert(pushed[i] == nodes[i]);
        assert(nodes[i].predicate@ != n.predicate@);
        assert(find_pred_from(nodes, n.predicate@, i + 1) is None);
        lemma_find_pred_push(nodes, n, pv, i + 1);
        if nodes[i].predicate@ == pv {
            assert(find_pred_from(pushed, pv, i) == Some(i));
        } else {
            assert(find_pred_from(pushed, pv, i) == find_pred_from(pushed, pv, i + 1));
            assert(find_pred_from(nodes, pv, i) == find_pred_from(nodes, pv, i + 1));
        }
    } else {
        assert(pushed[i] == n);
        assert(find_pred_from(pushed, pv, i + 1) is None);
        assert(find_pred_from(nodes, pv, i) is None);
    }
}

/// Where nothing is found, no node from `i` on has the predicate.
proof fn lemma_find_pred_none(nodes: Seq<AstNode>, pv: PredicateView, i: int)
    requires
        0 <= i,
        find_pred_from(nodes, pv, i) is None,
    ensures
        forall|k: int| i <= k < nodes.len() ==> (#[trigger] nodes[k]).predicate@ != pv,
    decreases nodes.len() - i,
{
    if i < nodes.len() {
        lemma_find_pred_none(nodes, pv, i + 1);
    }
}

/// What is found is where the predicate is.
proof fn lemma_find_pred_found(nodes: Seq<AstNode>, pv: PredicateView, i: int)
    requires
        0 <= i,
    ensures
        match find_pred_from(nodes, pv, i) {
            Some(j) => i <= j < nodes.len() && nodes[j].predicate@ == pv,
            None => true,
        },
    decreases nodes.len() - i,
{
    if i < nodes.len() {
        lemma_find_pred_found(nodes, pv, i + 1);
    }
}

/// Nothing is found in an empty forest.
proof fn lemma_lookup_empty(q: Seq<Step>)
    ensures
        lookup_from(Seq::<AstNode>::empty(), q) is None,
{
}

proof fn lemma_count_update(nodes: Seq<AstNode>, idx: int, n: AstNode)
    requires
        0 <= idx < nodes.len(),
    ensures
        count_nodes(nodes.update(idx, n)) + count_node(nodes[idx]) == count_nodes(nodes) + count_node(n),
    decreases nodes.len(),
{
    let u = nodes.update(idx, n);
    if idx == nodes.len() - 1 {
        assert(u.drop_last() =~= nodes.drop_last());
    } else {
        lemma_count_update(nodes.drop_last(), idx, n);
        assert(u.drop_last() =~= nodes.drop_last().update(idx, n));
    }
}

/// Finds the node with the given predicate among `nodes`, adding a new one for it if
/// there is none; returns its index.
fn host_expressions(nodes: &mut Vec<AstNode>, predicate: Predicate, cumulative_node_count: &mut usize) -> (idx: usize)
    requires
        *old(cumulative_node_count) < usize::MAX,
    ensures
        idx < final(nodes)@.len(),
        final(nodes)@[idx as int].predicate@ == predicate@,
        find_pred(final(nodes)@, predicate@) == Some(idx as int),
        match find_pred(old(nodes)@, predicate@) {
            Some(i) => i == idx && final(nodes)@ == old(nodes)@ && *final(cumulative_node_count)
                == *old(cumulative_node_count),
            None => idx == old(nodes)@.len() && final(nodes)@.len() == old(nodes)@.len() + 1
                && final(nodes)@.subrange(0, idx as int) == old(nodes)@
                && final(nodes)@[idx as int].predicate == predicate
                && final(nodes)@[idx as int].children@.len() == 0
                && final(nodes)@[idx as int].descendants@.len() == 0
                && final(nodes)@[idx as int].payload@.len() == 0
                && *final(cumulative_node_count) == *old(cumulative_node_count) + 1,
        },
{
    let mut i: usize = 0;
    while i < nodes.len()
        invariant
            i <= nodes@.len(),
            find_pred(nodes@, predicate@) == find_pred_from(nodes@, predicate@, i as int),
        decreases nodes@.len() - i,
    {
        if nodes[i].predicate.same_as(&predicate) {
            return i;
        }
        i = i + 1;
    }
    let ghost old_nodes = nodes@;
    let idx = nodes.len();
    let node = AstNode {
        predicate,
        children: Vec::new(),
        descendants: Vec::new(),
        payload: Vec::new(),
    };
    nodes.push(node);
    *cumulative_node_count = *cumulative_node_count + 1;
    proof {
        lemma_find_pred_push(old_nodes, nodes@.last(), predicate@, 0);
        assert(nodes@.subrange(0, old_nodes.len() as int) =~= old_nodes);
    }
    idx
}

fn contains_payload(payload: &Vec<usize>, p: usize) -> (r: bool)
    ensures
        r == payload@.contains(p),
{
    let mut i: usize = 0;
    while i < payload.len()
        invariant
            i <= payload@.len(),
            forall|k: int| 0 <= k < i ==> payload@[k] != p,
        decreases payload@.len() - i,
    {
        if payload[i] == p {
            return true;
        }
        i = i + 1;
    }
    false
}

/// The steps after the first: they lead from one node to the next, never from the root.
pub open spec fn tail_wf(s: Seq<Step>) -> bool {
    &&& s.len() > 0
    &&& forall|t: int| 0 < t < s.len() ==> (#[trigger] s[t]).edge != Edge::Root
}

/// Adds the path `steps` to the forest `nodes`, sharing the nodes that are there
/// already, and adds the payload to the node at its end.
fn add_path(nodes: &mut Vec<AstNode>, steps: Vec<PathStep>, payload: usize, cumulative_node_count: &mut usize)
    requires
        tail_wf(steps_view(steps@)),
        forall|t: int| 0 <= t < steps@.len() ==> (#[trigger] steps@[t]).predicate.non_empty(),
        forest_wf(old(nodes)@),
        *old(cumulative_node_count) + steps@.len() <= usize::MAX,
    ensures
        forest_wf(final(nodes)@),
        *old(cumulative_node_count) <= *final(cumulative_node_count) <= *old(cumulative_node_count) + steps@.len(),
        count_nodes(final(nodes)@) + *old(cumulative_node_count) == count_nodes(old(nodes)@) + *final(cumulative_node_count),
        forall|q: Seq<Step>| #[trigger] payloads_at_from(final(nodes)@, q) == payloads_at_from(old(nodes)@, q).union(
            if same_tail(q, steps_view(steps@)) {
                set![payload]
            } else {
                Set::empty()
            },
        ),
        forall|q: Seq<Step>| (#[trigger] lookup_from(final(nodes)@, q) is Some) == (lookup_from(old(nodes)@, q) is Some
            || tail_prefix(q, steps_view(steps@))),
    decreases steps@.len(),
{
    let ghost s = steps_view(steps@);
    let ghost old_nodes = nodes@;
    let mut steps = steps;
    let step = steps.remove(0);
    let ghost rest = steps_view(steps@);
    proof {
        assert(rest =~= s.drop_first());
    }
    let ghost pv = step.predicate@;
    let idx = host_expressions(nodes, step.predicate, cumulative_node_count);
    let ghost mid = nodes@;
    let ghost mid_count = *cumulative_node_count;
    proof {
        lemma_mid_payloads(old_nodes, mid, pv, idx as int);
        lemma_mid_nodes(old_nodes, mid, pv, idx as int);
        lemma_count_push(old_nodes, mid, idx as int);
        if find_pred(old_nodes, pv) is None {
            lemma_find_pred_none(old_nodes, pv, 0);
            assert forall|i: int, j: int| 0 <= i < j < mid.len() implies (#[trigger] mid[i]).predicate@
                != (#[trigger] mid[j]).predicate@ by {
                assert(mid[i] == old_nodes[i]);
                if j < old_nodes.len() {
                    assert(mid[j] == old_nodes[j]);
                }
            }
            assert(node_wf(mid[idx as int])) by {
                assert(mid[idx as int].children@ =~= Seq::<AstNode>::empty());
                assert(mid[idx as int].descendants@ =~= Seq::<AstNode>::empty());
            }
            assert forall|i: int| 0 <= i < mid.len() implies node_wf(#[trigger] mid[i]) by {
                if i < old_nodes.len() {
                    assert(mid[i] == old_nodes[i]);
                }
            }
        }
    }
    let mut node = nodes.remove(idx);
    let ghost old_node = node;
    if steps.len() == 0 {
        if !contains_payload(&node.payload, payload) {
            node.payload.push(payload);
            proof {
                old_node.payload@.lemma_push_to_set_commute(payload);
            }
        } else {
            proof {
                assert(node.payload@.to_set() =~= old_node.payload@.to_set().insert(payload));
            }
        }
    } else {
        let edge = steps[0].edge;
        if edge == Edge::Child {
            add_path(&mut node.children, steps, payload, cumulative_node_count);
        } else {
            add_path(&mut node.descendants, steps, payload, cumulative_node_count);
        }
    }
    nodes.insert(idx, node);
    proof {
        assert(nodes@ =~= mid.update(idx as int, node));
        lemma_count_update(mid, idx as int, node);
        assert forall|i: int| 0 <= i < nodes@.len() implies node_wf(#[trigger] nodes@[i]) by {
            if i != idx {
                assert(nodes@[i] == mid[i]);
            }
        }
        assert forall|i: int, j: int| 0 <= i < j < nodes@.len() implies (#[trigger] nodes@[i]).predicate@
            != (#[trigger] nodes@[j]).predicate@ by {
            assert(nodes@[i].predicate@ == mid[i].predicate@);
            assert(nodes@[j].predicate@ == mid[j].predicate@);
        }
        assert forall|q: Seq<Step>| #[trigger] payloads_at_from(nodes@, q) == payloads_at_from(old_nodes, q).union(
            if same_tail(q, s) { set![payload] } else { Set::empty() }) by {
            lemma_step_payloads(mid, nodes@, idx as int, old_node, node, s, payload, q);
        }
        assert forall|q: Seq<Step>| (#[trigger] lookup_from(nodes@, q) is Some) == (lookup_from(old_nodes, q) is Some
            || tail_prefix(q, s)) by {
            lemma_step_nodes(mid, nodes@, idx as int, old_node, node, s, q);
            if q.len() == 1 && q[0].pred == pv {
                assert(s.take(1) =~= seq![s[0]]);
                assert(tail_prefix(q, s));
            }
        }
    }
}

/// Hosting a predicate changes no payload.
proof fn lemma_mid_payloads(old_nodes: Seq<AstNode>, mid: Seq<AstNode>, pv: PredicateView, idx: int)
    requires
        0 <= idx < mid.len(),
        mid[idx].predicate@ == pv,
        find_pred(mid, pv) == Some(idx),
        match find_pred(old_nodes, pv) {
            Some(i) => i == idx && mid == old_nodes,
            None => idx == old_nodes.len() && mid.len() == old_nodes.len() + 1
                && mid.subrange(0, idx) == old_nodes
                && mid[idx].children@.len() == 0
                && mid[idx].descendants@.len() == 0
                && mid[idx].payload@.len() == 0,
        },
    ensures
        forall|q: Seq<Step>| #[trigger] payloads_at_from(mid, q) == payloads_at_from(old_nodes, q),
{
    if find_pred(old_nodes, pv) is None {
        assert(mid =~= old_nodes.push(mid[idx]));
        assert forall|q: Seq<Step>| #[trigger] payloads_at_from(mid, q) == payloads_at_from(old_nodes, q) by {
            if q.len() > 0 {
                lemma_find_pred_push(old_nodes, mid[idx], q[0].pred, 0);
                lemma_find_pred_found(old_nodes, q[0].pred, 0);
                match find_pred(old_nodes, q[0].pred) {
                    Some(j) => {
                        assert(mid[j] == old_nodes[j]);
                    },
                    None => {
                        if q[0].pred == pv {
                            if q.len() > 1 && q[1].edge != Edge::Root {
                                assert(next_nodes(mid[idx], q[1].edge) =~= Seq::<AstNode>::empty());
                                lemma_lookup_empty(q.drop_first());
                            }
                            assert(mid[idx].payload@.to_set() =~= Set::<usize>::empty());
                        }
                    },
                }
            }
        }
    }
}

/// Hosting a predicate adds at most a node with nothing below it, found by the one-step
/// path of its predicate.
proof fn lemma_mid_nodes(old_nodes: Seq<AstNode>, mid: Seq<AstNode>, pv: PredicateView, idx: int)
    requires
        0 <= idx < mid.len(),
        mid[idx].predicate@ == pv,
        find_pred(mid, pv) == Some(idx),
        match find_pred(old_nodes, pv) {
            Some(i) => i == idx && mid == old_nodes,
            None => idx == old_nodes.len() && mid.len() == old_nodes.len() + 1
                && mid.subrange(0, idx) == old_nodes
                && mid[idx].children@.len() == 0
                && mid[idx].descendants@.len() == 0
                && mid[idx].payload@.len() == 0,
        },
    ensures
        forall|q: Seq<Step>| (#[trigger] lookup_from(mid, q) is Some) == (lookup_from(old_nodes, q) is Some || (q.len()
            == 1 && q[0].pred == pv)),
{
    assert forall|q: Seq<Step>| (#[trigger] lookup_from(mid, q) is Some) == (lookup_from(old_nodes, q) is Some || (
    q.len() == 1 && q[0].pred == pv)) by {
        if q.len() > 0 {
            lemma_find_pred_found(old_nodes, q[0].pred, 0);
            lemma_find_pred_found(mid, q[0].pred, 0);
            if find_pred(old_nodes, pv) is None {
                assert(mid =~= old_nodes.push(mid[idx]));
                lemma_find_pred_push(old_nodes, mid[idx], q[0].pred, 0);
                match find_pred(old_nodes, q[0].pred) {
                    Some(j) => {
                        assert(mid[j] == old_nodes[j]);
                    },
                    None => {
                        if q[0].pred == pv && q.len() > 1 && q[1].edge != Edge::Root {
                            assert(next_nodes(mid[idx], q[1].edge) =~= Seq::<AstNode>::empty());
                            lemma_lookup_empty(q.drop_first());
                        }
                    },
                }
            } else {
                if q.len() == 1 && q[0].pred == pv {
                    lemma_find_pred_found(old_nodes, pv, 0);
                }
            }
        }
    }
}

/// One level of adding a path, for the nodes: the node at `idx` changed into `node`,
/// which got the rest of the path below it, if any.
proof fn lemma_step_nodes(
    mid: Seq<AstNode>,
    new_nodes: Seq<AstNode>,
    idx: int,
    old_node: AstNode,
    node: AstNode,
    s: Seq<Step>,
    q: Seq<Step>,
)
    requires
        0 <= idx < mid.len(),
        mid[idx] == old_node,
        new_nodes == mid.update(idx, node),
        node.predicate == old_node.predicate,
        tail_wf(s),
        find_pred(mid, s[0].pred) == Some(idx),
        old_node.predicate@ == s[0].pred,
        s.len() == 1 ==> node.children == old_node.children && node.descendants == old_node.descendants,
        s.len() > 1 ==> (if s[1].edge == Edge::Child {
            node.descendants == old_node.descendants && forall|r: Seq<Step>| (#[trigger] lookup_from(node.children@, r)
                is Some) == (lookup_from(old_node.children@, r) is Some || tail_prefix(r, s.drop_first()))
        } else {
            node.children == old_node.children && forall|r: Seq<Step>| (#[trigger] lookup_from(node.descendants@, r)
                is Some) == (lookup_from(old_node.descendants@, r) is Some || tail_prefix(r, s.drop_first()))
        }),
    ensures
        (lookup_from(new_nodes, q) is Some) == (lookup_from(mid, q) is Some || tail_prefix(q, s)),
{
    if q.len() == 0 {
        return;
    }
    lemma_find_pred_update(mid, idx, node, q[0].pred, 0);
    lemma_find_pred_found(mid, q[0].pred, 0);
    match find_pred(mid, q[0].pred) {
        None => {
            assert(q[0].pred != s[0].pred);
            assert(!tail_prefix(q, s)) by {
                if tail_prefix(q, s) {
                    assert(q[0].pred == s.take(q.len() as int)[0].pred);
                }
            }
        },
        Some(j) => {
            if j != idx {
                assert(q[0].pred != s[0].pred);
                assert(new_nodes[j] == mid[j]);
                assert(!tail_prefix(q, s)) by {
                    if tail_prefix(q, s) {
                        assert(q[0].pred == s.take(q.len() as int)[0].pred);
                    }
                }
            } else {
                assert(q[0].pred == s[0].pred);
                if q.len() == 1 {
                    assert(s.take(1)[0] == s[0]);
                    assert(tail_prefix(q, s));
                } else if q[1].edge == Edge::Root {
                    assert(!tail_prefix(q, s)) by {
                        if tail_prefix(q, s) {
                            assert(q[1].edge == s.take(q.len() as int)[1].edge);
                            assert(s[1].edge != Edge::Root);
                        }
                    }
                } else if s.len() == 1 {
                    assert(next_nodes(node, q[1].edge) == next_nodes(old_node, q[1].edge));
                    assert(!tail_prefix(q, s));
                } else {
                    let qt = q.drop_first();
                    let st = s.drop_first();
                    if q[1].edge == s[1].edge {
                        assert(tail_prefix(q, s) == tail_prefix(qt, st)) by {
                            if tail_prefix(qt, st) {
                                assert forall|t: int| 0 <= t < q.len() implies (#[trigger] q[t]).pred == s.take(
                                    q.len() as int,
                                )[t].pred by {
                                    if t > 0 {
                                        assert(qt[t - 1] == q[t]);
                                        assert(st.take(qt.len() as int)[t - 1] == s[t]);
                                    }
                                }
                                assert forall|t: int| 0 < t < q.len() implies (#[trigger] q[t]).edge == s.take(
                                    q.len() as int,
                                )[t].edge by {
                                    assert(qt[t - 1] == q[t]);
                                    assert(st.take(qt.len() as int)[t - 1] == s[t]);
                                }
                            }
                            if tail_prefix(q, s) {
                                assert forall|t: int| 0 <= t < qt.len() implies (#[trigger] qt[t]).pred == st.take(
                                    qt.len() as int,
                                )[t].pred by {
                                    assert(qt[t] == q[t + 1]);
                                    assert(s.take(q.len() as int)[t + 1] == st[t]);
                                }
                                assert forall|t: int| 0 < t < qt.len() implies (#[trigger] qt[t]).edge == st.take(
                                    qt.len() as int,
                                )[t].edge by {
                                    assert(qt[t] == q[t + 1]);
                                    assert(s.take(q.len() as int)[t + 1] == st[t]);
                                }
                            }
                        }
                        assert((lookup_from(next_nodes(node, q[1].edge), qt) is Some) == (lookup_from(
                            next_nodes(old_node, q[1].edge),
                            qt,
                        ) is Some || tail_prefix(qt, st)));
                    } else {
                        assert(next_nodes(node, q[1].edge) == next_nodes(old_node, q[1].edge));
                        assert(!tail_prefix(q, s)) by {
                            if tail_prefix(q, s) {
                                assert(q[1].edge == s.take(q.len() as int)[1].edge);
                            }
                        }
                    }
                }
            }
        },
    }
}

proof fn lemma_count_push(old_nodes: Seq<AstNode>, mid: Seq<AstNode>, idx: int)
    requires
        mid == old_nodes || (idx == old_nodes.len() && mid.len() == old_nodes.len() + 1
            && mid.subrange(0, idx) == old_nodes && mid[idx].children@.len() == 0
            && mid[idx].descendants@.len() == 0),
    ensures
        mid == old_nodes || count_nodes(mid) == count_nodes(old_nodes) + 1,
{
    if mid != old_nodes {
        assert(mid.drop_last() =~= old_nodes);
        assert(mid.last() == mid[idx]);
        assert(mid[idx].children@ =~= Seq::<AstNode>::empty());
        assert(mid[idx].descendants@ =~= Seq::<AstNode>::empty());
        assert(count_nodes(Seq::<AstNode>::empty()) == 0);
        assert(count_nodes(mid[idx].children@) == 0);
        assert(count_nodes(mid[idx].descendants@) == 0);
        assert(count_node(mid[idx]) == 1);
        assert(count_nodes(mid) == count_nodes(mid.drop_last()) + count_node(mid.last()));
    }
}

/// One level of adding a path: the node at `idx` changed into `node`, which got the
/// payload itself or got the rest of the path below it.
proof fn lemma_step_payloads(
    mid: Seq<AstNode>,
    new_nodes: Seq<AstNode>,
    idx: int,
    old_node: AstNode,
    node: AstNode,
    s: Seq<Step>,
    payload: usize,
    q: Seq<Step>,
)
    requires
        0 <= idx < mid.len(),
        mid[idx] == old_node,
        new_nodes == mid.update(idx, node),
        node.predicate == old_node.predicate,
        tail_wf(s),
        find_pred(mid, s[0].pred) == Some(idx),
        old_node.predicate@ == s[0].pred,
        s.len() == 1 ==> node.payload@.to_set() == old_node.payload@.to_set().insert(payload)
            && node.children == old_node.children && node.descendants == old_node.descendants,
        s.len() > 1 ==> node.payload == old_node.payload && (if s[1].edge == Edge::Child {
            node.descendants == old_node.descendants && forall|r: Seq<Step>| #[trigger] payloads_at_from(node.children@, r)
                == payloads_at_from(old_node.children@, r).union(
                if same_tail(r, s.drop_first()) { set![payload] } else { Set::empty() })
        } else {
            node.children == old_node.children && forall|r: Seq<Step>| #[trigger] payloads_at_from(node.descendants@, r)
                == payloads_at_from(old_node.descendants@, r).union(
                if same_tail(r, s.drop_first()) { set![payload] } else { Set::empty() })
        }),
    ensures
        payloads_at_from(new_nodes, q) == payloads_at_from(mid, q).union(
            if same_tail(q, s) { set![payload] } else { Set::empty() }),
{
    if q.len() == 0 {
        assert(!same_tail(q, s));
        assert(payloads_at_from(mid, q).union(Set::empty()) =~= payloads_at_from(mid, q));
        return;
    }
    lemma_find_pred_update(mid, idx, node, q[0].pred, 0);
    lemma_find_pred_found(mid, q[0].pred, 0);
    match find_pred(mid, q[0].pred) {
        None => {
            assert(q[0].pred != s[0].pred);
            assert(!same_tail(q, s));
            assert(payloads_at_from(mid, q).union(Set::empty()) =~= payloads_at_from(mid, q));
        },
        Some(j) => {
            if j != idx {
                assert(q[0].pred != s[0].pred);
                assert(!same_tail(q, s));
                assert(new_nodes[j] == mid[j]);
                assert(payloads_at_from(mid, q).union(Set::empty()) =~= payloads_at_from(mid, q));
            } else {
                assert(q[0].pred == s[0].pred);
                if q.len() == 1 {
                    if s.len() == 1 {
                        assert(same_tail(q, s));
                        assert(node.payload@.to_set() =~= old_node.payload@.to_set().union(set![payload]));
                    } else {
                        assert(!same_tail(q, s));
                        assert(payloads_at_from(mid, q).union(Set::empty()) =~= payloads_at_from(mid, q));
                    }
                } else if q[1].edge == Edge::Root {
                    assert(s.len() > 1 ==> s[1].edge != Edge::Root);
                    assert(!same_tail(q, s));
                    assert(payloads_at_from(mid, q).union(Set::empty()) =~= payloads_at_from(mid, q));
                } else if s.len() == 1 {
                    assert(!same_tail(q, s));
                    assert(next_nodes(node, q[1].edge) == next_nodes(old_node, q[1].edge));
                    assert(payloads_at_from(mid, q).union(Set::empty()) =~= payloads_at_from(mid, q));
                } else {
                    let qt = q.drop_first();
                    if q[1].edge == s[1].edge {
                        assert(same_tail(q, s) == same_tail(qt, s.drop_first())) by {
                            if same_tail(qt, s.drop_first()) {
                                assert forall|t: int| 0 <= t < q.len() implies (#[trigger] q[t]).pred == s[t].pred by {
                                    if t > 0 {
                                        assert(qt[t - 1] == q[t]);
                                    }
                                }
                                assert forall|t: int| 0 < t < q.len() implies (#[trigger] q[t]).edge == s[t].edge by {
                                    assert(qt[t - 1] == q[t]);
                                }
                            }
                            if same_tail(q, s) {
                                assert forall|t: int| 0 <= t < qt.len() implies (#[trigger] qt[t]).pred == s.drop_first()[t].pred by {
                                    assert(qt[t] == q[t + 1]);
                                }
                                assert forall|t: int| 0 < t < qt.len() implies (#[trigger] qt[t]).edge == s.drop_first()[t].edge by {
                                    assert(qt[t] == q[t + 1]);
                                }
                            }
                        }
                        assert(payloads_at_from(next_nodes(node, q[1].edge), qt) == payloads_at_from(
                            next_nodes(old_node, q[1].edge),
                            qt,
                        ).union(if same_tail(qt, s.drop_first()) { set![payload] } else { Set::empty() }));
                    } else {
                        assert(!same_tail(q, s));
                        assert(next_nodes(node, q[1].edge) == next_nodes(old_node, q[1].edge));
                        assert(payloads_at_from(mid, q).union(Set::empty()) =~= payloads_at_from(mid, q));
                    }
                }
            }
        },
    }
}

impl Ast {
    /// The node count is the number of nodes of the tree, roots, children and
    /// descendants at every depth (`count_nodes`); every node holds at least one
    /// expression; and no two siblings, at any level, have the same predicate
    /// (`forest_wf`).
    pub open spec fn inv(&self) -> bool {
        &&& self.cumulative_node_count == count_nodes(self.root@)
        &&& forest_wf(self.root@)
    }

    /// The payloads of the selectors whose path is `path`.
    pub open spec fn payloads_at(&self, path: Seq<Step>) -> Set<usize> {
        payloads_at(self.root@, path)
    }

    /// An empty tree.
    pub fn new() -> (r: Ast)
        ensures
            r.inv(),
            r.cumulative_node_count == 0,
            forall|q: Seq<Step>| #[trigger] r.payloads_at(q) == Set::<usize>::empty(),
    {
        let r = Ast { root: Vec::new(), cumulative_node_count: 0 };
        proof {
            assert forall|q: Seq<Step>| #[trigger] r.payloads_at(q) == Set::<usize>::empty() by {
                lemma_lookup_empty(q);
            }
        }
        r
    }

    /// Adds the complex selectors of the list, each as the path of its compound
    /// selectors, sharing the nodes of paths that start alike; the payload is added to
    /// the node at the end of each.
    pub fn add_selector(&mut self, selector: &Selector, payload: usize)
        requires
            old(self).inv(),
            selector.wf(),
            old(self).cumulative_node_count + selector_component_count(selector.spec_items()) <= usize::MAX,
        ensures
            final(self).inv(),
            forall|q: Seq<Step>| #[trigger] final(self).payloads_at(q) == old(self).payloads_at(q).union(
                if selector_has_path(*selector, q) { set![payload] } else { Set::empty() }),
            forall|q: Seq<Step>| #[trigger] has_node_at(final(self).root@, q) == (has_node_at(old(self).root@, q)
                || selector_has_prefix(*selector, q)),
    {
        let items = &selector.items;
        let mut i: usize = 0;
        while i < items.len()
            invariant
                i <= items@.len(),
                items@ == selector.spec_items(),
                selector.wf(),
                self.inv(),
                self.cumulative_node_count + selector_component_count_from(items@, i as int) <= usize::MAX,
                forall|q: Seq<Step>| #[trigger] self.payloads_at(q) == old(self).payloads_at(q).union(
                    if exists|j: int| 0 <= j < i && q == item_path(#[trigger] items@[j]@) { set![payload] } else { Set::empty() }),
                forall|q: Seq<Step>| #[trigger] has_node_at(self.root@, q) == (has_node_at(old(self).root@, q) || exists|
                    j: int,
                | 0 <= j < i && 1 <= q.len() <= item_path(#[trigger] items@[j]@).len() && q == item_path(items@[j]@).take(
                    q.len() as int,
                )),
            decreases items@.len() - i,
        {
            proof {
                lemma_list_error_item(items@, i as int, 0);
                lemma_component_count_from(items@, i as int);
            }
            let steps = item_steps(&items[i]);
            let ghost s = steps_view(steps@);
            let ghost head = *self;
            proof {
                item_error_upto_none(items@[i as int]@);
                lemma_path_len(items@[i as int]@);
            }
            add_path(&mut self.root, steps, payload, &mut self.cumulative_node_count);
            proof {
                lemma_item_path_root(items@[i as int]@);
                assert forall|q: Seq<Step>| #[trigger] has_node_at(self.root@, q) == (has_node_at(old(self).root@, q)
                    || exists|j: int|
                    0 <= j < i + 1 && 1 <= q.len() <= item_path(#[trigger] items@[j]@).len() && q == item_path(
                        items@[j]@,
                    ).take(q.len() as int)) by {
                    let was = exists|j: int|
                        0 <= j < i && 1 <= q.len() <= item_path(#[trigger] items@[j]@).len() && q == item_path(
                            items@[j]@,
                        ).take(q.len() as int);
                    let here = 1 <= q.len() <= s.len() && q == s.take(q.len() as int);
                    assert(s == item_path(items@[i as int]@));
                    assert(has_node_at(head.root@, q) == (has_node_at(old(self).root@, q) || was));
                    assert((lookup_from(self.root@, q) is Some) == (lookup_from(head.root@, q) is Some || tail_prefix(
                        q,
                        s,
                    )));
                    if q.len() > 0 && q[0].edge == Edge::Root {
                        assert(tail_prefix(q, s) == here) by {
                            if tail_prefix(q, s) {
                                assert forall|t: int| 0 <= t < q.len() implies q[t] == s.take(q.len() as int)[t] by {
                                    if t == 0 {
                                        assert(s.take(q.len() as int)[0] == s[0]);
                                    }
                                }
                                assert(q =~= s.take(q.len() as int));
                            }
                        }
                    }
                    if here && !(q.len() > 0 && q[0].edge == Edge::Root) {
                        assert(q[0] == s[0]);
                    }
                    if was && !(q.len() > 0 && q[0].edge == Edge::Root) {
                        let j = choose|j: int|
                            0 <= j < i && 1 <= q.len() <= item_path(#[trigger] items@[j]@).len() && q == item_path(
                                items@[j]@,
                            ).take(q.len() as int);
                        lemma_item_path_root(items@[j]@);
                        assert(q[0] == item_path(items@[j]@)[0]);
                    }
                    let now = exists|j: int|
                        0 <= j < i + 1 && 1 <= q.len() <= item_path(#[trigger] items@[j]@).len() && q == item_path(
                            items@[j]@,
                        ).take(q.len() as int);
                    if here {
                        assert(now);
                    }
                    if now && !was {
                        assert(here);
                    }
                    if was {
                        assert(now);
                    }
                }
            }
            proof {
                assert forall|q: Seq<Step>| #[trigger] self.payloads_at(q) == old(self).payloads_at(q).union(
                    if exists|j: int| 0 <= j < i + 1 && q == item_path(#[trigger] items@[j]@) { set![payload] } else { Set::empty() }) by {
                    let was = exists|j: int| 0 <= j < i && q == item_path(#[trigger] items@[j]@);
                    let now = exists|j: int| 0 <= j < i + 1 && q == item_path(#[trigger] items@[j]@);
                    let base = old(self).payloads_at(q);
                    assert(head.payloads_at(q) == base.union(if was { set![payload] } else { Set::empty() }));
                    let hit = q.len() > 0 && q[0].edge == Edge::Root && same_tail(q, s);
                    if q.len() > 0 && q[0].edge == Edge::Root {
                        assert(payloads_at_from(self.root@, q) == payloads_at_from(head.root@, q).union(
                            if same_tail(q, s) { set![payload] } else { Set::empty() }));
                        assert(self.payloads_at(q) == head.payloads_at(q).union(
                            if hit { set![payload] } else { Set::empty() }));
                    } else {
                        assert(self.payloads_at(q) == Set::<usize>::empty());
                        assert(head.payloads_at(q) == Set::<usize>::empty());
                        assert(self.payloads_at(q) =~= head.payloads_at(q).union(
                            if hit { set![payload] } else { Set::empty() }));
                    }
                    if hit {
                        assert(q =~= s);
                        assert(q == item_path(items@[i as int]@));
                        assert(now);
                    }
                    if now && !was {
                        assert(q == item_path(items@[i as int]@));
                        lemma_list_error_item(items@, i as int, 0);
                        lemma_item_path_root(items@[i as int]@);
                        assert(same_tail(q, s));
                        assert(hit);
                    }
                    if was {
                        assert(now);
                    }
                    assert(base.union(if was { set![payload] } else { Set::empty() }).union(
                        if hit { set![payload] } else { Set::empty() })
                        =~= base.union(if now { set![payload] } else { Set::empty() }));
                }
            }
            i = i + 1;
        }
        proof {
            assert forall|q: Seq<Step>| #[trigger] self.payloads_at(q) == old(self).payloads_at(q).union(
                if selector_has_path(*selector, q) { set![payload] } else { Set::empty() }) by {
                let a = exists|j: int| 0 <= j < i && q == item_path(#[trigger] items@[j]@);
                assert(a == selector_has_path(*selector, q));
            }
            assert forall|q: Seq<Step>| #[trigger] has_node_at(self.root@, q) == (has_node_at(old(self).root@, q)
                || selector_has_prefix(*selector, q)) by {
                let a = exists|j: int|
                    0 <= j < i && 1 <= q.len() <= item_path(#[trigger] items@[j]@).len() && q == item_path(
                        items@[j]@,
                    ).take(q.len() as int);
                assert(a == selector_has_prefix(*selector, q));
            }
        }
    }
}

/// The number of components of the complex selectors from the `i`-th on.
pub open spec fn selector_component_count_from(items: Seq<Vec<Component>>, i: int) -> nat
    decreases items.len() - i,
{
    if i < 0 || i >= items.len() {
        0
    } else {
        items[i]@.len() + selector_component_count_from(items, i + 1)
    }
}

/// The number of components of all complex selectors of a list.
pub open spec fn selector_component_count(items: Seq<Vec<Component>>) -> nat {
    selector_component_count_from(items, 0)
}

proof fn lemma_component_count_from(items: Seq<Vec<Component>>, i: int)
    requires
        0 <= i < items.len(),
    ensures
        selector_component_count_from(items, i) == items[i]@.len() + selector_component_count_from(items, i + 1),
{
}

/// A path has no more steps than its complex selector has components.
proof fn lemma_path_len(cs: Seq<Component>)
    requires
        cs.len() > 0,
        !is_combinator(cs[0]),
    ensures
        item_path(cs).len() <= cs.len(),
{
    lemma_path_fold_len(cs, cs.len() as int);
}

proof fn lemma_path_fold_len(cs: Seq<Component>, i: int)
    requires
        1 <= i <= cs.len(),
        !is_combinator(cs[0]),
    ensures
        path_fold(cs, i).0.len() <= i - 1,
    decreases i,
{
    assert(path_fold(cs, 0).0.len() == 0);
    if i > 1 {
        lemma_path_fold_len(cs, i - 1);
    }
    let prev = path_fold(cs, i - 1);
    assert(path_fold(cs, i).0.len() <= prev.0.len() + 1);
}

/// The path of a complex selector starts at the root.
proof fn lemma_item_path_root(cs: Seq<Component>)
    ensures
        item_path(cs).len() > 0,
        item_path(cs)[0].edge == Edge::Root,
{
    lemma_path_fold_root(cs, cs.len() as int);
}

proof fn lemma_path_fold_root(cs: Seq<Component>, i: int)
    requires
        0 <= i <= cs.len(),
    ensures
        path_fold(cs, i).0.len() == 0 ==> path_fold(cs, i).1 == Edge::Root,
        path_fold(cs, i).0.len() > 0 ==> path_fold(cs, i).0[0].edge == Edge::Root,
    decreases i,
{
    if i > 0 {
        lemma_path_fold_root(cs, i - 1);
    }
}

/// A supported selector list has supported complex selectors.
proof fn lemma_list_error_item(items: Seq<Vec<Component>>, i: int, from: int)
    requires
        0 <= from <= i < items.len(),
        list_error_from(items, from) is None,
    ensures
        item_error(items[i]@) is None,
    decreases i - from,
{
    if from < i {
        lemma_list_error_item(items, i, from + 1);
    }
}

} // verus!

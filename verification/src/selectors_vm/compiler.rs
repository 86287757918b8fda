use vstd::prelude::*;
use crate::base::{
    ascii_lower_str, encode_without_replacements, spec_encode_without_replacements,
    to_ascii_lowercase,
};
use crate::html::{LocalName, local_name_of_str};
use super::ast::{
    Ast, AstNode, AttributeExpr, AttributeExprOperand, AttributeExprView, NonAttributeExpr,
    NonAttributeExprView, OperandView, Predicate, PredicateView, attr_list_view, count_node,
    count_nodes, forest_wf, node_wf, non_attr_list_view,
};
use super::attribute_matcher::{AttributeMatcher, CompiledAttributeExprOperand};
use super::parser::AttrSelectorOperator;
use super::program::{
    AddressRange, AttrExprMatchingInstr, AttrMatcherKind, CompiledAttributeExpr,
    CompiledNonAttributeExpr, ExecutionBranch, GenericInstr, Instr, InstrStub, NonAttrMatcher,
    NonAttrExprMatchingInstr, Program, eval_attr, opt_range_wf, range_wf,
};

verus! {

// ---------------------------------------------------------------------------
// What an expression compiles to

/// A literal of a selector in the document's encoding.
pub open spec fn literal(encoding: Seq<char>, lit: Seq<char>) -> Option<Seq<u8>> {
    spec_encode_without_replacements(encoding, lit)
}

/// A literal of a selector, ASCII-lowercased, in the document's encoding.
pub open spec fn literal_lowercase(encoding: Seq<char>, lit: Seq<char>) -> Option<Seq<u8>> {
    spec_encode_without_replacements(encoding, ascii_lower_str(lit))
}

/// `c` is the compiled form of the expression on the local name `e`, negated where
/// `negation` holds: a name that the encoding can't represent never matches.
pub open spec fn non_attr_compiled(
    encoding: Seq<char>,
    e: NonAttributeExprView,
    negation: bool,
    c: CompiledNonAttributeExpr,
) -> bool {
    &&& c.negation == negation
    &&& match e {
        NonAttributeExprView::ExplicitAny => c.matcher is MatchAll,
        NonAttributeExprView::Unmatchable => c.matcher is Unmatchable,
        NonAttributeExprView::LocalName(name) => match local_name_of_str(encoding, name) {
            Some(v) => c.matcher matches NonAttrMatcher::LocalName(n) && n@ == v,
            None => c.matcher is Unmatchable,
        },
    }
}

/// `k` is the compiled form of an attribute operator expression: the lowercased name and
/// the value in the document's encoding; unmatchable where either can't be encoded.
pub open spec fn operand_compiled(
    encoding: Seq<char>,
    op: AttrSelectorOperator,
    o: OperandView,
    k: AttrMatcherKind,
) -> bool {
    match (literal_lowercase(encoding, o.name), literal(encoding, o.value)) {
        (Some(name), Some(value)) => k matches AttrMatcherKind::Operator(op2, operand) && op2 == op
            && operand.name@ == name && operand.value@ == value && operand.case_sensitivity
            == o.case_sensitivity,
        _ => k is Unmatchable,
    }
}

/// A negated attribute test is the opposite of the plain one: on any element, the
/// compiled negated expression passes exactly when the compiled plain one fails. Where
/// a literal of the expression can't be encoded, the plain form never passes and the
/// negated one always does.
pub proof fn lemma_negated_attr_expr_is_opposite(
    encoding: Seq<char>,
    e: AttributeExprView,
    plain: CompiledAttributeExpr,
    negated: CompiledAttributeExpr,
    m: AttributeMatcher,
)
    requires
        attr_compiled(encoding, e, false, plain),
        attr_compiled(encoding, e, true, negated),
    ensures
        eval_attr(negated, m) == !eval_attr(plain, m),
        plain.kind is Unmatchable ==> !eval_attr(plain, m) && eval_attr(negated, m),
{
}

/// `c` is the compiled form of the attribute expression `e`, negated where `negation`
/// holds.
pub open spec fn attr_compiled(
    encoding: Seq<char>,
    e: AttributeExprView,
    negation: bool,
    c: CompiledAttributeExpr,
) -> bool {
    &&& c.negation == negation
    &&& match e {
        AttributeExprView::Id(id) => match literal(encoding, id) {
            Some(b) => c.kind matches AttrMatcherKind::Id(v) && v@ == b,
            None => c.kind is Unmatchable,
        },
        AttributeExprView::Class(class) => match literal(encoding, class) {
            Some(b) => c.kind matches AttrMatcherKind::Class(v) && v@ == b,
            None => c.kind is Unmatchable,
        },
        AttributeExprView::AttributeExists(name) => match literal_lowercase(encoding, name) {
            Some(b) => c.kind matches AttrMatcherKind::Exists(v) && v@ == b,
            None => c.kind is Unmatchable,
        },
        AttributeExprView::AttributeEqual(o) => operand_compiled(encoding, AttrSelectorOperator::Equal, o, c.kind),
        AttributeExprView::AttributeIncludes(o) => operand_compiled(encoding, AttrSelectorOperator::Includes, o, c.kind),
        AttributeExprView::AttributeDashMatch(o) => operand_compiled(encoding, AttrSelectorOperator::DashMatch, o, c.kind),
        AttributeExprView::AttributePrefix(o) => operand_compiled(encoding, AttrSelectorOperator::Prefix, o, c.kind),
        AttributeExprView::AttributeSubstring(o) => operand_compiled(encoding, AttrSelectorOperator::Substring, o, c.kind),
        AttributeExprView::AttributeSuffix(o) => operand_compiled(encoding, AttrSelectorOperator::Suffix, o, c.kind),
    }
}

/// Each compiled expression on the local name is the compiled form of its source.
pub open spec fn non_attr_list_compiled(
    encoding: Seq<char>,
    src: Seq<(NonAttributeExprView, bool)>,
    cs: Seq<CompiledNonAttributeExpr>,
) -> bool {
    &&& src.len() == cs.len()
    &&& forall|k: int| 0 <= k < src.len() ==> non_attr_compiled(encoding, src[k].0, src[k].1, #[trigger] cs[k])
}

/// Each compiled attribute expression is the compiled form of its source.
pub open spec fn attr_list_compiled(
    encoding: Seq<char>,
    src: Seq<(AttributeExprView, bool)>,
    cs: Seq<CompiledAttributeExpr>,
) -> bool {
    &&& src.len() == cs.len()
    &&& forall|k: int| 0 <= k < src.len() ==> attr_compiled(encoding, src[k].0, src[k].1, #[trigger] cs[k])
}

/// `instr` is the compiled form of the predicate: an instruction on the local name, on
/// the attributes, or on both, as the predicate has expressions of each kind.
pub open spec fn instr_compiled(encoding: Seq<char>, instr: Instr, p: PredicateView) -> bool {
    match (p.non_attr_exprs, p.attr_exprs) {
        (Some(na), None) => instr matches Instr::NonAttrExprMatching(i)
            && non_attr_list_compiled(encoding, na, i.exprs@),
        (None, Some(at)) => instr matches Instr::AttrExprMatching(i)
            && attr_list_compiled(encoding, at, i.exprs@),
        (Some(na), Some(at)) => instr matches Instr::Generic(i)
            && non_attr_list_compiled(encoding, na, i.non_attr_exprs@)
            && attr_list_compiled(encoding, at, i.attr_exprs@),
        (None, None) => false,
    }
}

// ---------------------------------------------------------------------------
// The program that a tree compiles to

/// The instructions at the range `r` are the compiled forms of the sibling nodes
/// `nodes`, in order; the instructions of their children and descendants lie in
/// `lo..hi`.
pub open spec fn tree_at(
    encoding: Seq<char>,
    instrs: Seq<Instr>,
    r: AddressRange,
    nodes: Seq<AstNode>,
    lo: int,
    hi: int,
) -> bool
    decreases nodes, 0int,
{
    &&& r.start <= r.end
    &&& r.end - r.start == nodes.len()
    &&& forall|i: int| 0 <= i < nodes.len() ==> node_at(encoding, instrs, r.start + i, #[trigger] nodes[i], lo, hi)
}

/// The instruction at `a` is the compiled form of the node `n`: its predicate, its
/// payload, and jumps to the compiled forms of its children and of its descendants,
/// which lie in `lo..hi`.
pub open spec fn node_at(
    encoding: Seq<char>,
    instrs: Seq<Instr>,
    a: int,
    n: AstNode,
    lo: int,
    hi: int,
) -> bool
    decreases n, 1int,
{
    &&& 0 <= a < instrs.len()
    &&& instr_compiled(encoding, instrs[a], n.predicate@)
    &&& instrs[a].branch().matched_payload@ == n.payload@
    &&& match instrs[a].branch().jumps {
        None => n.children@.len() == 0,
        Some(jr) => n.children@.len() > 0 && lo <= jr.start && jr.end <= hi
            && tree_at(encoding, instrs, jr, n.children@, lo, hi),
    }
    &&& match instrs[a].branch().hereditary_jumps {
        None => n.descendants@.len() == 0,
        Some(hr) => n.descendants@.len() > 0 && lo <= hr.start && hr.end <= hi
            && tree_at(encoding, instrs, hr, n.descendants@, lo, hi),
    }
}

/// Two instruction sequences agree on `lo..hi`.
pub open spec fn agree_on(a: Seq<Instr>, b: Seq<Instr>, lo: int, hi: int) -> bool {
    forall|x: int| lo <= x < hi ==> #[trigger] a[x] == b[x]
}

/// A compiled tree only reads its own instructions.
proof fn lemma_tree_frame(
    encoding: Seq<char>,
    instrs: Seq<Instr>,
    other: Seq<Instr>,
    r: AddressRange,
    nodes: Seq<AstNode>,
    lo: int,
    hi: int,
)
    requires
        tree_at(encoding, instrs, r, nodes, lo, hi),
        instrs.len() == other.len(),
        agree_on(instrs, other, r.start as int, r.end as int),
        agree_on(instrs, other, lo, hi),
    ensures
        tree_at(encoding, other, r, nodes, lo, hi),
    decreases nodes, 0int,
{
    assert forall|i: int| 0 <= i < nodes.len() implies node_at(encoding, other, r.start + i, #[trigger] nodes[i], lo, hi) by {
        assert(instrs[r.start + i] == other[r.start + i]);
        lemma_node_frame(encoding, instrs, other, r.start + i, nodes[i], lo, hi);
    }
}

proof fn lemma_node_frame(
    encoding: Seq<char>,
    instrs: Seq<Instr>,
    other: Seq<Instr>,
    a: int,
    n: AstNode,
    lo: int,
    hi: int,
)
    requires
        node_at(encoding, instrs, a, n, lo, hi),
        instrs.len() == other.len(),
        instrs[a] == other[a],
        agree_on(instrs, other, lo, hi),
    ensures
        node_at(encoding, other, a, n, lo, hi),
    decreases n, 1int,
{
    match instrs[a].branch().jumps {
        Some(jr) => {
            lemma_tree_frame(encoding, instrs, other, jr, n.children@, lo, hi);
        },
        None => {},
    }
    match instrs[a].branch().hereditary_jumps {
        Some(hr) => {
            lemma_tree_frame(encoding, instrs, other, hr, n.descendants@, lo, hi);
        },
        None => {},
    }
}

/// A compiled tree whose instructions lie in `lo..hi` lies in any wider region.
proof fn lemma_tree_widen(
    encoding: Seq<char>,
    instrs: Seq<Instr>,
    r: AddressRange,
    nodes: Seq<AstNode>,
    lo: int,
    hi: int,
    lo2: int,
    hi2: int,
)
    requires
        tree_at(encoding, instrs, r, nodes, lo, hi),
        lo2 <= lo,
        hi <= hi2,
    ensures
        tree_at(encoding, instrs, r, nodes, lo2, hi2),
    decreases nodes, 0int,
{
    assert forall|i: int| 0 <= i < nodes.len() implies node_at(encoding, instrs, r.start + i, #[trigger] nodes[i], lo2, hi2) by {
        lemma_node_widen(encoding, instrs, r.start + i, nodes[i], lo, hi, lo2, hi2);
    }
}

proof fn lemma_node_widen(
    encoding: Seq<char>,
    instrs: Seq<Instr>,
    a: int,
    n: AstNode,
    lo: int,
    hi: int,
    lo2: int,
    hi2: int,
)
    requires
        node_at(encoding, instrs, a, n, lo, hi),
        lo2 <= lo,
        hi <= hi2,
    ensures
        node_at(encoding, instrs, a, n, lo2, hi2),
    decreases n, 1int,
{
    match instrs[a].branch().jumps {
        Some(jr) => {
            lemma_tree_widen(encoding, instrs, jr, n.children@, lo, hi, lo2, hi2);
        },
        None => {},
    }
    match instrs[a].branch().hereditary_jumps {
        Some(hr) => {
            lemma_tree_widen(encoding, instrs, hr, n.descendants@, lo, hi, lo2, hi2);
        },
        None => {},
    }
}

/// The nodes of a forest, counted from the first `i` trees.
proof fn lemma_count_prefix_step(nodes: Seq<AstNode>, i: int)
    requires
        0 <= i < nodes.len(),
    ensures
        count_nodes(nodes.subrange(0, i + 1)) == count_nodes(nodes.subrange(0, i)) + count_node(nodes[i]),
{
    assert(nodes.subrange(0, i + 1).drop_last() =~= nodes.subrange(0, i));
}

proof fn lemma_count_prefix_le(nodes: Seq<AstNode>, i: int)
    requires
        0 <= i <= nodes.len(),
    ensures
        count_nodes(nodes.subrange(0, i)) + (nodes.len() - i) <= count_nodes(nodes),
    decreases nodes.len() - i,
{
    if i < nodes.len() {
        lemma_count_prefix_step(nodes, i);
        assert(count_node(nodes[i]) >= 1);
        lemma_count_prefix_le(nodes, i + 1);
    } else {
        assert(nodes.subrange(0, i) =~= nodes);
    }
}

proof fn lemma_count_at_least_len(nodes: Seq<AstNode>, i: int)
    requires
        0 <= i <= nodes.len(),
    ensures
        count_nodes(nodes.subrange(0, i)) >= i,
    decreases i,
{
    if i > 0 {
        lemma_count_at_least_len(nodes, i - 1);
        lemma_count_prefix_step(nodes, i - 1);
    } else {
        assert(nodes.subrange(0, 0) =~= Seq::<AstNode>::empty());
    }
}

/// One step of compiling a list of siblings: after the `i`-th node's children and
/// descendants are compiled and its instruction is written, the nodes before it are
/// still compiled where they were, and every compiled instruction still jumps to
/// compiled instructions only.
proof fn lemma_compile_step(
    enc: Seq<char>,
    before: Seq<Instr>,
    mid: Seq<Instr>,
    after: Seq<Instr>,
    cur: Seq<Instr>,
    addr: int,
    instr: Instr,
    r: AddressRange,
    i: int,
    fsp0: int,
    fsp1: int,
    fsp2: int,
    orig: Seq<AstNode>,
    n: AstNode,
)
    requires
        0 <= i < orig.len(),
        r.end - r.start == orig.len(),
        addr == r.start + i,
        r.end <= fsp0 <= fsp1 <= fsp2 <= before.len(),
        n == orig[i],
        before.len() == mid.len() == after.len(),
        cur == after.update(addr, instr),
        branches_wf(after),
        agree_on(before, mid, 0, fsp0),
        agree_on(mid, after, 0, fsp1),
        forall|a: int| r.start <= a < r.start + i ==> (#[trigger] before[a]).is_compiled(),
        forall|k: int| 0 <= k < i ==> node_at(enc, before, r.start + k, #[trigger] orig[k], r.end as int, fsp0),
        instr_compiled(enc, instr, n.predicate@),
        instr.is_compiled(),
        instr.branch().matched_payload@ == n.payload@,
        match instr.branch().jumps {
            None => n.children@.len() == 0,
            Some(jr) => n.children@.len() > 0 && jr.start == fsp0 && jr.end <= fsp1
                && range_wf(mid, jr)
                && tree_at(enc, mid, jr, n.children@, jr.end as int, fsp1),
        },
        match instr.branch().hereditary_jumps {
            None => n.descendants@.len() == 0,
            Some(hr) => n.descendants@.len() > 0 && hr.start == fsp1 && hr.end <= fsp2
                && range_wf(after, hr)
                && tree_at(enc, after, hr, n.descendants@, hr.end as int, fsp2),
        },
    ensures
        branches_wf(cur),
        forall|a: int| r.start <= a < r.start + i + 1 ==> (#[trigger] cur[a]).is_compiled(),
        forall|k: int| 0 <= k < i + 1 ==> node_at(enc, cur, r.start + k, #[trigger] orig[k], r.end as int, fsp2),
{
    assert(agree_on(before, cur, 0, addr));
    assert(agree_on(before, cur, addr + 1, fsp0));
    match instr.branch().jumps {
        Some(jr) => {
            assert(agree_on(mid, cur, jr.start as int, fsp1));
            lemma_tree_frame(enc, mid, cur, jr, n.children@, jr.end as int, fsp1);
            lemma_tree_widen(enc, cur, jr, n.children@, jr.end as int, fsp1, r.end as int, fsp2);
        },
        None => {},
    }
    match instr.branch().hereditary_jumps {
        Some(hr) => {
            assert(agree_on(after, cur, hr.start as int, fsp2));
            lemma_tree_frame(enc, after, cur, hr, n.descendants@, hr.end as int, fsp2);
            lemma_tree_widen(enc, cur, hr, n.descendants@, hr.end as int, fsp2, r.end as int, fsp2);
        },
        None => {},
    }
    assert(node_at(enc, cur, addr, n, r.end as int, fsp2));
    assert forall|k: int| 0 <= k < i + 1 implies node_at(enc, cur, r.start + k, #[trigger] orig[k], r.end as int, fsp2) by {
        if k < i {
            lemma_node_frame(enc, before, cur, r.start + k, orig[k], r.end as int, fsp0);
            lemma_node_widen(enc, cur, r.start + k, orig[k], r.end as int, fsp0, r.end as int, fsp2);
        }
    }
    assert forall|a: int| r.start <= a < r.start + i + 1 implies (#[trigger] cur[a]).is_compiled() by {
        if a < addr {
            assert(cur[a] == before[a]);
        }
    }
    assert forall|a: int| 0 <= a < cur.len() && (#[trigger] cur[a]).is_compiled() implies {
        &&& opt_range_wf(cur, cur[a].branch().jumps)
        &&& opt_range_wf(cur, cur[a].branch().hereditary_jumps)
    } by {
        if a != addr {
            assert(cur[a] == after[a]);
            lemma_range_wf_update(after, addr, instr, after[a].branch().jumps);
            lemma_range_wf_update(after, addr, instr, after[a].branch().hereditary_jumps);
        } else {
            match instr.branch().jumps {
                Some(jr) => {
                    assert forall|x: int| jr.start <= x < jr.end implies (#[trigger] cur[x]).is_compiled() by {
                        assert(cur[x] == mid[x]);
                    }
                },
                None => {},
            }
            match instr.branch().hereditary_jumps {
                Some(hr) => {
                    assert forall|x: int| hr.start <= x < hr.end implies (#[trigger] cur[x]).is_compiled() by {
                        assert(cur[x] == after[x]);
                    }
                },
                None => {},
            }
        }
    }
}

/// Writing a compiled instruction keeps every range of compiled instructions so.
proof fn lemma_range_wf_update(s: Seq<Instr>, addr: int, instr: Instr, r: Option<AddressRange>)
    requires
        opt_range_wf(s, r),
        instr.is_compiled(),
        0 <= addr < s.len(),
    ensures
        opt_range_wf(s.update(addr, instr), r),
{
    match r {
        Some(r) => {
            assert forall|x: int| r.start <= x < r.end implies (#[trigger] s.update(addr, instr)[x]).is_compiled() by {
                if x != addr {
                    assert(s.update(addr, instr)[x] == s[x]);
                }
            }
        },
        None => {},
    }
}

// ---------------------------------------------------------------------------
// The compiler

/// Every compiled instruction of `instrs` jumps only to ranges of compiled instructions.
pub open spec fn branches_wf(instrs: Seq<Instr>) -> bool {
    forall|a: int|
        0 <= a < instrs.len() && (#[trigger] instrs[a]).is_compiled() ==> {
            &&& opt_range_wf(instrs, instrs[a].branch().jumps)
            &&& opt_range_wf(instrs, instrs[a].branch().hereditary_jumps)
        }
}

/// Compiles a tree of selectors into a program for the matching machine.
pub struct Compiler {
    encoding: String,
    instructions: Vec<Instr>,
    free_space_ptr: usize,
}

impl Compiler {
    /// The label of the encoding that literals are compiled to.
    pub closed spec fn encoding(&self) -> Seq<char> {
        self.encoding@
    }

    /// A compiler for documents in the encoding named by `encoding`.
    pub fn new(encoding: &str) -> (r: Compiler)
        ensures
            r.encoding() == encoding@,
    {
        Compiler { encoding: encoding.to_owned(), instructions: Vec::new(), free_space_ptr: 0 }
    }

    fn compile_literal(&self, lit: &String) -> (r: Option<Vec<u8>>)
        ensures
            match r {
                Some(b) => literal(self.encoding@, lit@) == Some(b@),
                None => literal(self.encoding@, lit@) is None,
            },
    {
        encode_without_replacements(self.encoding.as_str(), lit.as_str())
    }

    fn compile_literal_lowercase(&self, lit: &String) -> (r: Option<Vec<u8>>)
        ensures
            match r {
                Some(b) => literal_lowercase(self.encoding@, lit@) == Some(b@),
                None => literal_lowercase(self.encoding@, lit@) is None,
            },
    {
        let lower = to_ascii_lowercase(lit.as_str());
        encode_without_replacements(self.encoding.as_str(), lower.as_str())
    }

    fn compile_non_attr_expr(&self, expr: &NonAttributeExpr, negation: bool) -> (r: CompiledNonAttributeExpr)
        ensures
            non_attr_compiled(self.encoding@, expr@, negation, r),
    {
        let matcher = match expr {
            NonAttributeExpr::ExplicitAny => NonAttrMatcher::MatchAll,
            NonAttributeExpr::Unmatchable => NonAttrMatcher::Unmatchable,
            NonAttributeExpr::LocalName(name) => {
                match LocalName::from_str_without_replacements(name.as_str(), self.encoding.as_str()) {
                    Some(n) => NonAttrMatcher::LocalName(n),
                    None => NonAttrMatcher::Unmatchable,
                }
            },
        };
        CompiledNonAttributeExpr { matcher, negation }
    }

    fn compile_attr_expr_operand(&self, operand: &AttributeExprOperand) -> (r: Option<CompiledAttributeExprOperand>)
        ensures
            match (literal_lowercase(self.encoding@, operand@.name), literal(self.encoding@, operand@.value)) {
                (Some(name), Some(value)) => r matches Some(o) && o.name@ == name && o.value@ == value
                    && o.case_sensitivity == operand.case_sensitivity,
                _ => r is None,
            },
    {
        let name = match self.compile_literal_lowercase(&operand.name) {
            Some(n) => n,
            None => return None,
        };
        let value = match self.compile_literal(&operand.value) {
            Some(v) => v,
            None => return None,
        };
        Some(CompiledAttributeExprOperand { name, value, case_sensitivity: operand.case_sensitivity })
    }

    fn compile_operator(&self, op: AttrSelectorOperator, operand: &AttributeExprOperand) -> (r: AttrMatcherKind)
        ensures
            operand_compiled(self.encoding@, op, operand@, r),
    {
        match self.compile_attr_expr_operand(operand) {
            Some(o) => AttrMatcherKind::Operator(op, o),
            None => AttrMatcherKind::Unmatchable,
        }
    }

    fn compile_attr_expr(&self, expr: &AttributeExpr, negation: bool) -> (r: CompiledAttributeExpr)
        ensures
            attr_compiled(self.encoding@, expr@, negation, r),
    {
        let kind = match expr {
            AttributeExpr::Id(id) => match self.compile_literal(id) {
                Some(b) => AttrMatcherKind::Id(b),
                None => AttrMatcherKind::Unmatchable,
            },
            AttributeExpr::Class(class) => match self.compile_literal(class) {
                Some(b) => AttrMatcherKind::Class(b),
                None => AttrMatcherKind::Unmatchable,
            },
            AttributeExpr::AttributeExists(name) => match self.compile_literal_lowercase(name) {
                Some(b) => AttrMatcherKind::Exists(b),
                None => AttrMatcherKind::Unmatchable,
            },
            AttributeExpr::AttributeEqual(o) => self.compile_operator(AttrSelectorOperator::Equal, o),
            AttributeExpr::AttributeIncludes(o) => self.compile_operator(AttrSelectorOperator::Includes, o),
            AttributeExpr::AttributeDashMatch(o) => self.compile_operator(AttrSelectorOperator::DashMatch, o),
            AttributeExpr::AttributePrefix(o) => self.compile_operator(AttrSelectorOperator::Prefix, o),
            AttributeExpr::AttributeSuffix(o) => self.compile_operator(AttrSelectorOperator::Suffix, o),
            AttributeExpr::AttributeSubstring(o) => self.compile_operator(AttrSelectorOperator::Substring, o),
        };
        CompiledAttributeExpr { kind, negation }
    }

    fn compile_non_attr_list(&self, exprs: &Vec<super::ast::Expr<NonAttributeExpr>>) -> (r: Vec<CompiledNonAttributeExpr>)
        ensures
            non_attr_list_compiled(self.encoding@, non_attr_list_view(exprs@), r@),
    {
        let mut r: Vec<CompiledNonAttributeExpr> = Vec::new();
        let mut i: usize = 0;
        while i < exprs.len()
            invariant
                i <= exprs@.len(),
                r@.len() == i,
                forall|k: int| 0 <= k < i ==> non_attr_compiled(self.encoding@, exprs@[k].simple_expr@, exprs@[k].negation, #[trigger] r@[k]),
            decreases exprs@.len() - i,
        {
            r.push(self.compile_non_attr_expr(&exprs[i].simple_expr, exprs[i].negation));
            i = i + 1;
        }
        r
    }

    fn compile_attr_list(&self, exprs: &Vec<super::ast::Expr<AttributeExpr>>) -> (r: Vec<CompiledAttributeExpr>)
        ensures
            attr_list_compiled(self.encoding@, attr_list_view(exprs@), r@),
    {
        let mut r: Vec<CompiledAttributeExpr> = Vec::new();
        let mut i: usize = 0;
        while i < exprs.len()
            invariant
                i <= exprs@.len(),
                r@.len() == i,
                forall|k: int| 0 <= k < i ==> attr_compiled(self.encoding@, exprs@[k].simple_expr@, exprs@[k].negation, #[trigger] r@[k]),
            decreases exprs@.len() - i,
        {
            r.push(self.compile_attr_expr(&exprs[i].simple_expr, exprs[i].negation));
            i = i + 1;
        }
        r
    }

    fn compile_predicate(&self, predicate: &Predicate, branch: ExecutionBranch) -> (r: Instr)
        requires
            predicate.non_empty(),
        ensures
            instr_compiled(self.encoding@, r, predicate@),
            r.is_compiled(),
            r.branch() == branch,
    {
        let non_attr_exprs = match &predicate.non_attr_exprs {
            Some(e) => Some(self.compile_non_attr_list(e)),
            None => None,
        };
        let attr_exprs = match &predicate.attr_exprs {
            Some(e) => Some(self.compile_attr_list(e)),
            None => None,
        };
        match (non_attr_exprs, attr_exprs) {
            (Some(na), None) => Instr::NonAttrExprMatching(NonAttrExprMatchingInstr::new_boxed(branch, na)),
            (None, Some(at)) => Instr::AttrExprMatching(AttrExprMatchingInstr::new_boxed(branch, at)),
            (Some(na), Some(at)) => Instr::Generic(GenericInstr::new_boxed(branch, na, at)),
            (None, None) => {
                proof {
                    assert(false);
                }
                Instr::Stub(InstrStub::new_boxed())
            },
        }
    }

    /// The compiler's instructions jump only to compiled instructions.
    spec fn state_wf(&self) -> bool {
        &&& self.free_space_ptr <= self.instructions@.len()
        &&& branches_wf(self.instructions@)
    }

    fn reserve_space_for_nodes(&mut self, count: usize) -> (r: AddressRange)
        requires
            old(self).free_space_ptr + count <= old(self).instructions@.len(),
        ensures
            r.start == old(self).free_space_ptr,
            r.end == r.start + count,
            final(self).free_space_ptr == r.end,
            final(self).instructions == old(self).instructions,
            final(self).encoding == old(self).encoding,
    {
        let total = self.instructions.len();
        assert(self.free_space_ptr + count <= total);
        let r = AddressRange { start: self.free_space_ptr, end: self.free_space_ptr + count };
        self.free_space_ptr = r.end;
        r
    }

    fn compile_descendants(&mut self, nodes: Vec<AstNode>) -> (r: Option<AddressRange>)
        requires
            old(self).state_wf(),
            forest_wf(nodes@),
            old(self).free_space_ptr + count_nodes(nodes@) <= old(self).instructions@.len(),
        ensures
            final(self).state_wf(),
            final(self).encoding == old(self).encoding,
            final(self).instructions@.len() == old(self).instructions@.len(),
            final(self).free_space_ptr == old(self).free_space_ptr + count_nodes(nodes@),
            agree_on(old(self).instructions@, final(self).instructions@, 0, old(self).free_space_ptr as int),
            agree_on(
                old(self).instructions@,
                final(self).instructions@,
                final(self).free_space_ptr as int,
                final(self).instructions@.len() as int,
            ),
            match r {
                None => nodes@.len() == 0,
                Some(range) => nodes@.len() > 0 && range.start == old(self).free_space_ptr
                    && range.end == range.start + nodes@.len()
                    && range.end <= final(self).free_space_ptr
                    && range_wf(final(self).instructions@, range)
                    && tree_at(final(self).encoding@, final(self).instructions@, range, nodes@,
                        range.end as int, final(self).free_space_ptr as int),
            },
        decreases count_nodes(nodes@), 1int,
    {
        if nodes.len() == 0 {
            assert(count_nodes(nodes@) == 0);
            None
        } else {
            Some(self.compile_nodes(nodes))
        }
    }

    #[verifier::loop_isolation(false)]
    fn compile_nodes(&mut self, nodes: Vec<AstNode>) -> (r: AddressRange)
        requires
            old(self).state_wf(),
            forest_wf(nodes@),
            old(self).free_space_ptr + count_nodes(nodes@) <= old(self).instructions@.len(),
        ensures
            final(self).state_wf(),
            final(self).encoding == old(self).encoding,
            final(self).instructions@.len() == old(self).instructions@.len(),
            final(self).free_space_ptr == old(self).free_space_ptr + count_nodes(nodes@),
            agree_on(old(self).instructions@, final(self).instructions@, 0, old(self).free_space_ptr as int),
            agree_on(
                old(self).instructions@,
                final(self).instructions@,
                final(self).free_space_ptr as int,
                final(self).instructions@.len() as int,
            ),
            r.start == old(self).free_space_ptr,
            r.end == r.start + nodes@.len(),
            r.end <= final(self).free_space_ptr,
            range_wf(final(self).instructions@, r),
            tree_at(final(self).encoding@, final(self).instructions@, r, nodes@, r.end as int, final(self).free_space_ptr as int),
        decreases count_nodes(nodes@), 0int,
    {
        let ghost orig = nodes@;
        let ghost old_instrs = self.instructions@;
        let ghost enc = self.encoding@;
        let len = nodes.len();
        proof {
            lemma_count_at_least_len(orig, len as int);
            assert(orig.subrange(0, len as int) =~= orig);
        }
        let addr_range = self.reserve_space_for_nodes(len);
        let mut nodes = nodes;
        let mut i: usize = 0;
        while i < len
            invariant
                0 <= i <= len,
                len == orig.len(),
                addr_range.start == old(self).free_space_ptr,
                addr_range.end == addr_range.start + len,
                nodes@ == orig.subrange(i as int, len as int),
                forest_wf(orig),
                self.state_wf(),
                self.encoding@ == enc,
                self.encoding == old(self).encoding,
                self.instructions@.len() == old_instrs.len(),
                old(self).free_space_ptr + count_nodes(orig) <= old_instrs.len(),
                self.free_space_ptr == addr_range.end + count_nodes(orig.subrange(0, i as int)) - i,
                agree_on(old_instrs, self.instructions@, 0, addr_range.start as int),
                agree_on(old_instrs, self.instructions@, self.free_space_ptr as int, old_instrs.len() as int),
                forall|a: int| addr_range.start <= a < addr_range.start + i ==> (#[trigger] self.instructions@[a]).is_compiled(),
                forall|k: int| 0 <= k < i ==> node_at(enc, self.instructions@, addr_range.start + k, #[trigger] orig[k],
                    addr_range.end as int, self.free_space_ptr as int),
            decreases len - i,
        {
            let ghost before = self.instructions@;
            let ghost fsp0 = self.free_space_ptr;
            proof {
                lemma_count_prefix_step(orig, i as int);
                lemma_count_prefix_le(orig, i as int + 1);
                lemma_count_at_least_len(orig, i as int);
                assert(node_wf(orig[i as int]));
                assert(nodes@[0] == orig[i as int]);
            }
            let node = nodes.remove(0);
            proof {
                assert(nodes@ =~= orig.subrange(i + 1, len as int));
            }
            let ghost n = node;
            proof {
                assert(count_node(n) == 1 + count_nodes(n.children@) + count_nodes(n.descendants@));
                assert(count_nodes(n.children@) < count_nodes(orig));
                assert(count_nodes(n.descendants@) < count_nodes(orig));
            }
            let AstNode { predicate, children, descendants, payload } = node;
            let jumps = self.compile_descendants(children);
            let ghost fsp1 = self.free_space_ptr;
            let ghost mid = self.instructions@;
            let hereditary_jumps = self.compile_descendants(descendants);
            let ghost fsp2 = self.free_space_ptr;
            let ghost after = self.instructions@;
            let branch = ExecutionBranch { matched_payload: payload, jumps, hereditary_jumps };
            let instr = self.compile_predicate(&predicate, branch);
            let addr = addr_range.start + i;
            proof {
                assert(addr < addr_range.end);
                assert(addr_range.end <= fsp0);
            }
            let ghost new_instr = instr;
            self.instructions.set(addr, instr);
            proof {
                lemma_compile_step(enc, before, mid, after, self.instructions@, addr as int, new_instr,
                    addr_range, i as int, fsp0 as int, fsp1 as int, fsp2 as int, orig, n);
            }
            i = i + 1;
        }
        proof {
            assert(orig.subrange(0, len as int) =~= orig);
            lemma_count_at_least_len(orig, len as int);
        }
        addr_range
    }

    /// Compiles the tree: every node becomes one instruction, the roots at the entry
    /// points and the siblings of each node next to each other.
    pub fn compile(self, ast: Ast) -> (r: Program)
        requires
            ast.inv(),
        ensures
            r.wf(),
            r.instructions@.len() == ast.cumulative_node_count,
            tree_at(self.encoding(), r.instructions@, r.entry_points, ast.root@,
                r.entry_points.end as int, r.instructions@.len() as int),
    {
        let mut this = self;
        let total = ast.cumulative_node_count;
        let mut instructions: Vec<Instr> = Vec::new();
        while instructions.len() < total
            invariant
                instructions@.len() <= total,
                forall|a: int| 0 <= a < instructions@.len() ==> !(#[trigger] instructions@[a]).is_compiled(),
            decreases total - instructions@.len(),
        {
            instructions.push(Instr::Stub(InstrStub::new_boxed()));
        }
        this.instructions = instructions;
        this.free_space_ptr = 0;
        let entry_points = this.compile_nodes(ast.root);
        Program { instructions: this.instructions, entry_points }
    }
}

} // verus!

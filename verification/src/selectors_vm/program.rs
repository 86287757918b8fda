use vstd::prelude::*;
use crate::html::{LocalName, LocalNameView, bytes_eq};
use super::attribute_matcher::{
    AttributeMatcher, CompiledAttributeExprOperand, attr_value, find_attr, has_part,
};
use super::parser::AttrSelectorOperator;

verus! {

/// A range of instruction addresses, `start..end`.
#[derive(Debug, Copy, Clone, PartialEq, Eq, Structural)]
pub struct AddressRange {
    pub start: usize,
    pub end: usize,
}

/// What an instruction asks for when it can't decide without the tag's attributes.
#[derive(Debug, Copy, Clone, PartialEq, Eq, Structural)]
pub struct AttributesRequired;

/// What happens when an instruction matches: payloads that the element matched, the
/// instructions that its children are matched against and the instructions that all
/// of its descendants are matched against.
#[derive(Debug)]
pub struct ExecutionBranch {
    pub matched_payload: Vec<usize>,
    pub jumps: Option<AddressRange>,
    pub hereditary_jumps: Option<AddressRange>,
}

/// A compiled test on the local name of an element.
#[derive(Debug)]
pub enum NonAttrMatcher {
    MatchAll,
    Unmatchable,
    LocalName(LocalName),
}

/// A compiled test on the local name, possibly negated.
#[derive(Debug)]
pub struct CompiledNonAttributeExpr {
    pub matcher: NonAttrMatcher,
    pub negation: bool,
}

/// A compiled test on the attributes of an element.
#[derive(Debug)]
pub enum AttrMatcherKind {
    Unmatchable,
    Id(Vec<u8>),
    Class(Vec<u8>),
    Exists(Vec<u8>),
    Operator(AttrSelectorOperator, CompiledAttributeExprOperand),
}

/// A compiled test on the attributes, possibly negated.
#[derive(Debug)]
pub struct CompiledAttributeExpr {
    pub kind: AttrMatcherKind,
    pub negation: bool,
}

/// The result of a test on the local name.
pub open spec fn eval_non_attr(e: CompiledNonAttributeExpr, ln: LocalNameView) -> bool {
    let base = match e.matcher {
        NonAttrMatcher::MatchAll => true,
        NonAttrMatcher::Unmatchable => false,
        NonAttrMatcher::LocalName(n) => n@ == ln,
    };
    if e.negation {
        !base
    } else {
        base
    }
}

/// The result of a test on the attributes.
pub open spec fn eval_attr(e: CompiledAttributeExpr, m: AttributeMatcher) -> bool {
    let base = match e.kind {
        AttrMatcherKind::Unmatchable => false,
        AttrMatcherKind::Id(id) => attr_value(m.attributes@, seq![105u8, 100u8]) == Some(id@),
        AttrMatcherKind::Class(c) => match attr_value(m.attributes@, seq![99u8, 108u8, 97u8, 115u8, 115u8]) {
            Some(v) => has_part(v, c@, false),
            None => false,
        },
        AttrMatcherKind::Exists(name) => find_attr(m.attributes@, name@) is Some,
        AttrMatcherKind::Operator(op, operand) => m.spec_value_matches(&operand, op),
    };
    if e.negation {
        !base
    } else {
        base
    }
}

/// All tests on the local name pass.
pub open spec fn all_non_attr(exprs: Seq<CompiledNonAttributeExpr>, ln: LocalNameView) -> bool {
    forall|i: int| 0 <= i < exprs.len() ==> eval_non_attr(#[trigger] exprs[i], ln)
}

/// All tests on the attributes pass.
pub open spec fn all_attr(exprs: Seq<CompiledAttributeExpr>, m: AttributeMatcher) -> bool {
    forall|i: int| 0 <= i < exprs.len() ==> eval_attr(#[trigger] exprs[i], m)
}

fn exec_non_attr(e: &CompiledNonAttributeExpr, ln: &LocalName) -> (r: bool)
    ensures
        r == eval_non_attr(*e, ln@),
{
    let base = match &e.matcher {
        NonAttrMatcher::MatchAll => true,
        NonAttrMatcher::Unmatchable => false,
        NonAttrMatcher::LocalName(n) => n.eq(ln),
    };
    if e.negation {
        !base
    } else {
        base
    }
}

fn exec_attr(e: &CompiledAttributeExpr, m: &AttributeMatcher) -> (r: bool)
    ensures
        r == eval_attr(*e, *m),
{
    let base = match &e.kind {
        AttrMatcherKind::Unmatchable => false,
        AttrMatcherKind::Id(id) => m.has_id(id.as_slice()),
        AttrMatcherKind::Class(c) => m.has_class(c.as_slice()),
        AttrMatcherKind::Exists(name) => m.has_attribute(name.as_slice()),
        AttrMatcherKind::Operator(op, operand) => match op {
            AttrSelectorOperator::Equal => m.attr_eq(operand),
            AttrSelectorOperator::Includes => m.matches_splitted_by_whitespace(operand),
            AttrSelectorOperator::DashMatch => m.has_dash_matching_attr(operand),
            AttrSelectorOperator::Prefix => m.has_attr_with_prefix(operand),
            AttrSelectorOperator::Substring => m.has_attr_with_substring(operand),
            AttrSelectorOperator::Suffix => m.has_attr_with_suffix(operand),
        },
    };
    if e.negation {
        !base
    } else {
        base
    }
}

fn exec_all_non_attr(exprs: &Vec<CompiledNonAttributeExpr>, ln: &LocalName) -> (r: bool)
    ensures
        r == all_non_attr(exprs@, ln@),
{
    let mut i: usize = 0;
    while i < exprs.len()
        invariant
            i <= exprs@.len(),
            forall|k: int| 0 <= k < i ==> eval_non_attr(#[trigger] exprs@[k], ln@),
        decreases exprs@.len() - i,
    {
        if !exec_non_attr(&exprs[i], ln) {
            return false;
        }
        i = i + 1;
    }
    true
}

fn exec_all_attr(exprs: &Vec<CompiledAttributeExpr>, m: &AttributeMatcher) -> (r: bool)
    ensures
        r == all_attr(exprs@, *m),
{
    let mut i: usize = 0;
    while i < exprs.len()
        invariant
            i <= exprs@.len(),
            forall|k: int| 0 <= k < i ==> eval_attr(#[trigger] exprs@[k], *m),
        decreases exprs@.len() - i,
    {
        if !exec_attr(&exprs[i], m) {
            return false;
        }
        i = i + 1;
    }
    true
}

/// The matcher behind an optional reference.
pub open spec fn opt_matcher(m: Option<&AttributeMatcher>) -> Option<AttributeMatcher> {
    match m {
        Some(m) => Some(*m),
        None => None,
    }
}

/// The placeholder of an address that has not been compiled yet.
#[derive(Debug)]
pub struct InstrStub;

impl InstrStub {
    pub fn new_boxed() -> (r: Box<InstrStub>) {
        Box::new(InstrStub)
    }
}

/// Matches on the local name alone.
#[derive(Debug)]
pub struct NonAttrExprMatchingInstr {
    pub associated_branch: ExecutionBranch,
    pub exprs: Vec<CompiledNonAttributeExpr>,
}

impl NonAttrExprMatchingInstr {
    pub fn new_boxed(
        associated_branch: ExecutionBranch,
        exprs: Vec<CompiledNonAttributeExpr>,
    ) -> (r: Box<NonAttrExprMatchingInstr>)
        ensures
            r.associated_branch == associated_branch,
            r.exprs == exprs,
    {
        Box::new(NonAttrExprMatchingInstr { associated_branch, exprs })
    }
}

/// Matches on the attributes alone.
#[derive(Debug)]
pub struct AttrExprMatchingInstr {
    pub associated_branch: ExecutionBranch,
    pub exprs: Vec<CompiledAttributeExpr>,
}

impl AttrExprMatchingInstr {
    pub fn new_boxed(
        associated_branch: ExecutionBranch,
        exprs: Vec<CompiledAttributeExpr>,
    ) -> (r: Box<AttrExprMatchingInstr>)
        ensures
            r.associated_branch == associated_branch,
            r.exprs == exprs,
    {
        Box::new(AttrExprMatchingInstr { associated_branch, exprs })
    }
}

/// Matches on the local name first, then on the attributes.
#[derive(Debug)]
pub struct GenericInstr {
    pub associated_branch: ExecutionBranch,
    pub non_attr_exprs: Vec<CompiledNonAttributeExpr>,
    pub attr_exprs: Vec<CompiledAttributeExpr>,
}

impl GenericInstr {
    pub fn new_boxed(
        associated_branch: ExecutionBranch,
        non_attr_exprs: Vec<CompiledNonAttributeExpr>,
        attr_exprs: Vec<CompiledAttributeExpr>,
    ) -> (r: Box<GenericInstr>)
        ensures
            r.associated_branch == associated_branch,
            r.non_attr_exprs == non_attr_exprs,
            r.attr_exprs == attr_exprs,
    {
        Box::new(GenericInstr { associated_branch, non_attr_exprs, attr_exprs })
    }
}

/// An instruction of the selector matching program.
#[derive(Debug)]
pub enum Instr {
    Stub(Box<InstrStub>),
    NonAttrExprMatching(Box<NonAttrExprMatchingInstr>),
    AttrExprMatching(Box<AttrExprMatchingInstr>),
    Generic(Box<GenericInstr>),
}

impl Instr {
    /// The instruction is a compiled one, not a placeholder.
    pub open spec fn is_compiled(&self) -> bool {
        !(self is Stub)
    }

    /// The instruction tests attributes.
    pub open spec fn tests_attrs(&self) -> bool {
        self is AttrExprMatching || self is Generic
    }

    /// The branch of a compiled instruction.
    pub open spec fn branch(&self) -> ExecutionBranch
        recommends
            self.is_compiled(),
    {
        match self {
            Instr::NonAttrExprMatching(i) => i.associated_branch,
            Instr::AttrExprMatching(i) => i.associated_branch,
            Instr::Generic(i) => i.associated_branch,
            Instr::Stub(_) => arbitrary(),
        }
    }

    /// Whether the instruction matches an element with the given local name and, where
    /// they are known, attributes; `Err` where it needs attributes that are not given.
    pub open spec fn spec_exec(&self, ln: LocalNameView, m: Option<AttributeMatcher>) -> Result<bool, ()> {
        match self {
            Instr::NonAttrExprMatching(i) => Ok(all_non_attr(i.exprs@, ln)),
            Instr::AttrExprMatching(i) => match m {
                Some(m) => Ok(all_attr(i.exprs@, m)),
                None => Err(()),
            },
            Instr::Generic(i) => if !all_non_attr(i.non_attr_exprs@, ln) {
                Ok(false)
            } else {
                match m {
                    Some(m) => Ok(all_attr(i.attr_exprs@, m)),
                    None => Err(()),
                }
            },
            Instr::Stub(_) => Err(()),
        }
    }

    /// The result on the attributes, for an instruction that asked for them.
    pub open spec fn spec_exec_with_attrs(&self, m: AttributeMatcher) -> bool {
        match self {
            Instr::AttrExprMatching(i) => all_attr(i.exprs@, m),
            Instr::Generic(i) => all_attr(i.attr_exprs@, m),
            _ => false,
        }
    }

    /// Executes the instruction: the branch if it matches, `None` if it does not,
    /// `AttributesRequired` if it can't tell without the attributes.
    pub fn exec<'i>(&'i self, local_name: &LocalName, attr_matcher: Option<&AttributeMatcher>) -> (r:
        Result<Option<&'i ExecutionBranch>, AttributesRequired>)
        requires
            self.is_compiled(),
        ensures
            match r {
                Ok(Some(b)) => self.spec_exec(local_name@, opt_matcher(attr_matcher)) == Ok::<bool, ()>(true)
                    && *b == self.branch(),
                Ok(None) => self.spec_exec(local_name@, opt_matcher(attr_matcher)) == Ok::<bool, ()>(false),
                Err(_) => self.spec_exec(local_name@, opt_matcher(attr_matcher)) is Err,
            },
    {
        match self {
            Instr::NonAttrExprMatching(i) => {
                if exec_all_non_attr(&i.exprs, local_name) {
                    Ok(Some(&i.associated_branch))
                } else {
                    Ok(None)
                }
            },
            Instr::AttrExprMatching(i) => match attr_matcher {
                Some(m) => {
                    if exec_all_attr(&i.exprs, m) {
                        Ok(Some(&i.associated_branch))
                    } else {
                        Ok(None)
                    }
                },
                None => Err(AttributesRequired),
            },
            Instr::Generic(i) => {
                if !exec_all_non_attr(&i.non_attr_exprs, local_name) {
                    Ok(None)
                } else {
                    match attr_matcher {
                        Some(m) => {
                            if exec_all_attr(&i.attr_exprs, m) {
                                Ok(Some(&i.associated_branch))
                            } else {
                                Ok(None)
                            }
                        },
                        None => Err(AttributesRequired),
                    }
                }
            },
            Instr::Stub(_) => Err(AttributesRequired),
        }
    }

    /// Completes the execution of an instruction that asked for the attributes.
    pub fn exec_with_attrs<'i>(&'i self, attr_matcher: &AttributeMatcher) -> (r: Option<&'i ExecutionBranch>)
        requires
            self.tests_attrs(),
        ensures
            match r {
                Some(b) => self.spec_exec_with_attrs(*attr_matcher) && *b == self.branch(),
                None => !self.spec_exec_with_attrs(*attr_matcher),
            },
    {
        match self {
            Instr::AttrExprMatching(i) => {
                if exec_all_attr(&i.exprs, attr_matcher) {
                    Some(&i.associated_branch)
                } else {
                    None
                }
            },
            Instr::Generic(i) => {
                if exec_all_attr(&i.attr_exprs, attr_matcher) {
                    Some(&i.associated_branch)
                } else {
                    None
                }
            },
            _ => None,
        }
    }
}

/// Executing with the attributes completes an instruction that asked for them: it then
/// gives what executing it with the attributes from the start gives.
pub proof fn lemma_exec_with_attrs_completes(instr: Instr, ln: LocalNameView, m: AttributeMatcher)
    requires
        instr.spec_exec(ln, None) is Err,
        instr.is_compiled(),
    ensures
        instr.tests_attrs(),
        instr.spec_exec(ln, Some(m)) == Ok::<bool, ()>(instr.spec_exec_with_attrs(m)),
{
}

/// An instruction that can decide without the attributes decides the same way whatever
/// the attributes are.
pub proof fn lemma_exec_without_attrs_is_final(instr: Instr, ln: LocalNameView, m: AttributeMatcher)
    requires
        instr.spec_exec(ln, None) is Ok,
    ensures
        instr.spec_exec(ln, Some(m)) == instr.spec_exec(ln, None),
{
}

/// A compiled selector matching program: the instructions and the addresses where
/// matching of every element starts.
#[derive(Debug)]
pub struct Program {
    pub instructions: Vec<Instr>,
    pub entry_points: AddressRange,
}

/// The range lies within the program and holds compiled instructions only.
pub open spec fn range_wf(instrs: Seq<Instr>, r: AddressRange) -> bool {
    &&& r.start <= r.end <= instrs.len()
    &&& forall|a: int| r.start <= a < r.end ==> (#[trigger] instrs[a]).is_compiled()
}

/// The optional range lies within the program and holds compiled instructions only.
pub open spec fn opt_range_wf(instrs: Seq<Instr>, r: Option<AddressRange>) -> bool {
    match r {
        Some(r) => range_wf(instrs, r),
        None => true,
    }
}

impl Program {
    /// Every range in the program, the entry points and those of every branch, lies
    /// within it and holds compiled instructions only.
    pub open spec fn wf(&self) -> bool {
        &&& range_wf(self.instructions@, self.entry_points)
        &&& forall|a: int|
            0 <= a < self.instructions@.len() && (#[trigger] self.instructions@[a]).is_compiled() ==> {
                &&& opt_range_wf(self.instructions@, self.instructions@[a].branch().jumps)
                &&& opt_range_wf(self.instructions@, self.instructions@[a].branch().hereditary_jumps)
            }
    }
}

} // verus!

pub mod attribute_matcher;
pub mod error;
pub mod parser;
pub mod program;
pub mod ast;
pub mod compiler;
pub mod stack;

use vstd::prelude::*;
use crate::html::{LocalName, LocalNameView, Namespace, local_name_of};
use self::ast::Ast;
use self::attribute_matcher::{AttributeItem, AttributeMatcher};
use self::compiler::Compiler;
use self::program::{
    AddressRange, ExecutionBranch, Instr, Program, lemma_exec_with_attrs_completes,
    lemma_exec_without_attrs_is_final, opt_range_wf, range_wf,
};
use self::stack::{
    ElementDescriptor, Stack, StackDirective, StackItem, spec_stack_directive, html_void_element_names, ascii_bytes,
    lemma_void_elements_by_name,
};

verus! {

/// A selector matched an element: the payload of the selector and whether the element
/// can have content.
#[derive(Debug, Copy, Clone, PartialEq, Eq, Structural)]
pub struct MatchInfo {
    pub payload: usize,
    pub with_content: bool,
}

// ---------------------------------------------------------------------------
// The order in which instructions are tried

/// The addresses of a range, in order.
pub open spec fn range_addrs(r: AddressRange) -> Seq<int> {
    Seq::new((r.end - r.start) as nat, |i: int| r.start + i)
}

/// The addresses of a range from the `offset`-th on.
pub open spec fn range_from(r: AddressRange, offset: int) -> Seq<int> {
    Seq::new((r.end - r.start - offset) as nat, |i: int| r.start + offset + i)
}

/// The addresses of a list of ranges, one range after the other.
pub open spec fn ranges_addrs(rs: Seq<AddressRange>) -> Seq<int>
    decreases rs.len(),
{
    if rs.len() == 0 {
        Seq::empty()
    } else {
        ranges_addrs(rs.drop_last()) + range_addrs(rs.last())
    }
}

/// The addresses of a list of ranges from the `offset`-th address of the `idx`-th range on.
pub open spec fn ranges_from(rs: Seq<AddressRange>, idx: int, offset: int) -> Seq<int> {
    if 0 <= idx < rs.len() {
        range_from(rs[idx], offset) + ranges_addrs(rs.subrange(idx + 1, rs.len() as int))
    } else {
        Seq::empty()
    }
}

/// The addresses tried through the jumps of the parent, the top of the stack.
pub open spec fn jumps_addrs(items: Seq<StackItem>) -> Seq<int> {
    if items.len() == 0 {
        Seq::empty()
    } else {
        ranges_addrs(items.last().jumps@)
    }
}

/// The addresses tried through the hereditary jumps of the first `n` items: those of
/// the `n - 1`-th, then those of the items below it, for as long as an item has an
/// ancestor with hereditary jumps.
pub open spec fn hereditary_addrs(items: Seq<StackItem>, n: int) -> Seq<int>
    decreases n,
{
    if n <= 0 || n > items.len() {
        Seq::empty()
    } else {
        ranges_addrs(items[n - 1].hereditary_jumps@) + if items[n - 1].has_ancestor_with_hereditary_jumps {
            hereditary_addrs(items, n - 1)
        } else {
            Seq::empty()
        }
    }
}

/// All addresses tried for a start tag: the entry points, the jumps of the parent and
/// the hereditary jumps of the ancestors.
pub open spec fn all_addrs(entry_points: AddressRange, items: Seq<StackItem>) -> Seq<int> {
    range_addrs(entry_points) + jumps_addrs(items) + hereditary_addrs(items, items.len() as int)
}

// ---------------------------------------------------------------------------
// What trying the instructions does

/// What the matching of one element has gathered: the payloads matched, in the order
/// they were first matched, and the instruction sets for the children and the
/// descendants of the element.
pub ghost struct RunState {
    pub payload: Seq<usize>,
    pub jumps: Seq<AddressRange>,
    pub hereditary_jumps: Seq<AddressRange>,
}

/// Nothing gathered yet.
pub open spec fn empty_run() -> RunState {
    RunState { payload: Seq::empty(), jumps: Seq::empty(), hereditary_jumps: Seq::empty() }
}

/// Adds the payloads `ps` that were not matched yet.
pub open spec fn add_payloads(s: RunState, ps: Seq<usize>) -> RunState
    decreases ps.len(),
{
    if ps.len() == 0 {
        s
    } else {
        let s2 = add_payloads(s, ps.drop_last());
        if s2.payload.contains(ps.last()) {
            s2
        } else {
            RunState { payload: s2.payload.push(ps.last()), ..s2 }
        }
    }
}

/// Appends an optional range to a list of ranges.
pub open spec fn push_range(rs: Seq<AddressRange>, r: Option<AddressRange>) -> Seq<AddressRange> {
    match r {
        Some(r) => rs.push(r),
        None => rs,
    }
}

/// The effect of a matching instruction's branch: its payloads and, where the element
/// can have content, its jumps.
pub open spec fn add_branch(s: RunState, b: ExecutionBranch, with_content: bool) -> RunState {
    let s2 = add_payloads(s, b.matched_payload@);
    if with_content {
        RunState {
            jumps: push_range(s2.jumps, b.jumps),
            hereditary_jumps: push_range(s2.hereditary_jumps, b.hereditary_jumps),
            ..s2
        }
    } else {
        s2
    }
}

/// Tries the instruction at `addr`; the attributes are given or not.
pub open spec fn step(
    instrs: Seq<Instr>,
    ln: LocalNameView,
    m: Option<AttributeMatcher>,
    with_content: bool,
    s: RunState,
    addr: int,
) -> RunState {
    match instrs[addr].spec_exec(ln, m) {
        Ok(true) => add_branch(s, instrs[addr].branch(), with_content),
        _ => s,
    }
}

/// Tries the instructions at `addrs`, in order.
pub open spec fn run(
    instrs: Seq<Instr>,
    ln: LocalNameView,
    m: Option<AttributeMatcher>,
    with_content: bool,
    s: RunState,
    addrs: Seq<int>,
) -> RunState
    decreases addrs.len(),
{
    if addrs.len() == 0 {
        s
    } else {
        step(instrs, ln, m, with_content, run(instrs, ln, m, with_content, s, addrs.drop_last()), addrs.last())
    }
}

/// Every instruction at `addrs` decides without the attributes.
pub open spec fn decided(instrs: Seq<Instr>, ln: LocalNameView, addrs: Seq<int>) -> bool {
    forall|i: int| 0 <= i < addrs.len() ==> (#[trigger] instrs[addrs[i]]).spec_exec(ln, None) is Ok
}

/// The matcher answers for the given attributes of an element in the given namespace.
pub open spec fn matcher_for(m: AttributeMatcher, attributes: Seq<AttributeItem>, ns: Namespace) -> bool {
    m.attributes@ == attributes && m.is_html_element == (ns == Namespace::Html)
}

/// The match notifications for the payloads that `s1` gathered after `s0`.
pub open spec fn new_matches(s0: RunState, s1: RunState, with_content: bool) -> Seq<MatchInfo> {
    s1.payload.subrange(s0.payload.len() as int, s1.payload.len() as int).map_values(
        |p: usize| MatchInfo { payload: p, with_content },
    )
}

/// `s1` gathered what `s0` had, and maybe more.
pub open spec fn extends(s0: RunState, s1: RunState) -> bool {
    &&& s0.payload.len() <= s1.payload.len()
    &&& s1.payload.subrange(0, s0.payload.len() as int) == s0.payload
}

/// Whether an element can have content: not a void element, nor a self-closing foreign
/// one.
pub open spec fn spec_with_content(directive: StackDirective, self_closing: bool) -> bool {
    match directive {
        StackDirective::Push => true,
        StackDirective::PopImmediately => false,
        StackDirective::PushIfNotSelfClosing => !self_closing,
    }
}

/// The stack after a start tag: an element that can have content is pushed with what
/// its matching gathered.
pub open spec fn start_tag_done(
    before: Seq<StackItem>,
    after: Seq<StackItem>,
    ln: LocalNameView,
    s: RunState,
    with_content: bool,
) -> bool {
    if with_content {
        &&& after.len() == before.len() + 1
        &&& after.subrange(0, before.len() as int) == before
        &&& after.last().local_name@ == ln
        &&& after.last().element_data.matched_payload@ == s.payload
        &&& after.last().element_data.end_tag_handler_idx is None
        &&& !after.last().element_data.remove_content
        &&& after.last().jumps@ == s.jumps
        &&& after.last().hereditary_jumps@ == s.hereditary_jumps
        &&& after.last().has_ancestor_with_hereditary_jumps == (before.len() > 0 && (
            before.last().has_ancestor_with_hereditary_jumps || before.last().hereditary_jumps@.len() > 0))
    } else {
        after == before
    }
}

// ---------------------------------------------------------------------------
// Facts about runs

proof fn lemma_extends_refl(s: RunState)
    ensures
        extends(s, s),
{
    assert(s.payload.subrange(0, s.payload.len() as int) =~= s.payload);
}

proof fn lemma_add_payloads_extends(s: RunState, ps: Seq<usize>)
    ensures
        extends(s, add_payloads(s, ps)),
        add_payloads(s, ps).jumps == s.jumps,
        add_payloads(s, ps).hereditary_jumps == s.hereditary_jumps,
    decreases ps.len(),
{
    lemma_extends_refl(s);
    if ps.len() > 0 {
        lemma_add_payloads_extends(s, ps.drop_last());
        let s2 = add_payloads(s, ps.drop_last());
        assert(s2.payload.push(ps.last()).subrange(0, s.payload.len() as int) =~= s2.payload.subrange(0, s.payload.len() as int));
    }
}

proof fn lemma_extends_trans(s0: RunState, s1: RunState, s2: RunState)
    requires
        extends(s0, s1),
        extends(s1, s2),
    ensures
        extends(s0, s2),
{
    assert(s2.payload.subrange(0, s0.payload.len() as int) =~= s2.payload.subrange(0, s1.payload.len() as int).subrange(
        0,
        s0.payload.len() as int,
    ));
}

proof fn lemma_new_matches_trans(s0: RunState, s1: RunState, s2: RunState, wc: bool)
    requires
        extends(s0, s1),
        extends(s1, s2),
    ensures
        new_matches(s0, s2, wc) == new_matches(s0, s1, wc) + new_matches(s1, s2, wc),
{
    let a = s2.payload.subrange(s0.payload.len() as int, s2.payload.len() as int);
    let b = s1.payload.subrange(s0.payload.len() as int, s1.payload.len() as int);
    let c = s2.payload.subrange(s1.payload.len() as int, s2.payload.len() as int);
    assert(s1.payload =~= s2.payload.subrange(0, s1.payload.len() as int));
    assert(a =~= b + c);
    assert(new_matches(s0, s2, wc) =~= new_matches(s0, s1, wc) + new_matches(s1, s2, wc));
}

proof fn lemma_step_extends(
    instrs: Seq<Instr>,
    ln: LocalNameView,
    m: Option<AttributeMatcher>,
    wc: bool,
    s: RunState,
    addr: int,
)
    ensures
        extends(s, step(instrs, ln, m, wc, s, addr)),
{
    lemma_extends_refl(s);
    lemma_add_payloads_extends(s, instrs[addr].branch().matched_payload@);
}

proof fn lemma_run_extends(
    instrs: Seq<Instr>,
    ln: LocalNameView,
    m: Option<AttributeMatcher>,
    wc: bool,
    s: RunState,
    addrs: Seq<int>,
)
    ensures
        extends(s, run(instrs, ln, m, wc, s, addrs)),
    decreases addrs.len(),
{
    lemma_extends_refl(s);
    if addrs.len() > 0 {
        lemma_run_extends(instrs, ln, m, wc, s, addrs.drop_last());
        let s1 = run(instrs, ln, m, wc, s, addrs.drop_last());
        lemma_step_extends(instrs, ln, m, wc, s1, addrs.last());
        lemma_extends_trans(s, s1, step(instrs, ln, m, wc, s1, addrs.last()));
    }
}

/// Running two address lists one after the other runs their concatenation.
pub proof fn lemma_run_concat(
    instrs: Seq<Instr>,
    ln: LocalNameView,
    m: Option<AttributeMatcher>,
    wc: bool,
    s: RunState,
    a: Seq<int>,
    b: Seq<int>,
)
    ensures
        run(instrs, ln, m, wc, s, a + b) == run(instrs, ln, m, wc, run(instrs, ln, m, wc, s, a), b),
    decreases b.len(),
{
    if b.len() == 0 {
        assert(a + b =~= a);
    } else {
        assert((a + b).drop_last() =~= a + b.drop_last());
        lemma_run_concat(instrs, ln, m, wc, s, a, b.drop_last());
    }
}

proof fn lemma_run_push(
    instrs: Seq<Instr>,
    ln: LocalNameView,
    m: Option<AttributeMatcher>,
    wc: bool,
    s: RunState,
    a: Seq<int>,
    x: int,
)
    ensures
        run(instrs, ln, m, wc, s, a.push(x)) == step(instrs, ln, m, wc, run(instrs, ln, m, wc, s, a), x),
{
    assert(a.push(x).drop_last() =~= a);
}

/// Where every instruction decides without the attributes, the attributes change
/// nothing.
pub proof fn lemma_decided_run(
    instrs: Seq<Instr>,
    ln: LocalNameView,
    m: AttributeMatcher,
    wc: bool,
    s: RunState,
    addrs: Seq<int>,
)
    requires
        decided(instrs, ln, addrs),
    ensures
        run(instrs, ln, Some(m), wc, s, addrs) == run(instrs, ln, None, wc, s, addrs),
    decreases addrs.len(),
{
    if addrs.len() > 0 {
        assert(decided(instrs, ln, addrs.drop_last())) by {
            assert forall|i: int| 0 <= i < addrs.drop_last().len() implies (#[trigger] instrs[addrs.drop_last()[i]]).spec_exec(ln, None) is Ok by {
                assert(addrs.drop_last()[i] == addrs[i]);
            }
        }
        lemma_decided_run(instrs, ln, m, wc, s, addrs.drop_last());
        let last = addrs.last();
        assert(instrs[addrs[addrs.len() - 1]].spec_exec(ln, None) is Ok);
        lemma_exec_without_attrs_is_final(instrs[last], ln, m);
    }
}

/// Two matchers for the same attributes decide alike.
pub proof fn lemma_run_same_matcher(
    instrs: Seq<Instr>,
    ln: LocalNameView,
    m1: AttributeMatcher,
    m2: AttributeMatcher,
    wc: bool,
    s: RunState,
    addrs: Seq<int>,
)
    requires
        m1.attributes@ == m2.attributes@,
        m1.is_html_element == m2.is_html_element,
    ensures
        run(instrs, ln, Some(m1), wc, s, addrs) == run(instrs, ln, Some(m2), wc, s, addrs),
    decreases addrs.len(),
{
    if addrs.len() > 0 {
        lemma_run_same_matcher(instrs, ln, m1, m2, wc, s, addrs.drop_last());
        let instr = instrs[addrs.last()];
        match instr {
            Instr::AttrExprMatching(i) => {
                assert(program::all_attr(i.exprs@, m1) == program::all_attr(i.exprs@, m2)) by {
                    assert forall|k: int| 0 <= k < i.exprs@.len() implies program::eval_attr(#[trigger] i.exprs@[k], m1)
                        == program::eval_attr(i.exprs@[k], m2) by {}
                }
            },
            Instr::Generic(i) => {
                assert(program::all_attr(i.attr_exprs@, m1) == program::all_attr(i.attr_exprs@, m2)) by {
                    assert forall|k: int| 0 <= k < i.attr_exprs@.len() implies program::eval_attr(#[trigger] i.attr_exprs@[k], m1)
                        == program::eval_attr(i.attr_exprs@[k], m2) by {}
                }
            },
            _ => {},
        }
    }
}

/// The addresses of a range are those from its start.
proof fn lemma_range_from_zero(r: AddressRange)
    requires
        r.start <= r.end,
    ensures
        range_from(r, 0) == range_addrs(r),
{
    assert(range_from(r, 0) =~= range_addrs(r));
}

/// The ranges all lie in the program and hold compiled instructions.
pub open spec fn ranges_wf(instrs: Seq<Instr>, rs: Seq<AddressRange>) -> bool {
    forall|k: int| 0 <= k < rs.len() ==> range_wf(instrs, #[trigger] rs[k])
}

/// The jumps of the item lie in the program.
pub open spec fn item_wf(instrs: Seq<Instr>, item: StackItem) -> bool {
    &&& ranges_wf(instrs, item.jumps@)
    &&& ranges_wf(instrs, item.hereditary_jumps@)
}

/// The jumps of every item lie in the program.
pub open spec fn items_wf(instrs: Seq<Instr>, items: Seq<StackItem>) -> bool {
    forall|k: int| 0 <= k < items.len() ==> item_wf(instrs, #[trigger] items[k])
}

/// Every address of the ranges lies in the program and holds a compiled instruction.
pub open spec fn addrs_wf(instrs: Seq<Instr>, addrs: Seq<int>) -> bool {
    forall|i: int| 0 <= i < addrs.len() ==> 0 <= #[trigger] addrs[i] < instrs.len() && instrs[addrs[i]].is_compiled()
}

// ---------------------------------------------------------------------------
// The matching of one element

/// The matching of one element in progress: the stack item it will become, whether the
/// element can have content and its namespace.
#[derive(Debug)]
pub struct ExecutionCtx {
    pub stack_item: StackItem,
    pub with_content: bool,
    pub ns: Namespace,
}

impl ExecutionCtx {
    /// What the matching has gathered so far.
    pub open spec fn state(&self) -> RunState {
        RunState {
            payload: self.stack_item.element_data.matched_payload@,
            jumps: self.stack_item.jumps@,
            hereditary_jumps: self.stack_item.hereditary_jumps@,
        }
    }

    /// The two contexts are for the same element: all but what matching gathers agrees.
    pub open spec fn same_element(&self, other: &ExecutionCtx) -> bool {
        &&& self.stack_item.local_name == other.stack_item.local_name
        &&& self.stack_item.element_data.end_tag_handler_idx == other.stack_item.element_data.end_tag_handler_idx
        &&& self.stack_item.element_data.remove_content == other.stack_item.element_data.remove_content
        &&& self.stack_item.has_ancestor_with_hereditary_jumps == other.stack_item.has_ancestor_with_hereditary_jumps
        &&& self.with_content == other.with_content
        &&& self.ns == other.ns
    }

    /// The context for an element that nothing was matched against yet.
    pub fn new(local_name: LocalName, ns: Namespace) -> (r: ExecutionCtx)
        ensures
            r.state() == empty_run(),
            r.stack_item.local_name == local_name,
            r.stack_item.element_data.end_tag_handler_idx is None,
            !r.stack_item.element_data.remove_content,
            !r.stack_item.has_ancestor_with_hereditary_jumps,
            r.with_content,
            r.ns == ns,
    {
        let r = ExecutionCtx { stack_item: StackItem::new(local_name), with_content: true, ns };
        proof {
            assert(r.state().payload =~= Seq::<usize>::empty());
            assert(r.state().jumps =~= Seq::<AddressRange>::empty());
            assert(r.state().hereditary_jumps =~= Seq::<AddressRange>::empty());
        }
        r
    }

    /// Takes the branch of a matching instruction: notifies the payloads that the
    /// element did not match yet and, where the element can have content, keeps the
    /// jumps for its children and descendants.
    pub fn add_execution_branch(&mut self, branch: &ExecutionBranch, matches: &mut Vec<MatchInfo>)
        ensures
            final(self).state() == add_branch(old(self).state(), *branch, old(self).with_content),
            final(self).same_element(old(self)),
            final(matches)@ == old(matches)@ + new_matches(old(self).state(), final(self).state(), old(self).with_content),
    {
        let ghost s0 = self.state();
        let ghost ps = branch.matched_payload@;
        let mut i: usize = 0;
        proof {
            assert(ps.take(0) =~= Seq::<usize>::empty());
            lemma_extends_refl(s0);
            assert(new_matches(s0, s0, self.with_content) =~= Seq::<MatchInfo>::empty());
            assert(old(matches)@ + Seq::<MatchInfo>::empty() =~= old(matches)@);
        }
        while i < branch.matched_payload.len()
            invariant
                i <= ps.len(),
                ps == branch.matched_payload@,
                self.same_element(old(self)),
                self.state() == add_payloads(s0, ps.take(i as int)),
                s0 == old(self).state(),
                matches@ == old(matches)@ + new_matches(s0, self.state(), self.with_content),
            decreases ps.len() - i,
        {
            let p = branch.matched_payload[i];
            let ghost s1 = self.state();
            proof {
                assert(ps.take(i + 1).drop_last() =~= ps.take(i as int));
                lemma_add_payloads_extends(s0, ps.take(i as int));
            }
            if !contains(&self.stack_item.element_data.matched_payload, p) {
                matches.push(MatchInfo { payload: p, with_content: self.with_content });
                self.stack_item.element_data.matched_payload.push(p);
                proof {
                    let s2 = self.state();
                    assert(s2.payload.subrange(s0.payload.len() as int, s2.payload.len() as int) =~= s1.payload.subrange(
                        s0.payload.len() as int,
                        s1.payload.len() as int,
                    ).push(p));
                    assert(new_matches(s0, s2, self.with_content) =~= new_matches(s0, s1, self.with_content).push(
                        MatchInfo { payload: p, with_content: self.with_content },
                    ));
                }
            }
            i = i + 1;
        }
        proof {
            assert(ps.take(ps.len() as int) =~= ps);
        }
        let ghost s3 = self.state();
        if self.with_content {
            match branch.jumps {
                Some(j) => self.stack_item.jumps.push(j),
                None => {},
            }
            match branch.hereditary_jumps {
                Some(h) => self.stack_item.hereditary_jumps.push(h),
                None => {},
            }
        }
        proof {
            assert(new_matches(s0, self.state(), self.with_content) =~= new_matches(s0, s3, self.with_content));
        }
    }

    /// The context, detached from the input it was read from.
    pub fn into_owned(self) -> (r: ExecutionCtx)
        ensures
            r == self,
    {
        self
    }
}

fn contains(payload: &Vec<usize>, p: usize) -> (r: bool)
    ensures
        r == payload@.contains(p),
{
    let mut i: usize = 0;
    while i < payload.len()
        invariant
            i <= payload@.len(),
            forall|k: int| 0 <= k < i ==> payload@[k] != p,
        decreases payload@.len() - i,
    {
        if payload[i] == p {
            return true;
        }
        i = i + 1;
    }
    false
}

// ---------------------------------------------------------------------------
// Bailouts: where the attributes are needed

/// Where, in the list of instruction sets of an element, matching went on after the
/// instruction that needed the attributes.
#[derive(Debug, Copy, Clone, PartialEq, Eq, Structural)]
pub struct JumpPtr {
    pub instr_set_idx: usize,
    pub offset: usize,
}

/// Where, among the hereditary jumps of the ancestors, matching went on after the
/// instruction that needed the attributes.
#[derive(Debug, Copy, Clone, PartialEq, Eq, Structural)]
pub struct HereditaryJumpPtr {
    pub stack_offset: usize,
    pub instr_set_idx: usize,
    pub offset: usize,
}

/// An instruction needed the attributes: its address and where to go on from.
#[derive(Debug, Copy, Clone, PartialEq, Eq, Structural)]
pub struct Bailout<T> {
    pub at_addr: usize,
    pub recovery_point: T,
}

/// Where to go on after completing the instruction that needed the attributes.
#[derive(Debug, Copy, Clone, PartialEq, Eq, Structural)]
pub enum RecoveryPoint {
    EntryPoints(usize),
    Jumps(JumpPtr),
    HereditaryJumps(HereditaryJumpPtr),
}

/// The addresses of the parent's jumps from the pointed address on.
pub open spec fn jumps_from(items: Seq<StackItem>, ptr: JumpPtr) -> Seq<int> {
    if items.len() == 0 {
        Seq::empty()
    } else {
        ranges_from(items.last().jumps@, ptr.instr_set_idx as int, ptr.offset as int)
    }
}

/// The addresses of the ancestors' hereditary jumps from the pointed address on.
pub open spec fn hereditary_from(items: Seq<StackItem>, ptr: HereditaryJumpPtr) -> Seq<int> {
    if ptr.stack_offset >= items.len() {
        Seq::empty()
    } else {
        let a = items.len() - 1 - ptr.stack_offset;
        ranges_from(items[a].hereditary_jumps@, ptr.instr_set_idx as int, ptr.offset as int) + if items[a].has_ancestor_with_hereditary_jumps {
            hereditary_addrs(items, a)
        } else {
            Seq::empty()
        }
    }
}

/// A bailout in a list of addresses `phase` whose remainder is `rest`: the address is
/// the one before the remainder, every address before it decided without the
/// attributes, and the address itself did not.
pub open spec fn bailed_out(
    instrs: Seq<Instr>,
    ln: LocalNameView,
    phase: Seq<int>,
    rest: Seq<int>,
    at_addr: int,
) -> bool {
    let p = phase.len() - rest.len() - 1;
    &&& 0 <= p < phase.len()
    &&& phase[p] == at_addr
    &&& phase.subrange(p + 1, phase.len() as int) == rest
    &&& decided(instrs, ln, phase.take(p))
    &&& instrs[at_addr].spec_exec(ln, None) is Err
}

/// The addresses before the bailout.
pub open spec fn before_bailout(phase: Seq<int>, rest: Seq<int>) -> Seq<int> {
    phase.take(phase.len() - rest.len() - 1)
}

proof fn lemma_ranges_concat(a: Seq<AddressRange>, b: Seq<AddressRange>)
    ensures
        ranges_addrs(a + b) == ranges_addrs(a) + ranges_addrs(b),
    decreases b.len(),
{
    if b.len() == 0 {
        assert(a + b =~= a);
        assert(ranges_addrs(a) + ranges_addrs(b) =~= ranges_addrs(a));
    } else {
        assert((a + b).drop_last() =~= a + b.drop_last());
        lemma_ranges_concat(a, b.drop_last());
        assert(ranges_addrs(a) + ranges_addrs(b.drop_last()) + range_addrs(b.last()) =~= ranges_addrs(a) + ranges_addrs(b));
    }
}

/// The addresses of a list of ranges split at the `i`-th range.
proof fn lemma_ranges_split(rs: Seq<AddressRange>, i: int)
    requires
        0 <= i < rs.len(),
    ensures
        ranges_addrs(rs) == ranges_addrs(rs.take(i)) + range_addrs(rs[i]) + ranges_addrs(rs.subrange(i + 1, rs.len() as int)),
        ranges_addrs(rs.take(i + 1)) == ranges_addrs(rs.take(i)) + range_addrs(rs[i]),
{
    assert(rs =~= rs.take(i + 1) + rs.subrange(i + 1, rs.len() as int));
    lemma_ranges_concat(rs.take(i + 1), rs.subrange(i + 1, rs.len() as int));
    assert(rs.take(i + 1).drop_last() =~= rs.take(i));
}

/// Starting from the first address of the first range gives all addresses.
proof fn lemma_ranges_from_start(rs: Seq<AddressRange>)
    requires
        forall|k: int| 0 <= k < rs.len() ==> (#[trigger] rs[k]).start <= rs[k].end,
    ensures
        ranges_from(rs, 0, 0) == ranges_addrs(rs),
{
    if rs.len() > 0 {
        lemma_ranges_split(rs, 0);
        lemma_range_from_zero(rs[0]);
        assert(ranges_addrs(rs.take(0)) =~= Seq::<int>::empty());
        assert(ranges_addrs(rs) =~= range_addrs(rs[0]) + ranges_addrs(rs.subrange(1, rs.len() as int)));
    }
}

proof fn lemma_decided_concat(instrs: Seq<Instr>, ln: LocalNameView, a: Seq<int>, b: Seq<int>)
    requires
        decided(instrs, ln, a),
        decided(instrs, ln, b),
    ensures
        decided(instrs, ln, a + b),
{
    assert forall|i: int| 0 <= i < (a + b).len() implies (#[trigger] instrs[(a + b)[i]]).spec_exec(ln, None) is Ok by {
        if i < a.len() {
            assert((a + b)[i] == a[i]);
        } else {
            assert((a + b)[i] == b[i - a.len()]);
        }
    }
}

proof fn lemma_addrs_wf_range(instrs: Seq<Instr>, r: AddressRange)
    requires
        range_wf(instrs, r),
    ensures
        addrs_wf(instrs, range_addrs(r)),
{
}

proof fn lemma_addrs_wf_ranges(instrs: Seq<Instr>, rs: Seq<AddressRange>)
    requires
        ranges_wf(instrs, rs),
    ensures
        addrs_wf(instrs, ranges_addrs(rs)),
    decreases rs.len(),
{
    if rs.len() > 0 {
        lemma_addrs_wf_ranges(instrs, rs.drop_last());
        assert(range_wf(instrs, rs[rs.len() - 1]));
        let a = ranges_addrs(rs.drop_last());
        let b = range_addrs(rs.last());
        assert forall|i: int| 0 <= i < (a + b).len() implies 0 <= #[trigger] (a + b)[i] < instrs.len()
            && instrs[(a + b)[i]].is_compiled() by {
            if i < a.len() {
                assert((a + b)[i] == a[i]);
            } else {
                assert((a + b)[i] == b[i - a.len()]);
            }
        }
    }
}

proof fn lemma_ranges_wf_push(instrs: Seq<Instr>, rs: Seq<AddressRange>, r: Option<AddressRange>)
    requires
        ranges_wf(instrs, rs),
        opt_range_wf(instrs, r),
    ensures
        ranges_wf(instrs, push_range(rs, r)),
{
    match r {
        Some(r) => {
            assert forall|k: int| 0 <= k < rs.push(r).len() implies range_wf(instrs, #[trigger] rs.push(r)[k]) by {
                if k < rs.len() {
                    assert(rs.push(r)[k] == rs[k]);
                }
            }
        },
        None => {},
    }
}

/// A bailout within a phase stays one when more addresses come before and after it.
proof fn lemma_bailout_compose(
    instrs: Seq<Instr>,
    ln: LocalNameView,
    pre: Seq<int>,
    inner: Seq<int>,
    rest: Seq<int>,
    post: Seq<int>,
    at_addr: int,
)
    requires
        decided(instrs, ln, pre),
        bailed_out(instrs, ln, inner, rest, at_addr),
    ensures
        bailed_out(instrs, ln, pre + inner + post, rest + post, at_addr),
        before_bailout(pre + inner + post, rest + post) == pre + before_bailout(inner, rest),
{
    let p = inner.len() - rest.len() - 1;
    let whole = pre + inner + post;
    let q = whole.len() - (rest + post).len() - 1;
    assert(q == pre.len() + p);
    assert(whole[q] == inner[p]);
    assert(whole.subrange(q + 1, whole.len() as int) =~= rest + post) by {
        assert(inner.subrange(p + 1, inner.len() as int) == rest);
        assert forall|i: int| 0 <= i < (rest + post).len() implies #[trigger] whole.subrange(q + 1, whole.len() as int)[i]
            == (rest + post)[i] by {
            if i < rest.len() {
                assert(whole[q + 1 + i] == inner[p + 1 + i]);
                assert(inner.subrange(p + 1, inner.len() as int)[i] == inner[p + 1 + i]);
            }
        }
    }
    assert(whole.take(q) =~= pre + inner.take(p));
    lemma_decided_concat(instrs, ln, pre, inner.take(p));
}

// ---------------------------------------------------------------------------
// The machine

/// What a start tag's matching needs when the attributes turn out to be needed: the
/// attributes as written, and whether the tag is self-closing.
#[derive(Debug)]
pub struct AuxStartTagInfo {
    pub attributes: Vec<AttributeItem>,
    pub self_closing: bool,
}

/// Matches start tags against the compiled selectors, keeping the stack of open
/// elements.
#[derive(Debug)]
pub struct SelectorMatchingVm {
    program: Program,
    stack: Stack,
    enable_esi_tags: bool,
}

impl SelectorMatchingVm {
    /// The instructions of the program.
    pub closed spec fn instrs(&self) -> Seq<Instr> {
        self.program.instructions@
    }

    /// The addresses where matching starts for every element.
    pub closed spec fn entry_points(&self) -> AddressRange {
        self.program.entry_points
    }

    /// The open elements, the deepest last.
    pub closed spec fn items(&self) -> Seq<StackItem> {
        self.stack.items@
    }

    /// Whether ESI tags are known void elements.
    pub closed spec fn esi(&self) -> bool {
        self.enable_esi_tags
    }

    /// The program is well formed and every open element jumps into it.
    pub closed spec fn inv(&self) -> bool {
        &&& self.program.wf()
        &&& items_wf(self.program.instructions@, self.stack.items@)
        &&& self.stack.wf()
    }

    /// The addresses tried for the next start tag.
    pub open spec fn addrs(&self) -> Seq<int> {
        all_addrs(self.entry_points(), self.items())
    }

    /// What matching the next start tag gathers.
    pub open spec fn start_tag_run(&self, ln: LocalNameView, m: Option<AttributeMatcher>, with_content: bool) -> RunState {
        run(self.instrs(), ln, m, with_content, empty_run(), self.addrs())
    }

    /// How the next start tag is treated on the stack.
    pub open spec fn directive(&self, ln: LocalName, ns: Namespace) -> StackDirective {
        spec_stack_directive(ln, ns, self.esi())
    }

    /// Tries the instructions of a range without the attributes, up to the first one
    /// that needs them.
    fn try_exec_instr_set_without_attrs(
        &self,
        addr_range: AddressRange,
        ctx: &mut ExecutionCtx,
        matches: &mut Vec<MatchInfo>,
    ) -> (res: Result<(), Bailout<usize>>)
        requires
            self.inv(),
            range_wf(self.instrs(), addr_range),
            item_wf(self.instrs(), old(ctx).stack_item),
        ensures
            final(ctx).same_element(old(ctx)),
            item_wf(self.instrs(), final(ctx).stack_item),
            final(matches)@ == old(matches)@ + new_matches(old(ctx).state(), final(ctx).state(), old(ctx).with_content),
            match res {
                Ok(()) => final(ctx).state() == run(self.instrs(), old(ctx).stack_item.local_name@, None,
                    old(ctx).with_content, old(ctx).state(), range_addrs(addr_range))
                    && decided(self.instrs(), old(ctx).stack_item.local_name@, range_addrs(addr_range)),
                Err(b) => 1 <= b.recovery_point <= addr_range.end - addr_range.start
                    && bailed_out(self.instrs(), old(ctx).stack_item.local_name@, range_addrs(addr_range),
                        range_from(addr_range, b.recovery_point as int), b.at_addr as int)
                    && final(ctx).state() == run(self.instrs(), old(ctx).stack_item.local_name@, None,
                        old(ctx).with_content, old(ctx).state(),
                        before_bailout(range_addrs(addr_range), range_from(addr_range, b.recovery_point as int))),
            },
    {
        let ghost instrs = self.instrs();
        let ghost ln = ctx.stack_item.local_name@;
        let ghost wc = ctx.with_content;
        let ghost s0 = ctx.state();
        let ghost addrs = range_addrs(addr_range);
        let len = addr_range.end - addr_range.start;
        let mut i: usize = 0;
        proof {
            assert(addrs.take(0) =~= Seq::<int>::empty());
            lemma_extends_refl(s0);
            assert(new_matches(s0, s0, wc) =~= Seq::<MatchInfo>::empty());
            assert(old(matches)@ + Seq::<MatchInfo>::empty() =~= old(matches)@);
        }
        while i < len
            invariant
                self.inv(),
                range_wf(instrs, addr_range),
                instrs == self.instrs(),
                len == addr_range.end - addr_range.start,
                addrs == range_addrs(addr_range),
                i <= len,
                ln == ctx.stack_item.local_name@,
                wc == ctx.with_content,
                s0 == old(ctx).state(),
                ctx.same_element(old(ctx)),
                item_wf(instrs, ctx.stack_item),
                ctx.state() == run(instrs, ln, None, wc, s0, addrs.take(i as int)),
                decided(instrs, ln, addrs.take(i as int)),
                matches@ == old(matches)@ + new_matches(s0, ctx.state(), wc),
            decreases len - i,
        {
            let addr = addr_range.start + i;
            let ghost s1 = ctx.state();
            proof {
                assert(addrs.take(i as int).push(addr as int) =~= addrs.take(i + 1));
                lemma_run_push(instrs, ln, None, wc, s0, addrs.take(i as int), addr as int);
                lemma_run_extends(instrs, ln, None, wc, s0, addrs.take(i as int));
                assert(instrs[addr as int].is_compiled());
            }
            let instr = &self.program.instructions[addr];
            match instr.exec(&ctx.stack_item.local_name, None) {
                Ok(Some(branch)) => {
                    proof {
                        assert(opt_range_wf(instrs, branch.jumps));
                        assert(opt_range_wf(instrs, branch.hereditary_jumps));
                    }
                    ctx.add_execution_branch(branch, matches);
                    proof {
                        lemma_add_payloads_extends(s1, branch.matched_payload@);
                        lemma_new_matches_trans(s0, s1, ctx.state(), wc);
                    }
                },
                Ok(None) => {},
                Err(_) => {
                    proof {
                        assert(addrs.subrange(i + 1, len as int) =~= range_from(addr_range, i + 1));
                        assert(before_bailout(addrs, range_from(addr_range, i + 1)) =~= addrs.take(i as int));
                    }
                    return Err(Bailout { at_addr: addr, recovery_point: i + 1 });
                },
            }
            proof {
                assert forall|k: int| 0 <= k < addrs.take(i + 1).len() implies (#[trigger] instrs[addrs.take(i + 1)[k]]).spec_exec(ln, None) is Ok by {
                    if k < i {
                        assert(addrs.take(i + 1)[k] == addrs.take(i as int)[k]);
                    }
                }
            }
            i = i + 1;
        }
        proof {
            assert(addrs.take(len as int) =~= addrs);
        }
        Ok(())
    }

    /// Tries the instructions of a range with the attributes, from the `offset`-th on.
    fn exec_instr_set_with_attrs(
        &self,
        addr_range: AddressRange,
        attr_matcher: &AttributeMatcher,
        ctx: &mut ExecutionCtx,
        offset: usize,
        matches: &mut Vec<MatchInfo>,
    )
        requires
            self.inv(),
            range_wf(self.instrs(), addr_range),
            offset <= addr_range.end - addr_range.start,
            item_wf(self.instrs(), old(ctx).stack_item),
        ensures
            final(ctx).same_element(old(ctx)),
            item_wf(self.instrs(), final(ctx).stack_item),
            final(matches)@ == old(matches)@ + new_matches(old(ctx).state(), final(ctx).state(), old(ctx).with_content),
            final(ctx).state() == run(self.instrs(), old(ctx).stack_item.local_name@, Some(*attr_matcher),
                old(ctx).with_content, old(ctx).state(), range_from(addr_range, offset as int)),
    {
        let ghost instrs = self.instrs();
        let ghost ln = ctx.stack_item.local_name@;
        let ghost wc = ctx.with_content;
        let ghost s0 = ctx.state();
        let ghost m = Some(*attr_matcher);
        let ghost addrs = range_from(addr_range, offset as int);
        let len = addr_range.end - addr_range.start - offset;
        let mut i: usize = 0;
        proof {
            assert(addrs.take(0) =~= Seq::<int>::empty());
            lemma_extends_refl(s0);
            assert(new_matches(s0, s0, wc) =~= Seq::<MatchInfo>::empty());
            assert(old(matches)@ + Seq::<MatchInfo>::empty() =~= old(matches)@);
        }
        while i < len
            invariant
                self.inv(),
                range_wf(instrs, addr_range),
                instrs == self.instrs(),
                offset <= addr_range.end - addr_range.start,
                len == addr_range.end - addr_range.start - offset,
                addrs == range_from(addr_range, offset as int),
                m == Some(*attr_matcher),
                i <= len,
                ln == ctx.stack_item.local_name@,
                wc == ctx.with_content,
                s0 == old(ctx).state(),
                ctx.same_element(old(ctx)),
                item_wf(instrs, ctx.stack_item),
                ctx.state() == run(instrs, ln, m, wc, s0, addrs.take(i as int)),
                matches@ == old(matches)@ + new_matches(s0, ctx.state(), wc),
            decreases len - i,
        {
            let addr = addr_range.start + offset + i;
            let ghost s1 = ctx.state();
            proof {
                assert(addrs.take(i as int).push(addr as int) =~= addrs.take(i + 1));
                lemma_run_push(instrs, ln, m, wc, s0, addrs.take(i as int), addr as int);
                lemma_run_extends(instrs, ln, m, wc, s0, addrs.take(i as int));
                assert(instrs[addr as int].is_compiled());
            }
            let instr = &self.program.instructions[addr];
            match instr.exec(&ctx.stack_item.local_name, Some(attr_matcher)) {
                Ok(Some(branch)) => {
                    proof {
                        assert(opt_range_wf(instrs, branch.jumps));
                        assert(opt_range_wf(instrs, branch.hereditary_jumps));
                    }
                    ctx.add_execution_branch(branch, matches);
                    proof {
                        lemma_add_payloads_extends(s1, branch.matched_payload@);
                        lemma_new_matches_trans(s0, s1, ctx.state(), wc);
                    }
                },
                _ => {},
            }
            i = i + 1;
        }
        proof {
            assert(addrs.take(len as int) =~= addrs);
        }
    }

    /// Completes, with the attributes, the instruction that needed them.
    fn complete_instr_execution_with_attrs(
        &self,
        addr: usize,
        attr_matcher: &AttributeMatcher,
        ctx: &mut ExecutionCtx,
        matches: &mut Vec<MatchInfo>,
    )
        requires
            self.inv(),
            addr < self.instrs().len(),
            self.instrs()[addr as int].is_compiled(),
            self.instrs()[addr as int].spec_exec(old(ctx).stack_item.local_name@, None) is Err,
            item_wf(self.instrs(), old(ctx).stack_item),
        ensures
            final(ctx).same_element(old(ctx)),
            item_wf(self.instrs(), final(ctx).stack_item),
            final(matches)@ == old(matches)@ + new_matches(old(ctx).state(), final(ctx).state(), old(ctx).with_content),
            final(ctx).state() == step(self.instrs(), old(ctx).stack_item.local_name@, Some(*attr_matcher),
                old(ctx).with_content, old(ctx).state(), addr as int),
    {
        proof {
            lemma_exec_with_attrs_completes(self.instrs()[addr as int], ctx.stack_item.local_name@, *attr_matcher);
        }
        let instr = &self.program.instructions[addr];
        match instr.exec_with_attrs(attr_matcher) {
            Some(branch) => {
                proof {
                    assert(opt_range_wf(self.instrs(), branch.jumps));
                    assert(opt_range_wf(self.instrs(), branch.hereditary_jumps));
                    lemma_ranges_wf_push(self.instrs(), ctx.stack_item.jumps@, branch.jumps);
                    lemma_ranges_wf_push(self.instrs(), ctx.stack_item.hereditary_jumps@, branch.hereditary_jumps);
                    lemma_add_payloads_extends(ctx.state(), branch.matched_payload@);
                }
                ctx.add_execution_branch(branch, matches);
            },
            None => {
                proof {
                    lemma_extends_refl(ctx.state());
                    assert(new_matches(ctx.state(), ctx.state(), ctx.with_content) =~= Seq::<MatchInfo>::empty());
                    assert(old(matches)@ + Seq::<MatchInfo>::empty() =~= old(matches)@);
                }
            },
        }
    }

    /// Tries the instruction sets `rs`, in order, without the attributes, up to the
    /// first instruction that needs them.
    fn try_exec_instr_sets_without_attrs(
        &self,
        rs: &Vec<AddressRange>,
        ctx: &mut ExecutionCtx,
        matches: &mut Vec<MatchInfo>,
    ) -> (res: Result<(), Bailout<JumpPtr>>)
        requires
            self.inv(),
            ranges_wf(self.instrs(), rs@),
            item_wf(self.instrs(), old(ctx).stack_item),
        ensures
            final(ctx).same_element(old(ctx)),
            item_wf(self.instrs(), final(ctx).stack_item),
            final(matches)@ == old(matches)@ + new_matches(old(ctx).state(), final(ctx).state(), old(ctx).with_content),
            match res {
                Ok(()) => final(ctx).state() == run(self.instrs(), old(ctx).stack_item.local_name@, None,
                    old(ctx).with_content, old(ctx).state(), ranges_addrs(rs@))
                    && decided(self.instrs(), old(ctx).stack_item.local_name@, ranges_addrs(rs@)),
                Err(b) => sets_ptr_valid(rs@, b.recovery_point)
                    && bailed_out(self.instrs(), old(ctx).stack_item.local_name@, ranges_addrs(rs@),
                        ranges_from(rs@, b.recovery_point.instr_set_idx as int, b.recovery_point.offset as int),
                        b.at_addr as int)
                    && final(ctx).state() == run(self.instrs(), old(ctx).stack_item.local_name@, None,
                        old(ctx).with_content, old(ctx).state(),
                        before_bailout(ranges_addrs(rs@),
                            ranges_from(rs@, b.recovery_point.instr_set_idx as int, b.recovery_point.offset as int))),
            },
    {
        let ghost instrs = self.instrs();
        let ghost ln = ctx.stack_item.local_name@;
        let ghost wc = ctx.with_content;
        let ghost s0 = ctx.state();
        proof {
            lemma_extends_refl(s0);
            assert(new_matches(s0, s0, wc) =~= Seq::<MatchInfo>::empty());
            assert(old(matches)@ + Seq::<MatchInfo>::empty() =~= old(matches)@);
            assert(rs@.take(0) =~= Seq::<AddressRange>::empty());
            assert(ranges_addrs(rs@.take(0)) =~= Seq::<int>::empty());
        }
        let mut i: usize = 0;
        while i < rs.len()
            invariant
                self.inv(),
                instrs == self.instrs(),
                ranges_wf(instrs, rs@),
                i <= rs@.len(),
                ln == ctx.stack_item.local_name@,
                wc == ctx.with_content,
                s0 == old(ctx).state(),
                ctx.same_element(old(ctx)),
                item_wf(instrs, ctx.stack_item),
                ctx.state() == run(instrs, ln, None, wc, s0, ranges_addrs(rs@.take(i as int))),
                decided(instrs, ln, ranges_addrs(rs@.take(i as int))),
                matches@ == old(matches)@ + new_matches(s0, ctx.state(), wc),
            decreases rs@.len() - i,
        {
            let ghost s1 = ctx.state();
            let ghost done = ranges_addrs(rs@.take(i as int));
            proof {
                assert(range_wf(instrs, rs@[i as int]));
                lemma_ranges_split(rs@, i as int);
                lemma_run_extends(instrs, ln, None, wc, s0, done);
            }
            match self.try_exec_instr_set_without_attrs(rs[i], ctx, matches) {
                Ok(()) => {
                    proof {
                        lemma_run_concat(instrs, ln, None, wc, s0, done, range_addrs(rs@[i as int]));
                        lemma_decided_concat(instrs, ln, done, range_addrs(rs@[i as int]));
                        lemma_run_extends(instrs, ln, None, wc, s1, range_addrs(rs@[i as int]));
                        lemma_new_matches_trans(s0, s1, ctx.state(), wc);
                    }
                },
                Err(b) => {
                    let ptr = JumpPtr { instr_set_idx: i, offset: b.recovery_point };
                    proof {
                        let inner = range_addrs(rs@[i as int]);
                        let rest = range_from(rs@[i as int], b.recovery_point as int);
                        let post = ranges_addrs(rs@.subrange(i + 1, rs@.len() as int));
                        lemma_bailout_compose(instrs, ln, done, inner, rest, post, b.at_addr as int);
                        assert(ranges_from(rs@, i as int, b.recovery_point as int) == rest + post);
                        lemma_run_concat(instrs, ln, None, wc, s0, done, before_bailout(inner, rest));
                        lemma_run_extends(instrs, ln, None, wc, s1, before_bailout(inner, rest));
                        lemma_new_matches_trans(s0, s1, ctx.state(), wc);
                    }
                    return Err(Bailout { at_addr: b.at_addr, recovery_point: ptr });
                },
            }
            i = i + 1;
        }
        proof {
            assert(rs@.take(rs@.len() as int) =~= rs@);
        }
        Ok(())
    }

    /// Tries the instruction sets `rs` with the attributes, from the pointed address on.
    fn exec_instr_sets_with_attrs(
        &self,
        rs: &Vec<AddressRange>,
        attr_matcher: &AttributeMatcher,
        ctx: &mut ExecutionCtx,
        ptr: JumpPtr,
        matches: &mut Vec<MatchInfo>,
    )
        requires
            self.inv(),
            ranges_wf(self.instrs(), rs@),
            sets_ptr_in_bounds(rs@, ptr),
            item_wf(self.instrs(), old(ctx).stack_item),
        ensures
            final(ctx).same_element(old(ctx)),
            item_wf(self.instrs(), final(ctx).stack_item),
            final(matches)@ == old(matches)@ + new_matches(old(ctx).state(), final(ctx).state(), old(ctx).with_content),
            final(ctx).state() == run(self.instrs(), old(ctx).stack_item.local_name@, Some(*attr_matcher),
                old(ctx).with_content, old(ctx).state(), ranges_from(rs@, ptr.instr_set_idx as int, ptr.offset as int)),
    {
        let ghost instrs = self.instrs();
        let ghost ln = ctx.stack_item.local_name@;
        let ghost wc = ctx.with_content;
        let ghost s0 = ctx.state();
        let ghost m = Some(*attr_matcher);
        proof {
            lemma_extends_refl(s0);
            assert(new_matches(s0, s0, wc) =~= Seq::<MatchInfo>::empty());
            assert(old(matches)@ + Seq::<MatchInfo>::empty() =~= old(matches)@);
        }
        if ptr.instr_set_idx >= rs.len() {
            return;
        }
        let idx = ptr.instr_set_idx;
        proof {
            assert(range_wf(instrs, rs@[idx as int]));
        }
        self.exec_instr_set_with_attrs(rs[idx], attr_matcher, ctx, ptr.offset, matches);
        let ghost first = range_from(rs@[idx as int], ptr.offset as int);
        let mut j: usize = idx + 1;
        proof {
            assert(rs@.subrange(idx + 1, idx + 1) =~= Seq::<AddressRange>::empty());
            assert(first + ranges_addrs(rs@.subrange(idx + 1, idx + 1)) =~= first);
        }
        while j < rs.len()
            invariant
                self.inv(),
                instrs == self.instrs(),
                ranges_wf(instrs, rs@),
                idx < j <= rs@.len(),
                m == Some(*attr_matcher),
                first == range_from(rs@[idx as int], ptr.offset as int),
                ln == ctx.stack_item.local_name@,
                wc == ctx.with_content,
                s0 == old(ctx).state(),
                ctx.same_element(old(ctx)),
                item_wf(instrs, ctx.stack_item),
                ctx.state() == run(instrs, ln, m, wc, s0, first + ranges_addrs(rs@.subrange(idx + 1, j as int))),
                matches@ == old(matches)@ + new_matches(s0, ctx.state(), wc),
            decreases rs@.len() - j,
        {
            let ghost s1 = ctx.state();
            let ghost done = first + ranges_addrs(rs@.subrange(idx + 1, j as int));
            proof {
                assert(range_wf(instrs, rs@[j as int]));
                lemma_range_from_zero(rs@[j as int]);
                assert(rs@.subrange(idx + 1, j + 1).drop_last() =~= rs@.subrange(idx + 1, j as int));
                assert(done + range_addrs(rs@[j as int]) =~= first + ranges_addrs(rs@.subrange(idx + 1, j + 1)));
                lemma_run_extends(instrs, ln, m, wc, s0, done);
            }
            self.exec_instr_set_with_attrs(rs[j], attr_matcher, ctx, 0, matches);
            proof {
                lemma_run_concat(instrs, ln, m, wc, s0, done, range_addrs(rs@[j as int]));
                lemma_run_extends(instrs, ln, m, wc, s1, range_addrs(rs@[j as int]));
                lemma_new_matches_trans(s0, s1, ctx.state(), wc);
            }
            j = j + 1;
        }
    }

    /// Tries the jumps of the parent without the attributes, up to the first
    /// instruction that needs them.
    fn try_exec_jumps_without_attrs(&self, ctx: &mut ExecutionCtx, matches: &mut Vec<MatchInfo>) -> (res: Result<
        (),
        Bailout<JumpPtr>,
    >)
        requires
            self.inv(),
            item_wf(self.instrs(), old(ctx).stack_item),
        ensures
            final(ctx).same_element(old(ctx)),
            item_wf(self.instrs(), final(ctx).stack_item),
            final(matches)@ == old(matches)@ + new_matches(old(ctx).state(), final(ctx).state(), old(ctx).with_content),
            match res {
                Ok(()) => final(ctx).state() == run(self.instrs(), old(ctx).stack_item.local_name@, None,
                    old(ctx).with_content, old(ctx).state(), jumps_addrs(self.items()))
                    && decided(self.instrs(), old(ctx).stack_item.local_name@, jumps_addrs(self.items())),
                Err(b) => jumps_ptr_valid(self.items(), b.recovery_point)
                    && bailed_out(self.instrs(), old(ctx).stack_item.local_name@, jumps_addrs(self.items()),
                        jumps_from(self.items(), b.recovery_point), b.at_addr as int)
                    && final(ctx).state() == run(self.instrs(), old(ctx).stack_item.local_name@, None,
                        old(ctx).with_content, old(ctx).state(),
                        before_bailout(jumps_addrs(self.items()), jumps_from(self.items(), b.recovery_point))),
            },
    {
        let n = self.stack.items.len();
        if n == 0 {
            proof {
                let s0 = ctx.state();
                lemma_extends_refl(s0);
                assert(new_matches(s0, s0, ctx.with_content) =~= Seq::<MatchInfo>::empty());
                assert(old(matches)@ + Seq::<MatchInfo>::empty() =~= old(matches)@);
                assert(decided(self.instrs(), ctx.stack_item.local_name@, Seq::<int>::empty()));
            }
            return Ok(());
        }
        proof {
            assert(item_wf(self.instrs(), self.stack.items@[n - 1]));
        }
        self.try_exec_instr_sets_without_attrs(&self.stack.items[n - 1].jumps, ctx, matches)
    }

    /// Tries the jumps of the parent with the attributes, from the pointed address on.
    fn exec_jumps_with_attrs(
        &self,
        attr_matcher: &AttributeMatcher,
        ctx: &mut ExecutionCtx,
        ptr: JumpPtr,
        matches: &mut Vec<MatchInfo>,
    )
        requires
            self.inv(),
            item_wf(self.instrs(), old(ctx).stack_item),
            jumps_ptr_in_bounds(self.items(), ptr),
        ensures
            final(ctx).same_element(old(ctx)),
            item_wf(self.instrs(), final(ctx).stack_item),
            final(matches)@ == old(matches)@ + new_matches(old(ctx).state(), final(ctx).state(), old(ctx).with_content),
            final(ctx).state() == run(self.instrs(), old(ctx).stack_item.local_name@, Some(*attr_matcher),
                old(ctx).with_content, old(ctx).state(), jumps_from(self.items(), ptr)),
    {
        let n = self.stack.items.len();
        if n == 0 {
            proof {
                let s0 = ctx.state();
                lemma_extends_refl(s0);
                assert(new_matches(s0, s0, ctx.with_content) =~= Seq::<MatchInfo>::empty());
                assert(old(matches)@ + Seq::<MatchInfo>::empty() =~= old(matches)@);
            }
            return;
        }
        proof {
            assert(item_wf(self.instrs(), self.stack.items@[n - 1]));
        }
        self.exec_instr_sets_with_attrs(&self.stack.items[n - 1].jumps, attr_matcher, ctx, ptr, matches)
    }

    /// Tries the hereditary jumps of the ancestors without the attributes, the
    /// deepest ancestor first, up to the first instruction that needs them.
    fn try_exec_hereditary_jumps_without_attrs(&self, ctx: &mut ExecutionCtx, matches: &mut Vec<MatchInfo>) -> (res:
        Result<(), Bailout<HereditaryJumpPtr>>)
        requires
            self.inv(),
            item_wf(self.instrs(), old(ctx).stack_item),
        ensures
            final(ctx).same_element(old(ctx)),
            item_wf(self.instrs(), final(ctx).stack_item),
            final(matches)@ == old(matches)@ + new_matches(old(ctx).state(), final(ctx).state(), old(ctx).with_content),
            match res {
                Ok(()) => final(ctx).state() == run(self.instrs(), old(ctx).stack_item.local_name@, None,
                    old(ctx).with_content, old(ctx).state(), hereditary_addrs(self.items(), self.items().len() as int))
                    && decided(self.instrs(), old(ctx).stack_item.local_name@, hereditary_addrs(self.items(), self.items().len() as int)),
                Err(b) => hereditary_ptr_valid(self.items(), b.recovery_point)
                    && bailed_out(self.instrs(), old(ctx).stack_item.local_name@,
                        hereditary_addrs(self.items(), self.items().len() as int),
                        hereditary_from(self.items(), b.recovery_point), b.at_addr as int)
                    && final(ctx).state() == run(self.instrs(), old(ctx).stack_item.local_name@, None,
                        old(ctx).with_content, old(ctx).state(),
                        before_bailout(hereditary_addrs(self.items(), self.items().len() as int),
                            hereditary_from(self.items(), b.recovery_point))),
            },
    {
        let ghost instrs = self.instrs();
        let ghost ln = ctx.stack_item.local_name@;
        let ghost wc = ctx.with_content;
        let ghost s0 = ctx.state();
        let ghost items = self.items();
        let ghost whole = hereditary_addrs(items, items.len() as int);
        let n = self.stack.items.len();
        let mut i: usize = 0;
        let mut go = true;
        let ghost mut done: Seq<int> = Seq::empty();
        proof {
            lemma_extends_refl(s0);
            assert(new_matches(s0, s0, wc) =~= Seq::<MatchInfo>::empty());
            assert(old(matches)@ + Seq::<MatchInfo>::empty() =~= old(matches)@);
            assert(whole =~= done + whole);
        }
        while go && i < n
            invariant
                self.inv(),
                instrs == self.instrs(),
                items == self.items(),
                n == items.len(),
                whole == hereditary_addrs(items, n as int),
                i <= n,
                go ==> whole == done + hereditary_addrs(items, n - i),
                !go ==> whole == done,
                ln == ctx.stack_item.local_name@,
                wc == ctx.with_content,
                s0 == old(ctx).state(),
                ctx.same_element(old(ctx)),
                item_wf(instrs, ctx.stack_item),
                ctx.state() == run(instrs, ln, None, wc, s0, done),
                decided(instrs, ln, done),
                matches@ == old(matches)@ + new_matches(s0, ctx.state(), wc),
            decreases n - i, if go { 1int } else { 0int },
        {
            let a = n - 1 - i;
            let ancestor = &self.stack.items[a];
            let ghost s1 = ctx.state();
            let ghost tail = if ancestor.has_ancestor_with_hereditary_jumps {
                hereditary_addrs(items, a as int)
            } else {
                Seq::<int>::empty()
            };
            proof {
                assert(item_wf(instrs, items[a as int]));
                assert(hereditary_addrs(items, n - i) == ranges_addrs(ancestor.hereditary_jumps@) + tail);
                lemma_run_extends(instrs, ln, None, wc, s0, done);
            }
            match self.try_exec_instr_sets_without_attrs(&ancestor.hereditary_jumps, ctx, matches) {
                Ok(()) => {
                    proof {
                        let inner = ranges_addrs(ancestor.hereditary_jumps@);
                        lemma_run_concat(instrs, ln, None, wc, s0, done, inner);
                        lemma_decided_concat(instrs, ln, done, inner);
                        lemma_run_extends(instrs, ln, None, wc, s1, inner);
                        lemma_new_matches_trans(s0, s1, ctx.state(), wc);
                        assert(whole == (done + inner) + tail);
                        done = done + inner;
                    }
                },
                Err(b) => {
                    let ptr = HereditaryJumpPtr {
                        stack_offset: i,
                        instr_set_idx: b.recovery_point.instr_set_idx,
                        offset: b.recovery_point.offset,
                    };
                    proof {
                        let rs = ancestor.hereditary_jumps@;
                        let inner = ranges_addrs(rs);
                        let rest = ranges_from(rs, ptr.instr_set_idx as int, ptr.offset as int);
                        lemma_bailout_compose(instrs, ln, done, inner, rest, tail, b.at_addr as int);
                        assert(hereditary_from(items, ptr) == rest + tail);
                        assert(whole == done + inner + tail);
                        lemma_run_concat(instrs, ln, None, wc, s0, done, before_bailout(inner, rest));
                        lemma_run_extends(instrs, ln, None, wc, s1, before_bailout(inner, rest));
                        lemma_new_matches_trans(s0, s1, ctx.state(), wc);
                    }
                    return Err(Bailout { at_addr: b.at_addr, recovery_point: ptr });
                },
            }
            if !ancestor.has_ancestor_with_hereditary_jumps {
                go = false;
                proof {
                    assert(whole =~= done);
                }
            } else {
                i = i + 1;
            }
        }
        proof {
            if go {
                assert(i == n);
                assert(whole =~= done);
            }
        }
        Ok(())
    }

    /// Tries the hereditary jumps of the ancestors with the attributes, from the
    /// pointed address on.
    fn exec_hereditary_jumps_with_attrs(
        &self,
        attr_matcher: &AttributeMatcher,
        ctx: &mut ExecutionCtx,
        ptr: HereditaryJumpPtr,
        matches: &mut Vec<MatchInfo>,
    )
        requires
            self.inv(),
            item_wf(self.instrs(), old(ctx).stack_item),
            hereditary_ptr_in_bounds(self.items(), ptr),
        ensures
            final(ctx).same_element(old(ctx)),
            item_wf(self.instrs(), final(ctx).stack_item),
            final(matches)@ == old(matches)@ + new_matches(old(ctx).state(), final(ctx).state(), old(ctx).with_content),
            final(ctx).state() == run(self.instrs(), old(ctx).stack_item.local_name@, Some(*attr_matcher),
                old(ctx).with_content, old(ctx).state(), hereditary_from(self.items(), ptr)),
    {
        let ghost instrs = self.instrs();
        let ghost ln = ctx.stack_item.local_name@;
        let ghost wc = ctx.with_content;
        let ghost s0 = ctx.state();
        let ghost m = Some(*attr_matcher);
        let ghost items = self.items();
        proof {
            lemma_extends_refl(s0);
            assert(new_matches(s0, s0, wc) =~= Seq::<MatchInfo>::empty());
            assert(old(matches)@ + Seq::<MatchInfo>::empty() =~= old(matches)@);
        }
        let n = self.stack.items.len();
        if n == 0 {
            return;
        }
        let a = n - 1 - ptr.stack_offset;
        let ptr_ancestor = &self.stack.items[a];
        proof {
            assert(item_wf(instrs, items[a as int]));
        }
        let sets_ptr = JumpPtr { instr_set_idx: ptr.instr_set_idx, offset: ptr.offset };
        self.exec_instr_sets_with_attrs(&ptr_ancestor.hereditary_jumps, attr_matcher, ctx, sets_ptr, matches);
        let ghost first = ranges_from(ptr_ancestor.hereditary_jumps@, ptr.instr_set_idx as int, ptr.offset as int);
        if !ptr_ancestor.has_ancestor_with_hereditary_jumps {
            proof {
                assert(hereditary_from(items, ptr) =~= first);
            }
            return;
        }
        let ghost target = hereditary_addrs(items, a as int);
        let ghost mut done: Seq<int> = Seq::empty();
        let mut k: usize = a;
        let mut go = true;
        proof {
            assert(hereditary_from(items, ptr) == first + target);
            assert(target =~= done + target);
        }
        while go && k > 0
            invariant
                self.inv(),
                instrs == self.instrs(),
                items == self.items(),
                n == items.len(),
                k <= a < n,
                m == Some(*attr_matcher),
                target == hereditary_addrs(items, a as int),
                go ==> target == done + hereditary_addrs(items, k as int),
                !go ==> target == done,
                ln == ctx.stack_item.local_name@,
                wc == ctx.with_content,
                s0 == old(ctx).state(),
                ctx.same_element(old(ctx)),
                item_wf(instrs, ctx.stack_item),
                ctx.state() == run(instrs, ln, m, wc, s0, first + done),
                matches@ == old(matches)@ + new_matches(s0, ctx.state(), wc),
            decreases k, if go { 1int } else { 0int },
        {
            let ancestor = &self.stack.items[k - 1];
            let ghost s1 = ctx.state();
            let ghost inner = ranges_addrs(ancestor.hereditary_jumps@);
            proof {
                assert(item_wf(instrs, items[k - 1]));
                lemma_ranges_from_start(ancestor.hereditary_jumps@);
                lemma_run_extends(instrs, ln, m, wc, s0, first + done);
            }
            self.exec_instr_sets_with_attrs(&ancestor.hereditary_jumps, attr_matcher, ctx, JumpPtr { instr_set_idx: 0, offset: 0 }, matches);
            proof {
                lemma_run_concat(instrs, ln, m, wc, s0, first + done, inner);
                assert(first + done + inner =~= first + (done + inner));
                lemma_run_extends(instrs, ln, m, wc, s1, inner);
                lemma_new_matches_trans(s0, s1, ctx.state(), wc);
                done = done + inner;
            }
            if !ancestor.has_ancestor_with_hereditary_jumps {
                go = false;
                proof {
                    assert(target =~= done);
                }
            } else {
                k = k - 1;
                proof {
                    assert(target =~= done + hereditary_addrs(items, k as int));
                }
            }
        }
        proof {
            if go {
                assert(target =~= done);
            }
        }
    }

    /// Goes on after a bailout in the entry points: the rest of the entry points, then
    /// the jumps and the hereditary jumps.
    fn recover_after_bailout_in_entry_points(
        &self,
        ctx: &mut ExecutionCtx,
        attr_matcher: &AttributeMatcher,
        recovery_point: usize,
        matches: &mut Vec<MatchInfo>,
    )
        requires
            self.inv(),
            item_wf(self.instrs(), old(ctx).stack_item),
            recovery_point <= self.entry_points().end - self.entry_points().start,
        ensures
            final(ctx).same_element(old(ctx)),
            item_wf(self.instrs(), final(ctx).stack_item),
            final(matches)@ == old(matches)@ + new_matches(old(ctx).state(), final(ctx).state(), old(ctx).with_content),
            final(ctx).state() == run(self.instrs(), old(ctx).stack_item.local_name@, Some(*attr_matcher),
                old(ctx).with_content, old(ctx).state(), rest_of(*self, RecoveryPoint::EntryPoints(recovery_point))),
    {
        let ghost instrs = self.instrs();
        let ghost ln = ctx.stack_item.local_name@;
        let ghost wc = ctx.with_content;
        let ghost m = Some(*attr_matcher);
        let ghost s0 = ctx.state();
        let ghost e = range_from(self.entry_points(), recovery_point as int);
        let ghost j = jumps_addrs(self.items());
        proof {
            lemma_defaults(*self);
        }
        self.exec_instr_set_with_attrs(self.program.entry_points, attr_matcher, ctx, recovery_point, matches);
        let ghost s1 = ctx.state();
        self.exec_jumps_with_attrs(attr_matcher, ctx, JumpPtr { instr_set_idx: 0, offset: 0 }, matches);
        let ghost s2 = ctx.state();
        self.exec_hereditary_jumps_with_attrs(
            attr_matcher,
            ctx,
            HereditaryJumpPtr { stack_offset: 0, instr_set_idx: 0, offset: 0 },
            matches,
        );
        proof {
            let h = hereditary_addrs(self.items(), self.items().len() as int);
            lemma_run_concat(instrs, ln, m, wc, s0, e, j);
            lemma_run_concat(instrs, ln, m, wc, s0, e + j, h);
            lemma_run_extends(instrs, ln, m, wc, s0, e);
            lemma_run_extends(instrs, ln, m, wc, s1, j);
            lemma_run_extends(instrs, ln, m, wc, s2, h);
            lemma_new_matches_trans(s0, s1, s2, wc);
            lemma_extends_trans(s0, s1, s2);
            lemma_new_matches_trans(s0, s2, ctx.state(), wc);
        }
    }

    /// Goes on after a bailout in the jumps: the rest of the jumps, then the
    /// hereditary jumps.
    fn recover_after_bailout_in_jumps(
        &self,
        ctx: &mut ExecutionCtx,
        attr_matcher: &AttributeMatcher,
        recovery_point: JumpPtr,
        matches: &mut Vec<MatchInfo>,
    )
        requires
            self.inv(),
            item_wf(self.instrs(), old(ctx).stack_item),
            jumps_ptr_valid(self.items(), recovery_point),
        ensures
            final(ctx).same_element(old(ctx)),
            item_wf(self.instrs(), final(ctx).stack_item),
            final(matches)@ == old(matches)@ + new_matches(old(ctx).state(), final(ctx).state(), old(ctx).with_content),
            final(ctx).state() == run(self.instrs(), old(ctx).stack_item.local_name@, Some(*attr_matcher),
                old(ctx).with_content, old(ctx).state(), rest_of(*self, RecoveryPoint::Jumps(recovery_point))),
    {
        let ghost instrs = self.instrs();
        let ghost ln = ctx.stack_item.local_name@;
        let ghost wc = ctx.with_content;
        let ghost m = Some(*attr_matcher);
        let ghost s0 = ctx.state();
        let ghost j = jumps_from(self.items(), recovery_point);
        proof {
            lemma_defaults(*self);
        }
        self.exec_jumps_with_attrs(attr_matcher, ctx, recovery_point, matches);
        let ghost s1 = ctx.state();
        self.exec_hereditary_jumps_with_attrs(
            attr_matcher,
            ctx,
            HereditaryJumpPtr { stack_offset: 0, instr_set_idx: 0, offset: 0 },
            matches,
        );
        proof {
            let h = hereditary_addrs(self.items(), self.items().len() as int);
            lemma_run_concat(instrs, ln, m, wc, s0, j, h);
            lemma_run_extends(instrs, ln, m, wc, s0, j);
            lemma_run_extends(instrs, ln, m, wc, s1, h);
            lemma_new_matches_trans(s0, s1, ctx.state(), wc);
        }
    }

    /// Goes on after a bailout in the hereditary jumps: the rest of them.
    fn recover_after_bailout_in_hereditary_jumps(
        &self,
        ctx: &mut ExecutionCtx,
        attr_matcher: &AttributeMatcher,
        recovery_point: HereditaryJumpPtr,
        matches: &mut Vec<MatchInfo>,
    )
        requires
            self.inv(),
            item_wf(self.instrs(), old(ctx).stack_item),
            hereditary_ptr_valid(self.items(), recovery_point),
        ensures
            final(ctx).same_element(old(ctx)),
            item_wf(self.instrs(), final(ctx).stack_item),
            final(matches)@ == old(matches)@ + new_matches(old(ctx).state(), final(ctx).state(), old(ctx).with_content),
            final(ctx).state() == run(self.instrs(), old(ctx).stack_item.local_name@, Some(*attr_matcher),
                old(ctx).with_content, old(ctx).state(), rest_of(*self, RecoveryPoint::HereditaryJumps(recovery_point))),
    {
        self.exec_hereditary_jumps_with_attrs(attr_matcher, ctx, recovery_point, matches);
    }

    /// A machine for the selectors of the tree, compiled for documents in the encoding
    /// named by `encoding`, with an empty stack.
    pub fn new(ast: Ast, encoding: &str) -> (r: SelectorMatchingVm)
        requires
            ast.inv(),
        ensures
            r.inv(),
            r.items().len() == 0,
            !r.esi(),
            r.instrs().len() == ast.cumulative_node_count,
            compiler::tree_at(encoding@, r.instrs(), r.entry_points(), ast.root@,
                r.entry_points().end as int, r.instrs().len() as int),
    {
        let program = Compiler::new(encoding).compile(ast);
        let r = SelectorMatchingVm { program, stack: Stack::new(false), enable_esi_tags: false };
        r
    }

    /// The machine's program and settings are those of `other`.
    pub open spec fn same_program(&self, other: &SelectorMatchingVm) -> bool {
        &&& self.instrs() == other.instrs()
        &&& self.entry_points() == other.entry_points()
        &&& self.esi() == other.esi()
    }

    fn bailout(ctx: ExecutionCtx, bailout: Bailout<RecoveryPoint>, items: Ghost<Seq<StackItem>>) -> (r: Result<
        (),
        AuxStartTagInfoRequest,
    >)
        ensures
            r matches Err(req) && req.ctx == ctx && req.bailout == Some(bailout) && req.items == items,
    {
        Err(AuxStartTagInfoRequest { ctx: ctx.into_owned(), bailout: Some(bailout), items })
    }

    /// Matches an element that can be matched without knowing whether it is
    /// self-closing: without the attributes where they are not needed, else up to the
    /// first instruction that needs them.
    fn exec_without_attrs(&mut self, ctx: ExecutionCtx, matches: &mut Vec<MatchInfo>) -> (r: Result<
        (),
        AuxStartTagInfoRequest,
    >)
        requires
            old(self).inv(),
            ctx.state() == empty_run(),
            ctx.stack_item.element_data.end_tag_handler_idx is None,
            !ctx.stack_item.element_data.remove_content,
            !ctx.stack_item.has_ancestor_with_hereditary_jumps,
            old(self).directive(ctx.stack_item.local_name, ctx.ns) != StackDirective::PushIfNotSelfClosing,
            ctx.with_content == spec_with_content(old(self).directive(ctx.stack_item.local_name, ctx.ns), false),
        ensures
            final(self).inv(),
            final(self).same_program(old(self)),
            match r {
                Ok(()) => {
                    let s = old(self).start_tag_run(ctx.stack_item.local_name@, None, ctx.with_content);
                    &&& decided(old(self).instrs(), ctx.stack_item.local_name@, old(self).addrs())
                    &&& start_tag_done(old(self).items(), final(self).items(), ctx.stack_item.local_name@, s, ctx.with_content)
                    &&& final(matches)@ == old(matches)@ + new_matches(empty_run(), s, ctx.with_content)
                },
                Err(req) => req.pending(*old(self)) && req.local_name() == ctx.stack_item.local_name
                    && req.ns() == ctx.ns && *final(self) == *old(self)
                    && final(matches)@ == old(matches)@ + req.emitted(),
            },
    {
        let mut ctx = ctx;
        let ghost instrs = self.instrs();
        let ghost ln = ctx.stack_item.local_name@;
        let ghost wc = ctx.with_content;
        let ghost items = self.items();
        let ghost e = range_addrs(self.entry_points());
        let ghost j = jumps_addrs(items);
        let ghost h = hereditary_addrs(items, items.len() as int);
        let ghost s0 = ctx.state();
        proof {
            lemma_defaults(*self);
            assert(item_wf(instrs, ctx.stack_item));
            assert(self.addrs() == e + j + h);
        }
        match self.try_exec_instr_set_without_attrs(self.program.entry_points, &mut ctx, matches) {
            Ok(()) => {},
            Err(b) => {
                proof {
                    let rest = range_from(self.entry_points(), b.recovery_point as int);
                    lemma_bailout_compose(instrs, ln, Seq::empty(), e, rest, j + h, b.at_addr as int);
                    assert(Seq::<int>::empty() + e + (j + h) =~= self.addrs());
                    assert(rest + (j + h) =~= rest_of(*self, RecoveryPoint::EntryPoints(b.recovery_point)));
                    assert(Seq::<int>::empty() + before_bailout(e, rest) =~= before_bailout(e, rest));
                }
                return Self::bailout(
                    ctx,
                    Bailout { at_addr: b.at_addr, recovery_point: RecoveryPoint::EntryPoints(b.recovery_point) },
                    Ghost(self.items()),
                );
            },
        }
        let ghost s1 = ctx.state();
        match self.try_exec_jumps_without_attrs(&mut ctx, matches) {
            Ok(()) => {},
            Err(b) => {
                proof {
                    let rest = jumps_from(items, b.recovery_point);
                    lemma_bailout_compose(instrs, ln, e, j, rest, h, b.at_addr as int);
                    assert(e + j + h =~= self.addrs());
                    lemma_run_concat(instrs, ln, None, wc, s0, e, before_bailout(j, rest));
                    lemma_run_extends(instrs, ln, None, wc, s0, e);
                    lemma_run_extends(instrs, ln, None, wc, s1, before_bailout(j, rest));
                    lemma_new_matches_trans(s0, s1, ctx.state(), wc);
                }
                return Self::bailout(
                    ctx,
                    Bailout { at_addr: b.at_addr, recovery_point: RecoveryPoint::Jumps(b.recovery_point) },
                    Ghost(self.items()),
                );
            },
        }
        let ghost s2 = ctx.state();
        proof {
            lemma_run_concat(instrs, ln, None, wc, s0, e, j);
            lemma_decided_concat(instrs, ln, e, j);
            lemma_run_extends(instrs, ln, None, wc, s0, e);
            lemma_run_extends(instrs, ln, None, wc, s1, j);
            lemma_new_matches_trans(s0, s1, s2, wc);
            lemma_run_extends(instrs, ln, None, wc, s0, e + j);
        }
        match self.try_exec_hereditary_jumps_without_attrs(&mut ctx, matches) {
            Ok(()) => {},
            Err(b) => {
                proof {
                    let rest = hereditary_from(items, b.recovery_point);
                    lemma_bailout_compose(instrs, ln, e + j, h, rest, Seq::empty(), b.at_addr as int);
                    assert(e + j + h + Seq::<int>::empty() =~= self.addrs());
                    assert(rest + Seq::<int>::empty() =~= rest);
                    lemma_run_concat(instrs, ln, None, wc, s0, e + j, before_bailout(h, rest));
                    lemma_run_extends(instrs, ln, None, wc, s2, before_bailout(h, rest));
                    lemma_new_matches_trans(s0, s2, ctx.state(), wc);
                }
                return Self::bailout(
                    ctx,
                    Bailout { at_addr: b.at_addr, recovery_point: RecoveryPoint::HereditaryJumps(b.recovery_point) },
                    Ghost(self.items()),
                );
            },
        }
        proof {
            lemma_run_concat(instrs, ln, None, wc, s0, e + j, h);
            lemma_decided_concat(instrs, ln, e + j, h);
            lemma_run_extends(instrs, ln, None, wc, s2, h);
            lemma_new_matches_trans(s0, s2, ctx.state(), wc);
        }
        if ctx.with_content {
            self.stack.push_item(ctx.stack_item.into_owned());
            proof {
                lemma_push_keeps_items_wf(instrs, items, self.stack.items@);
            }
        }
        Ok(())
    }

    /// Matches a start tag: without the attributes where they are not needed; else
    /// the answer is a request for them, and for whether the tag is self-closing, which
    /// [`AuxStartTagInfoRequest::complete`] takes to finish the matching.
    pub fn exec_for_start_tag(&mut self, local_name: LocalName, ns: Namespace, matches: &mut Vec<MatchInfo>) -> (r:
        Result<(), AuxStartTagInfoRequest>)
        requires
            old(self).inv(),
        ensures
            final(self).inv(),
            final(self).same_program(old(self)),
            match r {
                Ok(()) => {
                    let wc = spec_with_content(old(self).directive(local_name, ns), false);
                    let s = old(self).start_tag_run(local_name@, None, wc);
                    &&& old(self).directive(local_name, ns) != StackDirective::PushIfNotSelfClosing
                    &&& forall|m: AttributeMatcher| #[trigger] old(self).start_tag_run(local_name@, Some(m), wc) == s
                    &&& start_tag_done(old(self).items(), final(self).items(), local_name@, s, wc)
                    &&& final(matches)@ == old(matches)@ + new_matches(empty_run(), s, wc)
                },
                Err(req) => req.pending(*old(self)) && req.local_name() == local_name && req.ns() == ns
                    && *final(self) == *old(self) && final(matches)@ == old(matches)@ + req.emitted(),
            },
    {
        let mut ctx = ExecutionCtx::new(local_name, ns);
        let directive = Stack::get_stack_directive(&ctx.stack_item, ns, self.enable_esi_tags);
        match directive {
            StackDirective::PopImmediately => {
                ctx.with_content = false;
            },
            StackDirective::PushIfNotSelfClosing => {
                return Err(
                    AuxStartTagInfoRequest { ctx: ctx.into_owned(), bailout: None, items: Ghost(self.items()) },
                );
            },
            StackDirective::Push => {},
        }
        let ghost ln = local_name@;
        let ghost wc = ctx.with_content;
        let r = self.exec_without_attrs(ctx, matches);
        proof {
            if r is Ok {
                assert forall|m: AttributeMatcher| #[trigger] old(self).start_tag_run(ln, Some(m), wc)
                    == old(self).start_tag_run(ln, None, wc) by {
                    lemma_decided_run(old(self).instrs(), ln, m, wc, empty_run(), old(self).addrs());
                }
            }
        }
        r
    }

    /// An end tag pops the open elements up to the last one with its local name, that
    /// one included, and returns their data, deepest last.
    pub fn exec_for_end_tag(&mut self, local_name: LocalName) -> (r: Vec<ElementDescriptor>)
        requires
            old(self).inv(),
        ensures
            final(self).inv(),
            final(self).same_program(old(self)),
            match stack::last_index_of(old(self).items(), local_name@) {
                Some(i) => final(self).items() == old(self).items().subrange(0, i)
                    && r@.len() == old(self).items().len() - i
                    && forall|k: int| 0 <= k < r@.len() ==> #[trigger] r@[k] == old(self).items()[i + k].element_data,
                None => final(self).items() == old(self).items() && r@.len() == 0,
            },
    {
        let r = self.stack.pop_up_to(&local_name);
        proof {
            stack::lemma_last_index_of(old(self).items(), local_name@);
            assert forall|k: int| 0 <= k < self.stack.items@.len() implies item_wf(self.instrs(), #[trigger] self.stack.items@[k]) by {
                assert(self.stack.items@[k] == old(self).stack.items@[k]);
            }
        }
        r
    }

    /// The data of the deepest open element.
    pub fn current_element_data_mut(&mut self) -> (r: Option<&mut ElementDescriptor>)
        ensures
            match r {
                None => old(self).items().len() == 0 && *final(self) == *old(self),
                Some(d) => old(self).items().len() > 0 && *d == old(self).items().last().element_data
                    && final(self).same_program(old(self))
                    && final(self).items() == old(self).items().update(
                        old(self).items().len() - 1,
                        StackItem { element_data: *final(d), ..old(self).items().last() },
                    ) && (old(self).inv() ==> final(self).inv()),
            },
    {
        let n = self.stack.items.len();
        if n == 0 {
            return None;
        }
        Some(&mut self.stack.items[n - 1].element_data)
    }
}

/// A pointer into the ancestors' hereditary jumps that a bailout gives.
pub open spec fn hereditary_ptr_valid(items: Seq<StackItem>, ptr: HereditaryJumpPtr) -> bool {
    &&& ptr.stack_offset < items.len()
    &&& sets_ptr_valid(items[items.len() - 1 - ptr.stack_offset].hereditary_jumps@,
        JumpPtr { instr_set_idx: ptr.instr_set_idx, offset: ptr.offset })
}

/// A pointer into the ancestors' hereditary jumps that stays within the pointed range.
pub open spec fn hereditary_ptr_in_bounds(items: Seq<StackItem>, ptr: HereditaryJumpPtr) -> bool {
    items.len() > 0 ==> {
        &&& ptr.stack_offset < items.len()
        &&& sets_ptr_in_bounds(items[items.len() - 1 - ptr.stack_offset].hereditary_jumps@,
            JumpPtr { instr_set_idx: ptr.instr_set_idx, offset: ptr.offset })
    }
}

/// The addresses tried after the bailout, from the recovery point on.
pub open spec fn rest_of(vm: SelectorMatchingVm, rp: RecoveryPoint) -> Seq<int> {
    let items = vm.items();
    let h = hereditary_addrs(items, items.len() as int);
    match rp {
        RecoveryPoint::EntryPoints(o) => range_from(vm.entry_points(), o as int) + jumps_addrs(items) + h,
        RecoveryPoint::Jumps(p) => jumps_from(items, p) + h,
        RecoveryPoint::HereditaryJumps(p) => hereditary_from(items, p),
    }
}

/// The recovery point lies just after an address of the program's order.
pub open spec fn recovery_valid(vm: SelectorMatchingVm, rp: RecoveryPoint) -> bool {
    match rp {
        RecoveryPoint::EntryPoints(o) => 1 <= o <= vm.entry_points().end - vm.entry_points().start,
        RecoveryPoint::Jumps(p) => jumps_ptr_valid(vm.items(), p),
        RecoveryPoint::HereditaryJumps(p) => hereditary_ptr_valid(vm.items(), p),
    }
}

proof fn reveal_inv(vm: SelectorMatchingVm)
    requires
        vm.inv(),
    ensures
        vm.program.wf(),
        items_wf(vm.instrs(), vm.items()),
        range_wf(vm.instrs(), vm.entry_points()),
{
}

/// Starting at the first address of the jumps or of the hereditary jumps tries them all.
proof fn lemma_defaults(vm: SelectorMatchingVm)
    requires
        vm.inv(),
    ensures
        jumps_from(vm.items(), JumpPtr { instr_set_idx: 0, offset: 0 }) == jumps_addrs(vm.items()),
        hereditary_from(vm.items(), HereditaryJumpPtr { stack_offset: 0, instr_set_idx: 0, offset: 0 })
            == hereditary_addrs(vm.items(), vm.items().len() as int),
        jumps_ptr_in_bounds(vm.items(), JumpPtr { instr_set_idx: 0, offset: 0 }),
        hereditary_ptr_in_bounds(vm.items(), HereditaryJumpPtr { stack_offset: 0, instr_set_idx: 0, offset: 0 }),
        range_wf(vm.instrs(), vm.entry_points()),
        range_from(vm.entry_points(), 0) == range_addrs(vm.entry_points()),
{
    reveal_inv(vm);
    let items = vm.items();
    lemma_range_from_zero(vm.entry_points());
    if items.len() > 0 {
        let top = items[items.len() - 1];
        assert(item_wf(vm.instrs(), top));
        assert forall|k: int| 0 <= k < top.jumps@.len() implies (#[trigger] top.jumps@[k]).start <= top.jumps@[k].end by {
            assert(range_wf(vm.instrs(), top.jumps@[k]));
        }
        assert forall|k: int| 0 <= k < top.hereditary_jumps@.len() implies (#[trigger] top.hereditary_jumps@[k]).start
            <= top.hereditary_jumps@[k].end by {
            assert(range_wf(vm.instrs(), top.hereditary_jumps@[k]));
        }
        lemma_ranges_from_start(top.jumps@);
        lemma_ranges_from_start(top.hereditary_jumps@);
        if top.jumps@.len() > 0 {
            assert(range_wf(vm.instrs(), top.jumps@[0]));
        }
        if top.hereditary_jumps@.len() > 0 {
            assert(range_wf(vm.instrs(), top.hereditary_jumps@[0]));
        }
    }
}

/// A pointer that a bailout gives: just after an address of one of the ranges.
pub open spec fn sets_ptr_valid(rs: Seq<AddressRange>, ptr: JumpPtr) -> bool {
    &&& ptr.instr_set_idx < rs.len()
    &&& 1 <= ptr.offset <= rs[ptr.instr_set_idx as int].end - rs[ptr.instr_set_idx as int].start
}

/// A pointer that stays within the pointed range.
pub open spec fn sets_ptr_in_bounds(rs: Seq<AddressRange>, ptr: JumpPtr) -> bool {
    ptr.instr_set_idx < rs.len() ==> ptr.offset <= rs[ptr.instr_set_idx as int].end - rs[ptr.instr_set_idx as int].start
}

/// A pointer into the parent's jumps that a bailout gives: just after an address of
/// one of its ranges.
pub open spec fn jumps_ptr_valid(items: Seq<StackItem>, ptr: JumpPtr) -> bool {
    items.len() > 0 && sets_ptr_valid(items.last().jumps@, ptr)
}

/// A pointer into the parent's jumps that stays within the pointed range.
pub open spec fn jumps_ptr_in_bounds(items: Seq<StackItem>, ptr: JumpPtr) -> bool {
    items.len() > 0 ==> sets_ptr_in_bounds(items.last().jumps@, ptr)
}


proof fn lemma_push_keeps_items_wf(instrs: Seq<Instr>, before: Seq<StackItem>, after: Seq<StackItem>)
    requires
        items_wf(instrs, before),
        after.len() == before.len() + 1,
        after.subrange(0, before.len() as int) == before,
        item_wf(instrs, after.last()),
    ensures
        items_wf(instrs, after),
{
    assert forall|k: int| 0 <= k < after.len() implies item_wf(instrs, #[trigger] after[k]) by {
        if k < before.len() {
            assert(after[k] == after.subrange(0, before.len() as int)[k]);
        }
    }
}

/// The matching of a start tag needs the attributes of the tag, or whether the tag is
/// self-closing: what it gathered so far and where it goes on.
pub struct AuxStartTagInfoRequest {
    ctx: ExecutionCtx,
    bailout: Option<Bailout<RecoveryPoint>>,
    items: Ghost<Seq<StackItem>>,
}

impl AuxStartTagInfoRequest {
    /// The local name of the start tag.
    pub closed spec fn local_name(&self) -> LocalName {
        self.ctx.stack_item.local_name
    }

    /// The namespace of the element.
    pub closed spec fn ns(&self) -> Namespace {
        self.ctx.ns
    }

    /// What the matching gathered before it needed the attributes.
    pub closed spec fn state(&self) -> RunState {
        self.ctx.state()
    }

    /// Whether the element can have content, as far as known when the request was made.
    pub closed spec fn with_content(&self) -> bool {
        self.ctx.with_content
    }

    /// The match notifications given before the request.
    pub open spec fn emitted(&self) -> Seq<MatchInfo> {
        new_matches(empty_run(), self.state(), self.with_content())
    }

    /// The request was made by `vm` in its current state: either the element is foreign
    /// and nothing was tried yet, or the matching stopped at an instruction that needs
    /// the attributes, every instruction before it having decided without them.
    pub closed spec fn pending(&self, vm: SelectorMatchingVm) -> bool {
        let ln = self.ctx.stack_item.local_name;
        let directive = vm.directive(ln, self.ctx.ns);
        &&& self.items@ == vm.items()
        &&& item_wf(vm.instrs(), self.ctx.stack_item)
        &&& self.ctx.stack_item.element_data.end_tag_handler_idx is None
        &&& !self.ctx.stack_item.element_data.remove_content
        &&& !self.ctx.stack_item.has_ancestor_with_hereditary_jumps
        &&& match self.bailout {
            None => directive == StackDirective::PushIfNotSelfClosing && self.ctx.state() == empty_run(),
            Some(b) => {
                &&& directive != StackDirective::PushIfNotSelfClosing
                &&& self.ctx.with_content == spec_with_content(directive, false)
                &&& recovery_valid(vm, b.recovery_point)
                &&& bailed_out(vm.instrs(), ln@, vm.addrs(), rest_of(vm, b.recovery_point), b.at_addr as int)
                &&& self.ctx.state() == run(vm.instrs(), ln@, None, self.ctx.with_content, empty_run(),
                    before_bailout(vm.addrs(), rest_of(vm, b.recovery_point)))
            },
        }
    }

    /// Finishes the matching of the start tag with its attributes and whether it is
    /// self-closing: the machine ends as a matching with the attributes from the start
    /// would have left it, and the notifications not given yet are given.
    pub fn complete(self, vm: &mut SelectorMatchingVm, aux_info: AuxStartTagInfo, matches: &mut Vec<MatchInfo>)
        requires
            old(vm).inv(),
            self.pending(*old(vm)),
        ensures
            final(vm).inv(),
            final(vm).same_program(old(vm)),
            forall|m: AttributeMatcher| #[trigger] matcher_for(m, aux_info.attributes@, self.ns()) ==> {
                let wc = spec_with_content(old(vm).directive(self.local_name(), self.ns()), aux_info.self_closing);
                let s = old(vm).start_tag_run(self.local_name()@, Some(m), wc);
                &&& start_tag_done(old(vm).items(), final(vm).items(), self.local_name()@, s, wc)
                &&& final(matches)@ == old(matches)@ + new_matches(self.state(), s, wc)
            },
    {
        let ghost vm0 = *vm;
        let ghost instrs = vm.instrs();
        let ghost items = vm.items();
        let ghost ln = self.ctx.stack_item.local_name@;
        let ghost ns = self.ctx.ns;
        let ghost dir = vm0.directive(self.ctx.stack_item.local_name, ns);
        let ghost s0 = self.ctx.state();
        let AuxStartTagInfoRequest { ctx, bailout, items: _ } = self;
        let mut ctx = ctx;
        let attr_matcher = AttributeMatcher::new(aux_info.attributes, ctx.ns);
        let ghost me = attr_matcher;
        proof {
            lemma_defaults(vm0);
        }
        match bailout {
            None => {
                ctx.with_content = !aux_info.self_closing;
                let ghost wc = ctx.with_content;
                let ghost e = range_addrs(vm.entry_points());
                let ghost j = jumps_addrs(items);
                let ghost h = hereditary_addrs(items, items.len() as int);
                vm.exec_instr_set_with_attrs(vm.program.entry_points, &attr_matcher, &mut ctx, 0, matches);
                let ghost s1 = ctx.state();
                vm.exec_jumps_with_attrs(&attr_matcher, &mut ctx, JumpPtr { instr_set_idx: 0, offset: 0 }, matches);
                let ghost s2 = ctx.state();
                vm.exec_hereditary_jumps_with_attrs(
                    &attr_matcher,
                    &mut ctx,
                    HereditaryJumpPtr { stack_offset: 0, instr_set_idx: 0, offset: 0 },
                    matches,
                );
                proof {
                    let sm = Some(me);
                    lemma_run_concat(instrs, ln, sm, wc, s0, e, j);
                    lemma_run_concat(instrs, ln, sm, wc, s0, e + j, h);
                    lemma_run_extends(instrs, ln, sm, wc, s0, e);
                    lemma_run_extends(instrs, ln, sm, wc, s1, j);
                    lemma_run_extends(instrs, ln, sm, wc, s2, h);
                    lemma_new_matches_trans(s0, s1, s2, wc);
                    lemma_extends_trans(s0, s1, s2);
                    lemma_new_matches_trans(s0, s2, ctx.state(), wc);
                    assert(ctx.state() == vm0.start_tag_run(ln, Some(me), wc));
                }
            },
            Some(b) => {
                let ghost wc = ctx.with_content;
                let ghost all = vm0.addrs();
                let ghost rest = rest_of(vm0, b.recovery_point);
                let ghost before = before_bailout(all, rest);
                proof {
                    let p = all.len() - rest.len() - 1;
                    assert(all[p] == b.at_addr as int);
                    assert(addrs_wf(instrs, all)) by {
                        lemma_all_addrs_wf(vm0);
                    }
                    assert(0 <= all[p] < instrs.len() && instrs[all[p]].is_compiled());
                }
                vm.complete_instr_execution_with_attrs(b.at_addr, &attr_matcher, &mut ctx, matches);
                let ghost s1 = ctx.state();
                match b.recovery_point {
                    RecoveryPoint::EntryPoints(o) => {
                        vm.recover_after_bailout_in_entry_points(&mut ctx, &attr_matcher, o, matches);
                    },
                    RecoveryPoint::Jumps(p) => {
                        vm.recover_after_bailout_in_jumps(&mut ctx, &attr_matcher, p, matches);
                    },
                    RecoveryPoint::HereditaryJumps(p) => {
                        vm.recover_after_bailout_in_hereditary_jumps(&mut ctx, &attr_matcher, p, matches);
                    },
                }
                proof {
                    let sm = Some(me);
                    let p = all.len() - rest.len() - 1;
                    assert(all =~= before.push(b.at_addr as int) + rest);
                    lemma_decided_run(instrs, ln, me, wc, empty_run(), before);
                    lemma_run_push(instrs, ln, sm, wc, empty_run(), before, b.at_addr as int);
                    lemma_run_concat(instrs, ln, sm, wc, empty_run(), before.push(b.at_addr as int), rest);
                    lemma_step_extends(instrs, ln, sm, wc, s0, b.at_addr as int);
                    lemma_run_extends(instrs, ln, sm, wc, s1, rest);
                    lemma_new_matches_trans(s0, s1, ctx.state(), wc);
                    assert(ctx.state() == vm0.start_tag_run(ln, Some(me), wc));
                }
            },
        }
        let ghost s = ctx.state();
        let ghost wc = ctx.with_content;
        if ctx.with_content {
            vm.stack.push_item(ctx.stack_item);
            proof {
                lemma_push_keeps_items_wf(instrs, items, vm.stack.items@);
            }
        }
        proof {
            assert forall|m: AttributeMatcher| #[trigger] matcher_for(m, aux_info.attributes@, ns) implies {
                let wc2 = spec_with_content(dir, aux_info.self_closing);
                let s2 = vm0.start_tag_run(ln, Some(m), wc2);
                &&& start_tag_done(items, vm.items(), ln, s2, wc2)
                &&& matches@ == old(matches)@ + new_matches(s0, s2, wc2)
            } by {
                lemma_run_same_matcher(instrs, ln, m, me, wc, empty_run(), vm0.addrs());
            }
        }
    }
}

/// Every address tried for a start tag lies in the program and holds a compiled
/// instruction.
proof fn lemma_all_addrs_wf(vm: SelectorMatchingVm)
    requires
        vm.inv(),
    ensures
        addrs_wf(vm.instrs(), vm.addrs()),
{
    reveal_inv(vm);
    let items = vm.items();
    let instrs = vm.instrs();
    lemma_addrs_wf_range(instrs, vm.entry_points());
    if items.len() > 0 {
        assert(item_wf(instrs, items[items.len() - 1]));
        lemma_addrs_wf_ranges(instrs, items.last().jumps@);
    }
    lemma_hereditary_addrs_wf(instrs, items, items.len() as int);
    lemma_addrs_wf_concat(instrs, range_addrs(vm.entry_points()), jumps_addrs(items));
    lemma_addrs_wf_concat(instrs, range_addrs(vm.entry_points()) + jumps_addrs(items),
        hereditary_addrs(items, items.len() as int));
}

proof fn lemma_hereditary_addrs_wf(instrs: Seq<Instr>, items: Seq<StackItem>, n: int)
    requires
        items_wf(instrs, items),
    ensures
        addrs_wf(instrs, hereditary_addrs(items, n)),
    decreases n,
{
    if 0 < n <= items.len() {
        assert(item_wf(instrs, items[n - 1]));
        lemma_addrs_wf_ranges(instrs, items[n - 1].hereditary_jumps@);
        lemma_hereditary_addrs_wf(instrs, items, n - 1);
        lemma_addrs_wf_concat(instrs, ranges_addrs(items[n - 1].hereditary_jumps@),
            if items[n - 1].has_ancestor_with_hereditary_jumps { hereditary_addrs(items, n - 1) } else { Seq::empty() });
    }
}

proof fn lemma_addrs_wf_concat(instrs: Seq<Instr>, a: Seq<int>, b: Seq<int>)
    requires
        addrs_wf(instrs, a),
        addrs_wf(instrs, b),
    ensures
        addrs_wf(instrs, a + b),
{
    assert forall|i: int| 0 <= i < (a + b).len() implies 0 <= #[trigger] (a + b)[i] < instrs.len()
        && instrs[(a + b)[i]].is_compiled() by {
        if i < a.len() {
            assert((a + b)[i] == a[i]);
        } else {
            assert((a + b)[i] == b[i - a.len()]);
        }
    }
}

/// A start tag whose matching needed the attributes gives, over the two calls, the
/// notifications of a matching with the attributes from the start, each once and in
/// order: those given before the request, then those given on completion.
pub proof fn lemma_start_tag_notifications(
    vm: SelectorMatchingVm,
    req: AuxStartTagInfoRequest,
    m: AttributeMatcher,
    self_closing: bool,
)
    requires
        vm.inv(),
        req.pending(vm),
    ensures
        ({
            let wc = spec_with_content(vm.directive(req.local_name(), req.ns()), self_closing);
            let s = vm.start_tag_run(req.local_name()@, Some(m), wc);
            req.emitted() + new_matches(req.state(), s, wc) == new_matches(empty_run(), s, wc)
        }),
{
    let wc = spec_with_content(vm.directive(req.local_name(), req.ns()), self_closing);
    let instrs = vm.instrs();
    let ln = req.local_name()@;
    let s = vm.start_tag_run(ln, Some(m), wc);
    lemma_extends_refl(empty_run());
    match req.bailout {
        None => {
            assert(req.state() == empty_run());
            assert(req.emitted() =~= Seq::<MatchInfo>::empty());
            assert(Seq::<MatchInfo>::empty() + new_matches(empty_run(), s, wc) =~= new_matches(empty_run(), s, wc));
        },
        Some(b) => {
            let all = vm.addrs();
            let rest = rest_of(vm, b.recovery_point);
            let before = before_bailout(all, rest);
            assert(req.with_content() == wc);
            assert(all =~= before + all.subrange(before.len() as int, all.len() as int));
            lemma_decided_run(instrs, ln, m, wc, empty_run(), before);
            lemma_run_concat(instrs, ln, Some(m), wc, empty_run(), before, all.subrange(before.len() as int, all.len() as int));
            lemma_run_extends(instrs, ln, None, wc, empty_run(), before);
            lemma_run_extends(instrs, ln, Some(m), wc, req.state(), all.subrange(before.len() as int, all.len() as int));
            lemma_new_matches_trans(empty_run(), req.state(), s, wc);
        },
    }
}

/// In an HTML document, the start tag of an element whose local name is that of an HTML
/// void element (`area`, `base`, `br`, `img`, ... see `html_void_element_names`) is
/// popped at once: it is never pushed on the stack of open elements, so it is the
/// parent of no element that follows, and its matches are reported without content.
/// Any other HTML element, ESI void tags aside, is pushed and its matches are reported
/// with content.
pub proof fn lemma_html_void_start_tags(vm: SelectorMatchingVm, local_name: LocalName, self_closing: bool)
    ensures
        (exists|k: int|
            0 <= k < html_void_element_names().len() && local_name@ == local_name_of(
                ascii_bytes(#[trigger] html_void_element_names()[k]),
            )) ==> {
            &&& vm.directive(local_name, Namespace::Html) == StackDirective::PopImmediately
            &&& !spec_with_content(vm.directive(local_name, Namespace::Html), self_closing)
        },
        !(exists|k: int|
            0 <= k < html_void_element_names().len() && local_name@ == local_name_of(
                ascii_bytes(#[trigger] html_void_element_names()[k]),
            )) && !(vm.esi() && (local_name matches LocalName::Bytes(b) && (b@ == ascii_bytes("esi:include"@)
            || b@ == ascii_bytes("esi:comment"@)))) ==> {
            &&& vm.directive(local_name, Namespace::Html) == StackDirective::Push
            &&& spec_with_content(vm.directive(local_name, Namespace::Html), self_closing)
        },
{
    lemma_void_elements_by_name(local_name, vm.esi());
}

} // verus!

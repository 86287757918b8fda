use vstd::prelude::*;
use crate::rewritable_units::capture_flags::{
    TokenCaptureFlags, COMMENTS, DOCTYPES, NEXT_END_TAG, NEXT_START_TAG, TEXT,
};
use crate::rewritable_units::element::{Element, EndTagHandler, opt_changes};
use crate::rewritable_units::token::StartTag;
use crate::selectors_vm::{MatchInfo, SelectorMatchingVm};
use crate::selectors_vm::stack::{ElementDescriptor, StackItem};

verus! {

/// What happens to a handler once it is called.
#[derive(Debug, Copy, Clone, PartialEq, Eq, Structural)]
pub enum ActionOnCall {
    Nothing,
    Deactivate,
    Remove,
}

/// Where the handlers of a selector are: their indices among the element, comment and
/// text handlers.
#[derive(Debug, Copy, Clone, PartialEq, Eq, Structural)]
pub struct SelectorHandlersLocator {
    pub element_handler_idx: Option<usize>,
    pub comment_handler_idx: Option<usize>,
    pub text_handler_idx: Option<usize>,
}

/// A handler, the number of its users and what happens to it once called.
#[derive(Debug)]
pub struct HandlerVecItem<H> {
    pub handler: H,
    pub user_count: usize,
    pub action_on_call: ActionOnCall,
}

/// Calls handlers: what a rewriter does with a handler when its time comes (runs the
/// user's code on the current token).
pub trait HandlerCaller<H> {
    /// The calls so far, in order: the index of the handler called, the handler as it
    /// was passed and the handler as the call left it.
    spec fn calls(&self) -> Seq<(usize, H, H)>;

    /// Calls `handler`, the handler at `idx` among those of the round of calls.
    fn call(&mut self, idx: usize, handler: &mut H)
        ensures
            final(self).calls() == old(self).calls().push((idx, *old(handler), *final(handler))),
    ;
}

/// A caller that only records which handlers it was asked to call.
pub struct CallLog<H> {
    pub indices: Vec<usize>,
    pub log: Ghost<Seq<(usize, H, H)>>,
}

impl<H> CallLog<H> {
    /// A log of no call.
    pub fn new() -> (r: CallLog<H>)
        ensures
            r.indices@.len() == 0,
            r.log@ == Seq::<(usize, H, H)>::empty(),
    {
        CallLog { indices: Vec::new(), log: Ghost(Seq::empty()) }
    }
}

impl<H> HandlerCaller<H> for CallLog<H> {
    open spec fn calls(&self) -> Seq<(usize, H, H)> {
        self.log@
    }

    fn call(&mut self, idx: usize, handler: &mut H) {
        self.indices.push(idx);
        proof {
            self.log@ = self.log@.push((idx, *handler, *handler));
        }
    }
}

/// The handlers, user counts and actions of the items, in order.
pub open spec fn item_entries<H>(items: Seq<HandlerVecItem<H>>) -> Seq<(H, usize, ActionOnCall)> {
    Seq::new(items.len(), |i: int| (items[i].handler, items[i].user_count, items[i].action_on_call))
}

/// The calls a round owes: the index and the handler of each item that has users, in
/// order.
pub open spec fn owed_calls<H>(entries: Seq<(H, usize, ActionOnCall)>) -> Seq<(usize, H)>
    decreases entries.len(),
{
    if entries.len() == 0 {
        Seq::empty()
    } else if entries.last().1 > 0 {
        owed_calls(entries.drop_last()).push(((entries.len() - 1) as usize, entries.last().0))
    } else {
        owed_calls(entries.drop_last())
    }
}

/// The calls made are those owed: same indices, same handlers, same order.
pub open spec fn calls_as_owed<H>(entries: Seq<(H, usize, ActionOnCall)>, calls: Seq<(usize, H, H)>) -> bool {
    &&& calls.len() == owed_calls(entries).len()
    &&& forall|k: int| 0 <= k < calls.len() ==> (#[trigger] calls[k]).0 == owed_calls(entries)[k].0 && calls[k].1
        == owed_calls(entries)[k].1
}

/// The items after a round of `calls`: each called item holds its handler as the call
/// left it and, by its action, keeps its users, loses them or is gone; the other items
/// stay as they were, in order.
pub open spec fn after_round<H>(entries: Seq<(H, usize, ActionOnCall)>, calls: Seq<(usize, H, H)>) -> Seq<
    (H, usize, ActionOnCall),
>
    decreases entries.len(),
{
    if entries.len() == 0 {
        Seq::empty()
    } else if entries.last().1 > 0 {
        let rest = after_round(entries.drop_last(), calls.drop_last());
        let h = calls.last().2;
        match entries.last().2 {
            ActionOnCall::Nothing => rest.push((h, entries.last().1, entries.last().2)),
            ActionOnCall::Deactivate => rest.push((h, 0usize, entries.last().2)),
            ActionOnCall::Remove => rest,
        }
    } else {
        after_round(entries.drop_last(), calls).push(entries.last())
    }
}

/// The sum of the user counts of the items.
pub open spec fn sum_counts(counts: Seq<(usize, ActionOnCall)>) -> nat
    decreases counts.len(),
{
    if counts.len() == 0 {
        0
    } else {
        sum_counts(counts.drop_last()) + counts.last().0 as nat
    }
}

/// The user counts and actions after every active handler is called: a handler that
/// deactivates on call loses its users, one that is removed on call is gone.
pub open spec fn after_calls(counts: Seq<(usize, ActionOnCall)>) -> Seq<(usize, ActionOnCall)>
    decreases counts.len(),
{
    if counts.len() == 0 {
        Seq::empty()
    } else {
        let rest = after_calls(counts.drop_last());
        let (c, a) = counts.last();
        if c == 0 {
            rest.push((c, a))
        } else {
            match a {
                ActionOnCall::Nothing => rest.push((c, a)),
                ActionOnCall::Deactivate => rest.push((0, a)),
                ActionOnCall::Remove => rest,
            }
        }
    }
}

/// Handlers with the number of their users; a handler is active while it has users.
#[derive(Debug)]
pub struct HandlerVec<H> {
    items: Vec<HandlerVecItem<H>>,
    user_count: usize,
}

impl<H> HandlerVec<H> {
    /// The user counts and actions of the handlers, in order.
    pub closed spec fn counts(&self) -> Seq<(usize, ActionOnCall)> {
        Seq::new(self.items@.len(), |i: int| (self.items@[i].user_count, self.items@[i].action_on_call))
    }

    /// The handlers, user counts and actions, in order.
    pub closed spec fn entries(&self) -> Seq<(H, usize, ActionOnCall)> {
        item_entries(self.items@)
    }

    /// The total number of users.
    pub closed spec fn total(&self) -> usize {
        self.user_count
    }

    /// The total is the sum of the user counts.
    pub closed spec fn inv(&self) -> bool {
        self.user_count == sum_counts(self.counts())
    }

    /// No handler.
    pub fn new() -> (r: HandlerVec<H>)
        ensures
            r.inv(),
            r.counts() == Seq::<(usize, ActionOnCall)>::empty(),
            r.entries() == Seq::<(H, usize, ActionOnCall)>::empty(),
            r.total() == 0,
    {
        let r = HandlerVec { items: Vec::new(), user_count: 0 };
        proof {
            assert(r.counts() =~= Seq::<(usize, ActionOnCall)>::empty());
            assert(r.entries() =~= Seq::<(H, usize, ActionOnCall)>::empty());
        }
        r
    }

    /// Adds a handler, with one user where it is always active.
    pub fn push(&mut self, handler: H, always_active: bool, action_on_call: ActionOnCall)
        requires
            old(self).inv(),
            old(self).total() < usize::MAX,
        ensures
            final(self).inv(),
            final(self).counts() == old(self).counts().push((if always_active { 1usize } else { 0usize }, action_on_call)),
            final(self).entries() == old(self).entries().push(
                (handler, if always_active { 1usize } else { 0usize }, action_on_call),
            ),
            final(self).total() == old(self).total() + if always_active { 1int } else { 0int },
    {
        let user_count: usize = if always_active { 1 } else { 0 };
        let item = HandlerVecItem { handler, user_count, action_on_call };
        self.user_count = self.user_count + item.user_count;
        self.items.push(item);
        proof {
            assert(self.counts() =~= old(self).counts().push((user_count, action_on_call)));
            assert(self.counts().drop_last() =~= old(self).counts());
            assert(self.entries() =~= old(self).entries().push((handler, user_count, action_on_call)));
        }
    }

    /// The number of handlers.
    pub fn len(&self) -> (r: usize)
        ensures
            r == self.counts().len(),
    {
        self.items.len()
    }

    /// Adds a user to the handler at `idx`.
    pub fn inc_user_count(&mut self, idx: usize)
        requires
            old(self).inv(),
            idx < old(self).counts().len(),
            old(self).total() < usize::MAX,
        ensures
            final(self).inv(),
            final(self).counts() == old(self).counts().update(idx as int,
                ((old(self).counts()[idx as int].0 + 1) as usize, old(self).counts()[idx as int].1)),
            final(self).counts()[idx as int].0 == old(self).counts()[idx as int].0 + 1,
            final(self).entries() == old(self).entries().update(
                idx as int,
                (old(self).entries()[idx as int].0, (old(self).entries()[idx as int].1 + 1) as usize, old(
                    self,
                ).entries()[idx as int].2),
            ),
            final(self).total() == old(self).total() + 1,
    {
        proof {
            lemma_count_le_sum(self.counts(), idx as int);
        }
        let mut item = self.items.remove(idx);
        item.user_count = item.user_count + 1;
        self.items.insert(idx, item);
        self.user_count = self.user_count + 1;
        proof {
            assert(self.counts() =~= old(self).counts().update(idx as int,
                ((old(self).counts()[idx as int].0 + 1) as usize, old(self).counts()[idx as int].1)));
            lemma_sum_update(old(self).counts(), idx as int,
                ((old(self).counts()[idx as int].0 + 1) as usize, old(self).counts()[idx as int].1));
            assert(self.entries() =~= old(self).entries().update(
                idx as int,
                (old(self).entries()[idx as int].0, (old(self).entries()[idx as int].1 + 1) as usize, old(
                    self,
                ).entries()[idx as int].2),
            ));
        }
    }

    /// Removes a user from the handler at `idx`.
    pub fn dec_user_count(&mut self, idx: usize)
        requires
            old(self).inv(),
            idx < old(self).counts().len(),
            old(self).counts()[idx as int].0 > 0,
        ensures
            final(self).inv(),
            final(self).counts() == old(self).counts().update(idx as int,
                ((old(self).counts()[idx as int].0 - 1) as usize, old(self).counts()[idx as int].1)),
            final(self).counts()[idx as int].0 == old(self).counts()[idx as int].0 - 1,
            final(self).entries() == old(self).entries().update(
                idx as int,
                (old(self).entries()[idx as int].0, (old(self).entries()[idx as int].1 - 1) as usize, old(
                    self,
                ).entries()[idx as int].2),
            ),
            final(self).total() == old(self).total() - 1,
    {
        proof {
            lemma_count_le_sum(self.counts(), idx as int);
        }
        let mut item = self.items.remove(idx);
        item.user_count = item.user_count - 1;
        self.items.insert(idx, item);
        self.user_count = self.user_count - 1;
        proof {
            assert(self.counts() =~= old(self).counts().update(idx as int,
                ((old(self).counts()[idx as int].0 - 1) as usize, old(self).counts()[idx as int].1)));
            lemma_sum_update(old(self).counts(), idx as int,
                ((old(self).counts()[idx as int].0 - 1) as usize, old(self).counts()[idx as int].1));
            assert(self.entries() =~= old(self).entries().update(
                idx as int,
                (old(self).entries()[idx as int].0, (old(self).entries()[idx as int].1 - 1) as usize, old(
                    self,
                ).entries()[idx as int].2),
            ));
        }
    }

    /// Whether some handler has users.
    pub fn has_active(&self) -> (r: bool)
        requires
            self.inv(),
        ensures
            r == exists|i: int| 0 <= i < self.counts().len() && (#[trigger] self.counts()[i]).0 > 0,
    {
        proof {
            lemma_sum_positive(self.counts());
        }
        self.user_count > 0
    }

    /// Calls every handler that has users, in the order they were added, each once;
    /// then a handler that deactivates on call loses its users and one that is removed
    /// on call is removed. The other handlers stay as they are, in order.
    pub fn call_active_handlers<C: HandlerCaller<H>>(&mut self, caller: &mut C)
        requires
            old(self).inv(),
        ensures
            final(self).inv(),
            final(self).counts() == after_calls(old(self).counts()),
            final(caller).calls().subrange(0, old(caller).calls().len() as int) == old(caller).calls(),
            calls_as_owed(
                old(self).entries(),
                final(caller).calls().subrange(old(caller).calls().len() as int, final(caller).calls().len() as int),
            ),
            final(self).entries() == after_round(
                old(self).entries(),
                final(caller).calls().subrange(old(caller).calls().len() as int, final(caller).calls().len() as int),
            ),
    {
        let ghost c0 = self.counts();
        let ghost e0 = self.entries();
        let ghost calls0 = caller.calls();
        let mut rest: Vec<HandlerVecItem<H>> = Vec::new();
        std::mem::swap(&mut rest, &mut self.items);
        let n = rest.len();
        let mut kept: Vec<HandlerVecItem<H>> = Vec::new();
        let mut total: usize = self.user_count;
        let mut i: usize = 0;
        proof {
            assert(c0.subrange(0, 0) =~= Seq::<(usize, ActionOnCall)>::empty());
            assert(e0.subrange(0, 0) =~= Seq::<(H, usize, ActionOnCall)>::empty());
            assert(c0.subrange(0, n as int) =~= c0);
            assert(caller.calls().subrange(0, calls0.len() as int) =~= calls0);
            assert(caller.calls().subrange(calls0.len() as int, caller.calls().len() as int) =~= Seq::<
                (usize, H, H),
            >::empty());
            assert(Seq::new(kept@.len(), |k: int| (kept@[k].user_count, kept@[k].action_on_call)) =~= after_calls(
                c0.subrange(0, 0),
            ));
            assert(item_entries(kept@) =~= Seq::<(H, usize, ActionOnCall)>::empty());
        }
        while i < n
            invariant
                n == c0.len(),
                n == e0.len(),
                i <= n,
                rest@.len() == n - i,
                forall|k: int| 0 <= k < rest@.len() ==> (#[trigger] rest@[k]).user_count == c0[i + k].0
                    && rest@[k].action_on_call == c0[i + k].1 && rest@[k].handler == e0[i + k].0,
                forall|k: int| 0 <= k < n ==> (#[trigger] e0[k]).1 == c0[k].0 && e0[k].2 == c0[k].1,
                Seq::new(kept@.len(), |k: int| (kept@[k].user_count, kept@[k].action_on_call)) == after_calls(
                    c0.subrange(0, i as int),
                ),
                total == sum_counts(after_calls(c0.subrange(0, i as int))) + sum_counts(
                    c0.subrange(i as int, n as int),
                ),
                caller.calls().len() >= calls0.len(),
                caller.calls().subrange(0, calls0.len() as int) == calls0,
                calls_as_owed(
                    e0.subrange(0, i as int),
                    caller.calls().subrange(calls0.len() as int, caller.calls().len() as int),
                ),
                item_entries(kept@) == after_round(
                    e0.subrange(0, i as int),
                    caller.calls().subrange(calls0.len() as int, caller.calls().len() as int),
                ),
            decreases n - i,
        {
            let ghost x = c0[i as int];
            let ghost pre = c0.subrange(0, i as int);
            let ghost epre = e0.subrange(0, i as int);
            let ghost nc = caller.calls().subrange(calls0.len() as int, caller.calls().len() as int);
            let ghost calls_before = caller.calls();
            let ghost kept_before = kept@;
            proof {
                assert(c0.subrange(0, i + 1).drop_last() =~= pre);
                assert(c0.subrange(0, i + 1).last() == x);
                assert(e0.subrange(0, i + 1).drop_last() =~= epre);
                assert(e0.subrange(0, i + 1).last() == e0[i as int]);
                lemma_sum_concat(seq![x], c0.subrange(i + 1, n as int));
                assert(seq![x] + c0.subrange(i + 1, n as int) =~= c0.subrange(i as int, n as int));
                lemma_sum_single(x);
                assert(rest@[0].user_count == x.0);
                assert(e0[i as int].1 == x.0 && e0[i as int].2 == x.1);
            }
            let ghost rest0 = rest@;
            let mut item = rest.remove(0);
            proof {
                assert forall|k: int| 0 <= k < rest@.len() implies (#[trigger] rest@[k]).user_count == c0[i + 1 + k].0
                    && rest@[k].action_on_call == c0[i + 1 + k].1 && rest@[k].handler == e0[i + 1 + k].0 by {
                    assert(rest@[k] == rest0[k + 1]);
                }
                assert(item.handler == e0[i as int].0);
            }
            if item.user_count > 0 {
                let ghost h_before = item.handler;
                caller.call(i, &mut item.handler);
                proof {
                    let nc2 = caller.calls().subrange(calls0.len() as int, caller.calls().len() as int);
                    assert(caller.calls().subrange(0, calls0.len() as int) =~= calls0);
                    assert(nc2 =~= nc.push((i, h_before, item.handler)));
                    assert(nc2.drop_last() =~= nc);
                    assert(owed_calls(e0.subrange(0, i + 1)) == owed_calls(epre).push((i, e0[i as int].0)));
                    assert forall|k: int| 0 <= k < nc2.len() implies (#[trigger] nc2[k]).0 == owed_calls(
                        e0.subrange(0, i + 1),
                    )[k].0 && nc2[k].1 == owed_calls(e0.subrange(0, i + 1))[k].1 by {
                        if k < nc.len() {
                            assert(nc2[k] == nc[k]);
                        }
                    }
                }
                match item.action_on_call {
                    ActionOnCall::Nothing => {
                        kept.push(item);
                        proof {
                            assert(after_calls(pre).push(x).drop_last() =~= after_calls(pre));
                        }
                    },
                    ActionOnCall::Deactivate => {
                        total = total - item.user_count;
                        item.user_count = 0;
                        kept.push(item);
                        proof {
                            assert(after_calls(pre).push((0usize, x.1)).drop_last() =~= after_calls(pre));
                        }
                    },
                    ActionOnCall::Remove => {
                        total = total - item.user_count;
                    },
                }
                proof {
                    let nc2 = caller.calls().subrange(calls0.len() as int, caller.calls().len() as int);
                    assert(item_entries(kept@) =~= after_round(e0.subrange(0, i + 1), nc2));
                }
            } else {
                kept.push(item);
                proof {
                    assert(after_calls(pre).push(x).drop_last() =~= after_calls(pre));
                    assert(owed_calls(e0.subrange(0, i + 1)) == owed_calls(epre));
                    assert(item_entries(kept@) =~= after_round(e0.subrange(0, i + 1), nc));
                }
            }
            proof {
                assert(Seq::new(kept@.len(), |k: int| (kept@[k].user_count, kept@[k].action_on_call)) =~= after_calls(
                    c0.subrange(0, i + 1),
                ));
            }
            i = i + 1;
        }
        self.items = kept;
        self.user_count = total;
        proof {
            assert(c0.subrange(0, n as int) =~= c0);
            assert(e0.subrange(0, n as int) =~= e0);
            assert(c0.subrange(n as int, n as int) =~= Seq::<(usize, ActionOnCall)>::empty());
            assert(self.counts() =~= after_calls(c0));
        }
    }
}

/// A user added to a handler and then taken away leaves the counts as they were, and
/// the other way round.
pub proof fn lemma_inc_dec_restores(counts: Seq<(usize, ActionOnCall)>, idx: int)
    requires
        0 <= idx < counts.len(),
    ensures
        counts[idx].0 < usize::MAX ==> counts.update(idx, ((counts[idx].0 + 1) as usize, counts[idx].1)).update(
            idx,
            ((counts[idx].0 + 1 - 1) as usize, counts[idx].1),
        ) == counts,
        counts[idx].0 > 0 ==> counts.update(idx, ((counts[idx].0 - 1) as usize, counts[idx].1)).update(
            idx,
            ((counts[idx].0 - 1 + 1) as usize, counts[idx].1),
        ) == counts,
{
    assert(counts[idx].0 < usize::MAX ==> counts.update(idx, ((counts[idx].0 + 1) as usize, counts[idx].1)).update(
        idx,
        ((counts[idx].0 + 1 - 1) as usize, counts[idx].1),
    ) =~= counts);
    assert(counts[idx].0 > 0 ==> counts.update(idx, ((counts[idx].0 - 1) as usize, counts[idx].1)).update(
        idx,
        ((counts[idx].0 - 1 + 1) as usize, counts[idx].1),
    ) =~= counts);
}

/// The count of an item is at most the sum.
proof fn lemma_count_le_sum(counts: Seq<(usize, ActionOnCall)>, i: int)
    requires
        0 <= i < counts.len(),
    ensures
        counts[i].0 <= sum_counts(counts),
    decreases counts.len(),
{
    if i < counts.len() - 1 {
        lemma_count_le_sum(counts.drop_last(), i);
    }
}

/// Changing one count changes the sum by the difference.
proof fn lemma_sum_update(counts: Seq<(usize, ActionOnCall)>, i: int, x: (usize, ActionOnCall))
    requires
        0 <= i < counts.len(),
    ensures
        sum_counts(counts.update(i, x)) + counts[i].0 == sum_counts(counts) + x.0,
    decreases counts.len(),
{
    if i == counts.len() - 1 {
        assert(counts.update(i, x).drop_last() =~= counts.drop_last());
    } else {
        assert(counts.update(i, x).drop_last() =~= counts.drop_last().update(i, x));
        lemma_sum_update(counts.drop_last(), i, x);
    }
}

/// The sum is positive exactly when some count is.
proof fn lemma_sum_positive(counts: Seq<(usize, ActionOnCall)>)
    ensures
        (sum_counts(counts) > 0) == exists|i: int| 0 <= i < counts.len() && (#[trigger] counts[i]).0 > 0,
    decreases counts.len(),
{
    if counts.len() > 0 {
        lemma_sum_positive(counts.drop_last());
        if exists|i: int| 0 <= i < counts.drop_last().len() && (#[trigger] counts.drop_last()[i]).0 > 0 {
            let i = choose|i: int| 0 <= i < counts.drop_last().len() && (#[trigger] counts.drop_last()[i]).0 > 0;
            assert(counts[i] == counts.drop_last()[i]);
        }
        if exists|i: int| 0 <= i < counts.len() && (#[trigger] counts[i]).0 > 0 {
            let i = choose|i: int| 0 <= i < counts.len() && (#[trigger] counts[i]).0 > 0;
            if i < counts.len() - 1 {
                assert(counts.drop_last()[i] == counts[i]);
            }
        }
    }
}

proof fn lemma_sum_single(x: (usize, ActionOnCall))
    ensures
        sum_counts(seq![x]) == x.0,
{
    assert(seq![x].drop_last() =~= Seq::<(usize, ActionOnCall)>::empty());
    assert(sum_counts(Seq::<(usize, ActionOnCall)>::empty()) == 0);
}

proof fn lemma_sum_concat(a: Seq<(usize, ActionOnCall)>, b: Seq<(usize, ActionOnCall)>)
    ensures
        sum_counts(a + b) == sum_counts(a) + sum_counts(b),
    decreases b.len(),
{
    if b.len() == 0 {
        assert(a + b =~= a);
    } else {
        assert((a + b).drop_last() =~= a + b.drop_last());
        lemma_sum_concat(a, b.drop_last());
    }
}


/// The user counts after one user less for each of the handlers `idxs`, in order; `None`
/// where some handler would have none to lose.
pub open spec fn dec_counts(counts: Seq<(usize, ActionOnCall)>, idxs: Seq<usize>) -> Option<Seq<(usize, ActionOnCall)>>
    decreases idxs.len(),
{
    if idxs.len() == 0 {
        Some(counts)
    } else {
        match dec_counts(counts, idxs.drop_last()) {
            Some(c) => {
                let i = idxs.last() as int;
                if i < c.len() && c[i].0 > 0 {
                    Some(c.update(i, ((c[i].0 - 1) as usize, c[i].1)))
                } else {
                    None
                }
            },
            None => None,
        }
    }
}

/// The comment handlers of the selectors whose payloads are `payloads`.
pub open spec fn comment_idxs(locators: Seq<SelectorHandlersLocator>, payloads: Seq<usize>) -> Seq<usize>
    decreases payloads.len(),
{
    if payloads.len() == 0 {
        Seq::empty()
    } else {
        let rest = comment_idxs(locators, payloads.drop_last());
        match locators[payloads.last() as int].comment_handler_idx {
            Some(i) => rest.push(i),
            None => rest,
        }
    }
}

/// The text handlers of the selectors whose payloads are `payloads`.
pub open spec fn text_idxs(locators: Seq<SelectorHandlersLocator>, payloads: Seq<usize>) -> Seq<usize>
    decreases payloads.len(),
{
    if payloads.len() == 0 {
        Seq::empty()
    } else {
        let rest = text_idxs(locators, payloads.drop_last());
        match locators[payloads.last() as int].text_handler_idx {
            Some(i) => rest.push(i),
            None => rest,
        }
    }
}

/// Dispatches the tokens of the document to the content handlers: keeps, for each kind
/// of handler, which handlers are active, and the handlers of each selector.
pub struct ContentHandlersDispatcher<D, C, T, ET, EL> {
    doctype_handlers: HandlerVec<D>,
    comment_handlers: HandlerVec<C>,
    text_handlers: HandlerVec<T>,
    end_tag_handlers: HandlerVec<ET>,
    element_handlers: HandlerVec<EL>,
    selector_locators: Vec<SelectorHandlersLocator>,
    next_element_can_have_content: bool,
    matched_elements_with_removed_content: usize,
}

impl<D, C, T, ET, EL> ContentHandlersDispatcher<D, C, T, ET, EL> {
    /// The handlers of the selectors, by payload.
    pub closed spec fn locators(&self) -> Seq<SelectorHandlersLocator> {
        self.selector_locators@
    }

    /// The user counts of the doctype handlers.
    pub closed spec fn doctype_counts(&self) -> Seq<(usize, ActionOnCall)> {
        self.doctype_handlers.counts()
    }

    /// The user counts of the comment handlers.
    pub closed spec fn comment_counts(&self) -> Seq<(usize, ActionOnCall)> {
        self.comment_handlers.counts()
    }

    /// The user counts of the text handlers.
    pub closed spec fn text_counts(&self) -> Seq<(usize, ActionOnCall)> {
        self.text_handlers.counts()
    }

    /// The user counts of the end tag handlers.
    pub closed spec fn end_tag_counts(&self) -> Seq<(usize, ActionOnCall)> {
        self.end_tag_handlers.counts()
    }

    /// The user counts of the element handlers.
    pub closed spec fn element_counts(&self) -> Seq<(usize, ActionOnCall)> {
        self.element_handlers.counts()
    }

    /// The doctype handlers, with their user counts and actions.
    pub closed spec fn doctype_entries(&self) -> Seq<(D, usize, ActionOnCall)> {
        self.doctype_handlers.entries()
    }

    /// The comment handlers, with their user counts and actions.
    pub closed spec fn comment_entries(&self) -> Seq<(C, usize, ActionOnCall)> {
        self.comment_handlers.entries()
    }

    /// The text handlers, with their user counts and actions.
    pub closed spec fn text_entries(&self) -> Seq<(T, usize, ActionOnCall)> {
        self.text_handlers.entries()
    }

    /// The end tag handlers, with their user counts and actions.
    pub closed spec fn end_tag_entries(&self) -> Seq<(ET, usize, ActionOnCall)> {
        self.end_tag_handlers.entries()
    }

    /// The element handlers, with their user counts and actions.
    pub closed spec fn element_entries(&self) -> Seq<(EL, usize, ActionOnCall)> {
        self.element_handlers.entries()
    }

    /// Whether the next element can have content.
    pub closed spec fn next_can_have_content(&self) -> bool {
        self.next_element_can_have_content
    }

    /// How many matched elements have their content removed.
    pub closed spec fn removed_content_count(&self) -> usize {
        self.matched_elements_with_removed_content
    }

    /// The totals of every handler list are the sums of their user counts, and every
    /// selector's handlers exist.
    pub closed spec fn inv(&self) -> bool {
        &&& self.doctype_handlers.inv()
        &&& self.comment_handlers.inv()
        &&& self.text_handlers.inv()
        &&& self.end_tag_handlers.inv()
        &&& self.element_handlers.inv()
        &&& forall|k: int| 0 <= k < self.selector_locators@.len() ==> locator_wf(#[trigger] self.selector_locators@[k],
            self.element_handlers.counts().len(), self.comment_handlers.counts().len(), self.text_handlers.counts().len())
        &&& no_removal(self.element_handlers.counts())
        &&& no_removal(self.comment_handlers.counts())
        &&& no_removal(self.text_handlers.counts())
    }

    /// Every total is below the largest count, so one more user fits.
    pub closed spec fn room(&self) -> bool {
        &&& self.doctype_handlers.total() < usize::MAX
        &&& self.comment_handlers.total() < usize::MAX
        &&& self.text_handlers.total() < usize::MAX
        &&& self.end_tag_handlers.total() < usize::MAX
        &&& self.element_handlers.total() < usize::MAX
    }

    /// No handler.
    pub fn new() -> (r: Self)
        ensures
            r.inv(),
            r.room(),
            r.locators().len() == 0,
            r.removed_content_count() == 0,
    {
        ContentHandlersDispatcher {
            doctype_handlers: HandlerVec::new(),
            comment_handlers: HandlerVec::new(),
            text_handlers: HandlerVec::new(),
            end_tag_handlers: HandlerVec::new(),
            element_handlers: HandlerVec::new(),
            selector_locators: Vec::new(),
            next_element_can_have_content: false,
            matched_elements_with_removed_content: 0,
        }
    }

    /// Adds handlers for the whole document; they are always active.
    pub fn add_document_content_handlers(&mut self, doctype: Option<D>, comments: Option<C>, text: Option<T>)
        requires
            old(self).inv(),
            old(self).room(),
        ensures
            final(self).inv(),
            final(self).doctype_counts() == match doctype {
                Some(_) => old(self).doctype_counts().push((1usize, ActionOnCall::Nothing)),
                None => old(self).doctype_counts(),
            },
            final(self).comment_counts() == match comments {
                Some(_) => old(self).comment_counts().push((1usize, ActionOnCall::Nothing)),
                None => old(self).comment_counts(),
            },
            final(self).text_counts() == match text {
                Some(_) => old(self).text_counts().push((1usize, ActionOnCall::Nothing)),
                None => old(self).text_counts(),
            },
            final(self).locators() == old(self).locators(),
            final(self).element_counts() == old(self).element_counts(),
            final(self).end_tag_counts() == old(self).end_tag_counts(),
            final(self).next_can_have_content() == old(self).next_can_have_content(),
            final(self).removed_content_count() == old(self).removed_content_count(),
    {
        if let Some(handler) = doctype {
            self.doctype_handlers.push(handler, true, ActionOnCall::Nothing);
        }
        if let Some(handler) = comments {
            self.comment_handlers.push(handler, true, ActionOnCall::Nothing);
        }
        if let Some(handler) = text {
            self.text_handlers.push(handler, true, ActionOnCall::Nothing);
        }
        proof {
            lemma_locators_grow(old(self).selector_locators@, old(self).element_handlers.counts().len(),
                old(self).comment_handlers.counts().len(), old(self).text_handlers.counts().len(),
                self.element_handlers.counts().len(), self.comment_handlers.counts().len(), self.text_handlers.counts().len());
        }
    }

    /// Adds the handlers of a selector, inactive until an element matches it, and returns
    /// where they are; the selector's payload is the number of selectors added before it.
    pub fn add_selector_associated_handlers(&mut self, element: Option<EL>, comments: Option<C>, text: Option<T>) -> (r:
        SelectorHandlersLocator)
        requires
            old(self).inv(),
            old(self).room(),
        ensures
            final(self).inv(),
            final(self).locators() == old(self).locators().push(r),
            r.element_handler_idx == match element {
                Some(_) => Some(old(self).element_counts().len() as usize),
                None => None::<usize>,
            },
            r.comment_handler_idx == match comments {
                Some(_) => Some(old(self).comment_counts().len() as usize),
                None => None::<usize>,
            },
            r.text_handler_idx == match text {
                Some(_) => Some(old(self).text_counts().len() as usize),
                None => None::<usize>,
            },
            final(self).element_counts() == match element {
                Some(_) => old(self).element_counts().push((0usize, ActionOnCall::Deactivate)),
                None => old(self).element_counts(),
            },
            final(self).comment_counts() == match comments {
                Some(_) => old(self).comment_counts().push((0usize, ActionOnCall::Nothing)),
                None => old(self).comment_counts(),
            },
            final(self).text_counts() == match text {
                Some(_) => old(self).text_counts().push((0usize, ActionOnCall::Nothing)),
                None => old(self).text_counts(),
            },
    {
        let element_handler_idx = match element {
            Some(h) => {
                self.element_handlers.push(h, false, ActionOnCall::Deactivate);
                Some(self.element_handlers.len() - 1)
            },
            None => None,
        };
        let comment_handler_idx = match comments {
            Some(h) => {
                self.comment_handlers.push(h, false, ActionOnCall::Nothing);
                Some(self.comment_handlers.len() - 1)
            },
            None => None,
        };
        let text_handler_idx = match text {
            Some(h) => {
                self.text_handlers.push(h, false, ActionOnCall::Nothing);
                Some(self.text_handlers.len() - 1)
            },
            None => None,
        };
        let locator = SelectorHandlersLocator { element_handler_idx, comment_handler_idx, text_handler_idx };
        proof {
            lemma_locators_grow(old(self).selector_locators@, old(self).element_handlers.counts().len(),
                old(self).comment_handlers.counts().len(), old(self).text_handlers.counts().len(),
                self.element_handlers.counts().len(), self.comment_handlers.counts().len(), self.text_handlers.counts().len());
        }
        self.selector_locators.push(locator);
        proof {
            assert forall|k: int| 0 <= k < self.selector_locators@.len() implies locator_wf(#[trigger] self.selector_locators@[k],
                self.element_handlers.counts().len(), self.comment_handlers.counts().len(), self.text_handlers.counts().len()) by {
                if k < old(self).selector_locators@.len() {
                    assert(self.selector_locators@[k] == old(self).selector_locators@[k]);
                }
            }
        }
        locator
    }

    /// Calls the active doctype handlers, in the order they were added, each once
    /// (see `HandlerVec::call_active_handlers`); the other handlers are left as they are.
    pub fn call_doctype_handlers<K: HandlerCaller<D>>(&mut self, caller: &mut K)
        requires
            old(self).inv(),
        ensures
            final(self).inv(),
            old(self).room() ==> final(self).room(),
            final(self).doctype_counts() == after_calls(old(self).doctype_counts()),
            final(caller).calls().subrange(0, old(caller).calls().len() as int) == old(caller).calls(),
            calls_as_owed(
                old(self).doctype_entries(),
                final(caller).calls().subrange(old(caller).calls().len() as int, final(caller).calls().len() as int),
            ),
            final(self).doctype_entries() == after_round(
                old(self).doctype_entries(),
                final(caller).calls().subrange(old(caller).calls().len() as int, final(caller).calls().len() as int),
            ),
            final(self).comment_counts() == old(self).comment_counts(),
            final(self).text_counts() == old(self).text_counts(),
            final(self).end_tag_counts() == old(self).end_tag_counts(),
            final(self).element_counts() == old(self).element_counts(),
            final(self).locators() == old(self).locators(),
            final(self).next_can_have_content() == old(self).next_can_have_content(),
            final(self).removed_content_count() == old(self).removed_content_count(),
    {
        self.doctype_handlers.call_active_handlers(caller);
        proof {
            lemma_sum_after_calls_le(old(self).doctype_handlers.counts());
            lemma_locators_grow(old(self).selector_locators@, old(self).element_handlers.counts().len(),
                old(self).comment_handlers.counts().len(), old(self).text_handlers.counts().len(),
                self.element_handlers.counts().len(), self.comment_handlers.counts().len(), self.text_handlers.counts().len());
        }
    }

    /// Calls the active comment handlers, in the order they were added, each once
    /// (see `HandlerVec::call_active_handlers`); the other handlers are left as they are.
    pub fn call_comment_handlers<K: HandlerCaller<C>>(&mut self, caller: &mut K)
        requires
            old(self).inv(),
        ensures
            final(self).inv(),
            old(self).room() ==> final(self).room(),
            final(self).comment_counts() == after_calls(old(self).comment_counts()),
            final(caller).calls().subrange(0, old(caller).calls().len() as int) == old(caller).calls(),
            calls_as_owed(
                old(self).comment_entries(),
                final(caller).calls().subrange(old(caller).calls().len() as int, final(caller).calls().len() as int),
            ),
            final(self).comment_entries() == after_round(
                old(self).comment_entries(),
                final(caller).calls().subrange(old(caller).calls().len() as int, final(caller).calls().len() as int),
            ),
            final(self).doctype_counts() == old(self).doctype_counts(),
            final(self).text_counts() == old(self).text_counts(),
            final(self).end_tag_counts() == old(self).end_tag_counts(),
            final(self).element_counts() == old(self).element_counts(),
            final(self).locators() == old(self).locators(),
            final(self).next_can_have_content() == old(self).next_can_have_content(),
            final(self).removed_content_count() == old(self).removed_content_count(),
    {
        self.comment_handlers.call_active_handlers(caller);
        proof {
            lemma_after_calls_no_removal(old(self).comment_handlers.counts());
            lemma_sum_after_calls_le(old(self).comment_handlers.counts());
            lemma_locators_grow(old(self).selector_locators@, old(self).element_handlers.counts().len(),
                old(self).comment_handlers.counts().len(), old(self).text_handlers.counts().len(),
                self.element_handlers.counts().len(), self.comment_handlers.counts().len(), self.text_handlers.counts().len());
        }
    }

    /// Calls the active text handlers, in the order they were added, each once
    /// (see `HandlerVec::call_active_handlers`); the other handlers are left as they are.
    pub fn call_text_handlers<K: HandlerCaller<T>>(&mut self, caller: &mut K)
        requires
            old(self).inv(),
        ensures
            final(self).inv(),
            old(self).room() ==> final(self).room(),
            final(self).text_counts() == after_calls(old(self).text_counts()),
            final(caller).calls().subrange(0, old(caller).calls().len() as int) == old(caller).calls(),
            calls_as_owed(
                old(self).text_entries(),
                final(caller).calls().subrange(old(caller).calls().len() as int, final(caller).calls().len() as int),
            ),
            final(self).text_entries() == after_round(
                old(self).text_entries(),
                final(caller).calls().subrange(old(caller).calls().len() as int, final(caller).calls().len() as int),
            ),
            final(self).doctype_counts() == old(self).doctype_counts(),
            final(self).comment_counts() == old(self).comment_counts(),
            final(self).end_tag_counts() == old(self).end_tag_counts(),
            final(self).element_counts() == old(self).element_counts(),
            final(self).locators() == old(self).locators(),
            final(self).next_can_have_content() == old(self).next_can_have_content(),
            final(self).removed_content_count() == old(self).removed_content_count(),
    {
        self.text_handlers.call_active_handlers(caller);
        proof {
            lemma_after_calls_no_removal(old(self).text_handlers.counts());
            lemma_sum_after_calls_le(old(self).text_handlers.counts());
            lemma_locators_grow(old(self).selector_locators@, old(self).element_handlers.counts().len(),
                old(self).comment_handlers.counts().len(), old(self).text_handlers.counts().len(),
                self.element_handlers.counts().len(), self.comment_handlers.counts().len(), self.text_handlers.counts().len());
        }
    }

    /// Calls the active end tag handlers, in the order they were added, each once
    /// (see `HandlerVec::call_active_handlers`); the other handlers are left as they are.
    pub fn call_end_tag_handlers<K: HandlerCaller<ET>>(&mut self, caller: &mut K)
        requires
            old(self).inv(),
        ensures
            final(self).inv(),
            old(self).room() ==> final(self).room(),
            final(self).end_tag_counts() == after_calls(old(self).end_tag_counts()),
            final(caller).calls().subrange(0, old(caller).calls().len() as int) == old(caller).calls(),
            calls_as_owed(
                old(self).end_tag_entries(),
                final(caller).calls().subrange(old(caller).calls().len() as int, final(caller).calls().len() as int),
            ),
            final(self).end_tag_entries() == after_round(
                old(self).end_tag_entries(),
                final(caller).calls().subrange(old(caller).calls().len() as int, final(caller).calls().len() as int),
            ),
            final(self).doctype_counts() == old(self).doctype_counts(),
            final(self).comment_counts() == old(self).comment_counts(),
            final(self).text_counts() == old(self).text_counts(),
            final(self).element_counts() == old(self).element_counts(),
            final(self).locators() == old(self).locators(),
            final(self).next_can_have_content() == old(self).next_can_have_content(),
            final(self).removed_content_count() == old(self).removed_content_count(),
    {
        self.end_tag_handlers.call_active_handlers(caller);
        proof {
            lemma_sum_after_calls_le(old(self).end_tag_handlers.counts());
            lemma_locators_grow(old(self).selector_locators@, old(self).element_handlers.counts().len(),
                old(self).comment_handlers.counts().len(), old(self).text_handlers.counts().len(),
                self.element_handlers.counts().len(), self.comment_handlers.counts().len(), self.text_handlers.counts().len());
        }
    }

    /// Calls the active element handlers, in the order they were added, each once
    /// (see `HandlerVec::call_active_handlers`); the other handlers are left as they are.
    pub fn call_element_handlers<K: HandlerCaller<EL>>(&mut self, caller: &mut K)
        requires
            old(self).inv(),
        ensures
            final(self).inv(),
            old(self).room() ==> final(self).room(),
            final(self).element_counts() == after_calls(old(self).element_counts()),
            final(caller).calls().subrange(0, old(caller).calls().len() as int) == old(caller).calls(),
            calls_as_owed(
                old(self).element_entries(),
                final(caller).calls().subrange(old(caller).calls().len() as int, final(caller).calls().len() as int),
            ),
            final(self).element_entries() == after_round(
                old(self).element_entries(),
                final(caller).calls().subrange(old(caller).calls().len() as int, final(caller).calls().len() as int),
            ),
            final(self).doctype_counts() == old(self).doctype_counts(),
            final(self).comment_counts() == old(self).comment_counts(),
            final(self).text_counts() == old(self).text_counts(),
            final(self).end_tag_counts() == old(self).end_tag_counts(),
            final(self).locators() == old(self).locators(),
            final(self).next_can_have_content() == old(self).next_can_have_content(),
            final(self).removed_content_count() == old(self).removed_content_count(),
    {
        self.element_handlers.call_active_handlers(caller);
        proof {
            lemma_after_calls_no_removal(old(self).element_handlers.counts());
            lemma_sum_after_calls_le(old(self).element_handlers.counts());
            lemma_locators_grow(old(self).selector_locators@, old(self).element_handlers.counts().len(),
                old(self).comment_handlers.counts().len(), old(self).text_handlers.counts().len(),
                self.element_handlers.counts().len(), self.comment_handlers.counts().len(), self.text_handlers.counts().len());
        }
    }

    /// The number of selectors whose handlers were added.
    pub fn locators_len(&self) -> (r: usize)
        ensures
            r == self.locators().len(),
    {
        self.selector_locators.len()
    }

    /// Whether a matched element has its content removed.
    pub fn has_matched_elements_with_removed_content(&self) -> (r: bool)
        ensures
            r == (self.removed_content_count() > 0),
    {
        self.matched_elements_with_removed_content > 0
    }

    /// An element matched a selector: its element handler gets a user and, where the
    /// element can have content, so do its comment and text handlers.
    pub fn start_matching(&mut self, match_info: MatchInfo)
        requires
            old(self).inv(),
            old(self).room(),
            match_info.payload < old(self).locators().len(),
        ensures
            final(self).inv(),
            final(self).locators() == old(self).locators(),
            final(self).next_can_have_content() == match_info.with_content,
            ({
                let l = old(self).locators()[match_info.payload as int];
                &&& final(self).element_counts() == inc_at(old(self).element_counts(), l.element_handler_idx)
                &&& final(self).comment_counts() == if match_info.with_content {
                    inc_at(old(self).comment_counts(), l.comment_handler_idx)
                } else {
                    old(self).comment_counts()
                }
                &&& final(self).text_counts() == if match_info.with_content {
                    inc_at(old(self).text_counts(), l.text_handler_idx)
                } else {
                    old(self).text_counts()
                }
            }),
            final(self).doctype_counts() == old(self).doctype_counts(),
            final(self).end_tag_counts() == old(self).end_tag_counts(),
            final(self).removed_content_count() == old(self).removed_content_count(),
    {
        let locator = self.selector_locators[match_info.payload];
        proof {
            assert(locator_wf(locator, self.element_handlers.counts().len(), self.comment_handlers.counts().len(),
                self.text_handlers.counts().len()));
        }
        if match_info.with_content {
            if let Some(idx) = locator.comment_handler_idx {
                self.comment_handlers.inc_user_count(idx);
            }
            if let Some(idx) = locator.text_handler_idx {
                self.text_handlers.inc_user_count(idx);
            }
        }
        if let Some(idx) = locator.element_handler_idx {
            self.element_handlers.inc_user_count(idx);
        }
        self.next_element_can_have_content = match_info.with_content;
        proof {
            lemma_locators_grow(old(self).selector_locators@, old(self).element_handlers.counts().len(),
                old(self).comment_handlers.counts().len(), old(self).text_handlers.counts().len(),
                self.element_handlers.counts().len(), self.comment_handlers.counts().len(), self.text_handlers.counts().len());
        }
    }

    /// The comment and text handlers of the selectors that an element matched lose a
    /// user; its end tag handler, if it has one, gains one.
    pub fn stop_matching(&mut self, elem_desc: ElementDescriptor)
        requires
            old(self).inv(),
            old(self).room(),
            forall|k: int| 0 <= k < elem_desc.matched_payload@.len() ==> #[trigger] elem_desc.matched_payload@[k]
                < old(self).locators().len(),
            dec_counts(old(self).comment_counts(), comment_idxs(old(self).locators(), elem_desc.matched_payload@)) is Some,
            dec_counts(old(self).text_counts(), text_idxs(old(self).locators(), elem_desc.matched_payload@)) is Some,
            match elem_desc.end_tag_handler_idx {
                Some(i) => i < old(self).end_tag_counts().len(),
                None => true,
            },
            elem_desc.remove_content ==> old(self).removed_content_count() > 0,
        ensures
            final(self).inv(),
            final(self).locators() == old(self).locators(),
            Some(final(self).comment_counts()) == dec_counts(old(self).comment_counts(),
                comment_idxs(old(self).locators(), elem_desc.matched_payload@)),
            Some(final(self).text_counts()) == dec_counts(old(self).text_counts(),
                text_idxs(old(self).locators(), elem_desc.matched_payload@)),
            final(self).end_tag_counts() == inc_at(old(self).end_tag_counts(), elem_desc.end_tag_handler_idx),
            final(self).removed_content_count() == if elem_desc.remove_content {
                old(self).removed_content_count() - 1
            } else {
                old(self).removed_content_count() as int
            },
            final(self).element_counts() == old(self).element_counts(),
            final(self).doctype_counts() == old(self).doctype_counts(),
    {
        let ghost locs = self.selector_locators@;
        let ghost ps = elem_desc.matched_payload@;
        let ghost c0 = self.comment_handlers.counts();
        let ghost t0 = self.text_handlers.counts();
        let mut i: usize = 0;
        proof {
            assert(ps.take(0) =~= Seq::<usize>::empty());
            lemma_dec_prefix(c0, comment_idxs(locs, ps), 0);
            lemma_dec_prefix(t0, text_idxs(locs, ps), 0);
        }
        while i < elem_desc.matched_payload.len()
            invariant
                i <= ps.len(),
                ps == elem_desc.matched_payload@,
                locs == self.selector_locators@,
                locs == old(self).selector_locators@,
                self.comment_handlers.inv(),
                self.text_handlers.inv(),
                self.comment_handlers.counts().len() == c0.len(),
                self.text_handlers.counts().len() == t0.len(),
                no_removal(self.comment_handlers.counts()),
                no_removal(self.text_handlers.counts()),
                forall|k: int| 0 <= k < locs.len() ==> locator_wf(#[trigger] locs[k],
                    self.element_handlers.counts().len(), c0.len(), t0.len()),
                forall|k: int| 0 <= k < ps.len() ==> #[trigger] ps[k] < locs.len(),
                dec_counts(c0, comment_idxs(locs, ps)) is Some,
                dec_counts(t0, text_idxs(locs, ps)) is Some,
                Some(self.comment_handlers.counts()) == dec_counts(c0, comment_idxs(locs, ps.take(i as int))),
                Some(self.text_handlers.counts()) == dec_counts(t0, text_idxs(locs, ps.take(i as int))),
                self.element_handlers == old(self).element_handlers,
                self.doctype_handlers == old(self).doctype_handlers,
                self.end_tag_handlers == old(self).end_tag_handlers,
                self.matched_elements_with_removed_content == old(self).matched_elements_with_removed_content,
            decreases ps.len() - i,
        {
            let p = elem_desc.matched_payload[i];
            let locator = self.selector_locators[p];
            proof {
                assert(ps.take(i + 1).drop_last() =~= ps.take(i as int));
                lemma_idxs_prefix(locs, ps, i as int);
                lemma_idxs_take(locs, ps, i as int);
                lemma_dec_prefix(c0, comment_idxs(locs, ps), comment_idxs(locs, ps.take(i as int)).len() as int);
                lemma_dec_prefix(t0, text_idxs(locs, ps), text_idxs(locs, ps.take(i as int)).len() as int);
                let ci = comment_idxs(locs, ps);
                let cj = comment_idxs(locs, ps.take(i as int)).len() as int;
                if locs[ps[i as int] as int].comment_handler_idx is Some {
                    assert(ci.take(cj + 1) == comment_idxs(locs, ps.take(i + 1)));
                    assert(ci[cj] == ci.take(cj + 1)[cj]);
                    assert(ci.take(cj + 1) =~= ci.take(cj).push(ci[cj]));
                }
                let ti = text_idxs(locs, ps);
                let tj = text_idxs(locs, ps.take(i as int)).len() as int;
                if locs[ps[i as int] as int].text_handler_idx is Some {
                    assert(ti.take(tj + 1) == text_idxs(locs, ps.take(i + 1)));
                    assert(ti[tj] == ti.take(tj + 1)[tj]);
                    assert(ti.take(tj + 1) =~= ti.take(tj).push(ti[tj]));
                }
                assert(locator_wf(locs[p as int], self.element_handlers.counts().len(), c0.len(), t0.len()));
            }
            if let Some(idx) = locator.comment_handler_idx {
                let ghost before = self.comment_handlers.counts();
                self.comment_handlers.dec_user_count(idx);
                proof {
                    assert forall|j: int| 0 <= j < self.comment_handlers.counts().len() implies (
                    #[trigger] self.comment_handlers.counts()[j]).1 != ActionOnCall::Remove by {
                        assert(self.comment_handlers.counts()[j].1 == before[j].1);
                    }
                }
            }
            if let Some(idx) = locator.text_handler_idx {
                let ghost before = self.text_handlers.counts();
                self.text_handlers.dec_user_count(idx);
                proof {
                    assert forall|j: int| 0 <= j < self.text_handlers.counts().len() implies (
                    #[trigger] self.text_handlers.counts()[j]).1 != ActionOnCall::Remove by {
                        assert(self.text_handlers.counts()[j].1 == before[j].1);
                    }
                }
            }
            i = i + 1;
        }
        proof {
            assert(ps.take(ps.len() as int) =~= ps);
        }
        if let Some(idx) = elem_desc.end_tag_handler_idx {
            self.end_tag_handlers.inc_user_count(idx);
        }
        if elem_desc.remove_content {
            self.matched_elements_with_removed_content = self.matched_elements_with_removed_content - 1;
        }
        proof {
            lemma_locators_grow(old(self).selector_locators@, old(self).element_handlers.counts().len(),
                old(self).comment_handlers.counts().len(), old(self).text_handlers.counts().len(),
                self.element_handlers.counts().len(), self.comment_handlers.counts().len(), self.text_handlers.counts().len());
        }
    }

    /// The kinds of tokens to capture: those for which some handler is active.
    pub fn get_token_capture_flags(&self) -> (r: TokenCaptureFlags)
        requires
            self.inv(),
        ensures
            (r.bits & DOCTYPES == DOCTYPES) == has_user(self.doctype_counts()),
            (r.bits & COMMENTS == COMMENTS) == has_user(self.comment_counts()),
            (r.bits & TEXT == TEXT) == has_user(self.text_counts()),
            (r.bits & NEXT_END_TAG == NEXT_END_TAG) == has_user(self.end_tag_counts()),
            (r.bits & NEXT_START_TAG == NEXT_START_TAG) == has_user(self.element_counts()),
            r.bits & !31u8 == 0,
    {
        let d = self.doctype_handlers.has_active();
        let c = self.comment_handlers.has_active();
        let t = self.text_handlers.has_active();
        let e = self.end_tag_handlers.has_active();
        let s = self.element_handlers.has_active();
        let bits: u8 = (if d { DOCTYPES } else { 0u8 }) | (if c { COMMENTS } else { 0u8 }) | (if t { TEXT } else { 0u8 })
            | (if e { NEXT_END_TAG } else { 0u8 }) | (if s { NEXT_START_TAG } else { 0u8 });
        let db: u8 = if d { DOCTYPES } else { 0u8 };
        let cb: u8 = if c { COMMENTS } else { 0u8 };
        let tb: u8 = if t { TEXT } else { 0u8 };
        let eb: u8 = if e { NEXT_END_TAG } else { 0u8 };
        let sb: u8 = if s { NEXT_START_TAG } else { 0u8 };
        assert(bits == db | cb | tb | eb | sb);
        assert(((db | cb | tb | eb | sb) & 16u8 == 16u8) == (db == 16u8) && ((db | cb | tb | eb | sb) & 2u8 == 2u8) == (cb
            == 2u8) && ((db | cb | tb | eb | sb) & 1u8 == 1u8) == (tb == 1u8) && ((db | cb | tb | eb | sb) & 8u8 == 8u8) == (
        eb == 8u8) && ((db | cb | tb | eb | sb) & 4u8 == 4u8) == (sb == 4u8) && (db | cb | tb | eb | sb) & !31u8 == 0)
            by (bit_vector)
            requires
                db == 0u8 || db == 16u8,
                cb == 0u8 || cb == 2u8,
                tb == 0u8 || tb == 1u8,
                eb == 0u8 || eb == 8u8,
                sb == 0u8 || sb == 4u8,
        ;
        TokenCaptureFlags { bits }
    }
}

/// Some handler has a user.
pub open spec fn has_user(counts: Seq<(usize, ActionOnCall)>) -> bool {
    exists|i: int| 0 <= i < counts.len() && (#[trigger] counts[i]).0 > 0
}

/// One more user for the handler at the index, if any.
pub open spec fn inc_at(counts: Seq<(usize, ActionOnCall)>, idx: Option<usize>) -> Seq<(usize, ActionOnCall)> {
    match idx {
        Some(i) => counts.update(i as int, ((counts[i as int].0 + 1) as usize, counts[i as int].1)),
        None => counts,
    }
}

/// A round of calls leaves no more users than there were.
proof fn lemma_sum_after_calls_le(counts: Seq<(usize, ActionOnCall)>)
    ensures
        sum_counts(after_calls(counts)) <= sum_counts(counts),
    decreases counts.len(),
{
    if counts.len() > 0 {
        lemma_sum_after_calls_le(counts.drop_last());
        let rest = after_calls(counts.drop_last());
        assert(rest.push(counts.last()).drop_last() =~= rest);
        assert(rest.push((0usize, counts.last().1)).drop_last() =~= rest);
    }
}

/// No handler of the list is removed once called.
pub open spec fn no_removal(counts: Seq<(usize, ActionOnCall)>) -> bool {
    forall|i: int| 0 <= i < counts.len() ==> (#[trigger] counts[i]).1 != ActionOnCall::Remove
}

/// A round of calls on handlers that are never removed keeps every handler, and their
/// actions.
proof fn lemma_after_calls_no_removal(counts: Seq<(usize, ActionOnCall)>)
    requires
        no_removal(counts),
    ensures
        after_calls(counts).len() == counts.len(),
        forall|i: int| 0 <= i < counts.len() ==> (#[trigger] after_calls(counts)[i]).1 == counts[i].1,
    decreases counts.len(),
{
    if counts.len() > 0 {
        let d = counts.drop_last();
        assert forall|i: int| 0 <= i < d.len() implies (#[trigger] d[i]).1 != ActionOnCall::Remove by {
            assert(d[i] == counts[i]);
        }
        lemma_after_calls_no_removal(d);
        assert(counts[counts.len() - 1].1 != ActionOnCall::Remove);
        let a = after_calls(counts);
        assert forall|i: int| 0 <= i < counts.len() implies (#[trigger] a[i]).1 == counts[i].1 by {
            if i < d.len() {
                assert(a[i] == after_calls(d)[i]);
                assert(d[i] == counts[i]);
            }
        }
    }
}

/// The handlers of a selector exist.
pub open spec fn locator_wf(l: SelectorHandlersLocator, elements: nat, comments: nat, texts: nat) -> bool {
    &&& (l.element_handler_idx matches Some(i) ==> i < elements)
    &&& (l.comment_handler_idx matches Some(i) ==> i < comments)
    &&& (l.text_handler_idx matches Some(i) ==> i < texts)
}

proof fn lemma_locators_grow(
    ls: Seq<SelectorHandlersLocator>,
    e0: nat,
    c0: nat,
    t0: nat,
    e1: nat,
    c1: nat,
    t1: nat,
)
    requires
        forall|k: int| 0 <= k < ls.len() ==> locator_wf(#[trigger] ls[k], e0, c0, t0),
        e0 <= e1,
        c0 <= c1,
        t0 <= t1,
    ensures
        forall|k: int| 0 <= k < ls.len() ==> locator_wf(#[trigger] ls[k], e1, c1, t1),
{
}

/// The handler indices of a prefix of the payloads are a prefix of those of all.
proof fn lemma_idxs_prefix(locs: Seq<SelectorHandlersLocator>, ps: Seq<usize>, i: int)
    requires
        0 <= i < ps.len(),
    ensures
        comment_idxs(locs, ps.take(i + 1)) == match locs[ps[i] as int].comment_handler_idx {
            Some(x) => comment_idxs(locs, ps.take(i)).push(x),
            None => comment_idxs(locs, ps.take(i)),
        },
        text_idxs(locs, ps.take(i + 1)) == match locs[ps[i] as int].text_handler_idx {
            Some(x) => text_idxs(locs, ps.take(i)).push(x),
            None => text_idxs(locs, ps.take(i)),
        },
        comment_idxs(locs, ps.take(i + 1)).len() <= comment_idxs(locs, ps).len(),
        comment_idxs(locs, ps.take(i + 1)) == comment_idxs(locs, ps).take(comment_idxs(locs, ps.take(i + 1)).len() as int),
        text_idxs(locs, ps.take(i + 1)).len() <= text_idxs(locs, ps).len(),
        text_idxs(locs, ps.take(i + 1)) == text_idxs(locs, ps).take(text_idxs(locs, ps.take(i + 1)).len() as int),
{
    assert(ps.take(i + 1).drop_last() =~= ps.take(i));
    lemma_idxs_take(locs, ps, i + 1);
}

proof fn lemma_idxs_take(locs: Seq<SelectorHandlersLocator>, ps: Seq<usize>, j: int)
    requires
        0 <= j <= ps.len(),
    ensures
        comment_idxs(locs, ps.take(j)).len() <= comment_idxs(locs, ps).len(),
        comment_idxs(locs, ps.take(j)) == comment_idxs(locs, ps).take(comment_idxs(locs, ps.take(j)).len() as int),
        text_idxs(locs, ps.take(j)).len() <= text_idxs(locs, ps).len(),
        text_idxs(locs, ps.take(j)) == text_idxs(locs, ps).take(text_idxs(locs, ps.take(j)).len() as int),
    decreases ps.len() - j,
{
    if j == ps.len() {
        assert(ps.take(j) =~= ps);
        assert(comment_idxs(locs, ps).take(comment_idxs(locs, ps).len() as int) =~= comment_idxs(locs, ps));
        assert(text_idxs(locs, ps).take(text_idxs(locs, ps).len() as int) =~= text_idxs(locs, ps));
    } else {
        lemma_idxs_take(locs, ps, j + 1);
        assert(ps.take(j + 1).drop_last() =~= ps.take(j));
        let a = comment_idxs(locs, ps.take(j));
        let b = comment_idxs(locs, ps.take(j + 1));
        let whole = comment_idxs(locs, ps);
        assert(a =~= whole.take(a.len() as int)) by {
            assert(b == whole.take(b.len() as int));
            if b.len() > a.len() {
                assert(b == a.push(b.last()));
                assert forall|k: int| 0 <= k < a.len() implies a[k] == whole.take(a.len() as int)[k] by {
                    assert(a[k] == b[k]);
                    assert(b[k] == whole[k]);
                }
            }
        }
        let ta = text_idxs(locs, ps.take(j));
        let tb = text_idxs(locs, ps.take(j + 1));
        let twhole = text_idxs(locs, ps);
        assert(ta =~= twhole.take(ta.len() as int)) by {
            assert(tb == twhole.take(tb.len() as int));
            if tb.len() > ta.len() {
                assert(tb == ta.push(tb.last()));
                assert forall|k: int| 0 <= k < ta.len() implies ta[k] == twhole.take(ta.len() as int)[k] by {
                    assert(ta[k] == tb[k]);
                    assert(tb[k] == twhole[k]);
                }
            }
        }
    }
}

/// Decrementing all is decrementing a prefix first: where all can be decremented, so can
/// every prefix, and the next one can too.
proof fn lemma_dec_prefix(counts: Seq<(usize, ActionOnCall)>, idxs: Seq<usize>, j: int)
    requires
        0 <= j <= idxs.len(),
        dec_counts(counts, idxs) is Some,
    ensures
        dec_counts(counts, idxs.take(j)) is Some,
        j < idxs.len() ==> ({
            let c = dec_counts(counts, idxs.take(j))->0;
            &&& (idxs[j] as int) < c.len()
            &&& c[idxs[j] as int].0 > 0
            &&& dec_counts(counts, idxs.take(j + 1)) == Some(c.update(idxs[j] as int, ((c[idxs[j] as int].0 - 1) as usize, c[idxs[j] as int].1)))
        }),
        dec_counts(counts, idxs.take(j))->0.len() == counts.len(),
    decreases idxs.len() - j,
{
    if j == idxs.len() {
        assert(idxs.take(j) =~= idxs);
        lemma_dec_len(counts, idxs);
    } else {
        lemma_dec_prefix(counts, idxs, j + 1);
        assert(idxs.take(j + 1).drop_last() =~= idxs.take(j));
        lemma_dec_len(counts, idxs.take(j));
    }
}

proof fn lemma_dec_len(counts: Seq<(usize, ActionOnCall)>, idxs: Seq<usize>)
    requires
        dec_counts(counts, idxs) is Some,
    ensures
        dec_counts(counts, idxs)->0.len() == counts.len(),
    decreases idxs.len(),
{
    if idxs.len() > 0 {
        lemma_dec_len(counts, idxs.drop_last());
    }
}

impl<D, C, T, EL> ContentHandlersDispatcher<D, C, T, EndTagHandler, EL> {
    /// The element of a start tag, for the element handlers to be called on; inside the
    /// content of an element whose content is removed, the start tag is removed too.
    pub fn start_tag_element(&self, start_tag: StartTag) -> (r: Element)
        ensures
            r.has_content() == self.next_can_have_content(),
            r.start_changes() == opt_changes(None),
            !r.has_end_changes(),
            r.end_name() is None,
            !r.removes_content(),
            self.removed_content_count() == 0 ==> r.tag() == start_tag,
            self.removed_content_count() > 0 ==> {
                &&& r.tag().mutations().removed
                &&& r.tag().mutations().content_before == start_tag.mutations().content_before
                &&& r.tag().mutations().replacements == start_tag.mutations().replacements
                &&& r.tag().mutations().content_after == start_tag.mutations().content_after
                &&& r.tag().name_bytes() == start_tag.name_bytes()
                &&& r.tag().attrs() == start_tag.attrs()
                &&& r.tag().is_self_closing() == start_tag.is_self_closing()
                &&& r.tag().raw_bytes() == start_tag.raw_bytes()
                &&& r.tag().encoding() == start_tag.encoding()
            },
    {
        let mut start_tag = start_tag;
        if self.matched_elements_with_removed_content > 0 {
            start_tag.remove();
        }
        Element::new(start_tag, self.next_element_can_have_content)
    }

    /// Takes what the element handlers asked of an element that can have content and
    /// that the matcher holds open: its content is marked removed where they asked so
    /// (one more matched element with removed content), and its end-tag changes become
    /// a handler of its end tag, with no user until the end tag comes, removed once
    /// called.
    pub fn finish_start_tag(&mut self, element: Element, vm: &mut SelectorMatchingVm)
        requires
            old(self).inv(),
            old(self).room(),
            old(self).removed_content_count() < usize::MAX,
        ensures
            final(self).inv(),
            final(self).locators() == old(self).locators(),
            final(self).doctype_counts() == old(self).doctype_counts(),
            final(self).comment_counts() == old(self).comment_counts(),
            final(self).text_counts() == old(self).text_counts(),
            final(self).element_counts() == old(self).element_counts(),
            final(self).next_can_have_content() == old(self).next_can_have_content(),
            old(vm).inv() ==> final(vm).inv(),
            final(vm).same_program(old(vm)),
            ({
                let takes = old(self).next_can_have_content() && old(vm).items().len() > 0;
                let handler = element.has_end_changes() || element.end_name() is Some;
                &&& !takes ==> *final(vm) == *old(vm) && final(self).removed_content_count()
                    == old(self).removed_content_count() && final(self).end_tag_counts() == old(self).end_tag_counts()
                &&& takes ==> {
                    let last = old(vm).items().last();
                    &&& final(vm).items() == old(vm).items().update(
                        old(vm).items().len() - 1,
                        StackItem {
                            element_data: ElementDescriptor {
                                matched_payload: last.element_data.matched_payload,
                                end_tag_handler_idx: if handler {
                                    Some(old(self).end_tag_counts().len() as usize)
                                } else {
                                    last.element_data.end_tag_handler_idx
                                },
                                remove_content: last.element_data.remove_content || element.removes_content(),
                            },
                            ..last
                        },
                    )
                    &&& final(self).removed_content_count() == old(self).removed_content_count() + (if element.removes_content() {
                        1int
                    } else {
                        0int
                    })
                    &&& final(self).end_tag_counts() == if handler {
                        old(self).end_tag_counts().push((0usize, ActionOnCall::Remove))
                    } else {
                        old(self).end_tag_counts()
                    }
                }
            }),
    {
        if self.next_element_can_have_content {
            match vm.current_element_data_mut() {
                Some(elem_desc) => {
                    if element.should_remove_content() {
                        elem_desc.remove_content = true;
                        self.matched_elements_with_removed_content = self.matched_elements_with_removed_content + 1;
                    }
                    match element.into_end_tag_handler() {
                        Some(handler) => {
                            elem_desc.end_tag_handler_idx = Some(self.end_tag_handlers.len());
                            self.end_tag_handlers.push(handler, false, ActionOnCall::Remove);
                        },
                        None => {},
                    }
                },
                None => {},
            }
        }
    }
}

} // verus!

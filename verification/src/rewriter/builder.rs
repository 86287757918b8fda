use vstd::prelude::*;
use crate::selectors_vm::SelectorMatchingVm;
use crate::selectors_vm::ast::{Ast, selector_component_count, selector_has_path, Step};
use crate::selectors_vm::parser::Selector;
use super::error::{EncodingError, rewriter_encoding, spec_rewriter_encoding};
use super::handlers_dispatcher::{ActionOnCall, ContentHandlersDispatcher, SelectorHandlersLocator};

verus! {

/// Gathers the content handlers and the selectors they are for, then builds the
/// selector matching machine and the dispatcher of a rewriter.
pub struct HtmlRewriterBuilder<D, C, T, ET, EL> {
    content_handlers: ContentHandlersDispatcher<D, C, T, ET, EL>,
    selectors_ast: Ast,
}

impl<D, C, T, ET, EL> HtmlRewriterBuilder<D, C, T, ET, EL> {
    /// The dispatcher being built.
    pub closed spec fn dispatcher(&self) -> ContentHandlersDispatcher<D, C, T, ET, EL> {
        self.content_handlers
    }

    /// The tree of the selectors added so far.
    pub closed spec fn ast(&self) -> Ast {
        self.selectors_ast
    }

    /// The dispatcher and the tree are consistent: every payload of the tree is a
    /// selector's index among the dispatcher's.
    pub closed spec fn inv(&self) -> bool {
        &&& self.content_handlers.inv()
        &&& self.selectors_ast.inv()
        &&& forall|q: Seq<Step>, p: usize| #[trigger] self.selectors_ast.payloads_at(q).contains(p) ==> p
            < self.content_handlers.locators().len()
    }

    /// No handler and no selector.
    pub fn new() -> (r: Self)
        ensures
            r.inv(),
            r.dispatcher().room(),
            r.dispatcher().locators().len() == 0,
            forall|q: Seq<Step>| #[trigger] r.ast().payloads_at(q) == Set::<usize>::empty(),
    {
        HtmlRewriterBuilder { content_handlers: ContentHandlersDispatcher::new(), selectors_ast: Ast::new() }
    }

    /// Adds handlers for the whole document.
    pub fn on_document(&mut self, doctype: Option<D>, comments: Option<C>, text: Option<T>)
        requires
            old(self).inv(),
            old(self).dispatcher().room(),
        ensures
            final(self).inv(),
            final(self).ast() == old(self).ast(),
            final(self).dispatcher().doctype_counts() == match doctype {
                Some(_) => old(self).dispatcher().doctype_counts().push((1usize, ActionOnCall::Nothing)),
                None => old(self).dispatcher().doctype_counts(),
            },
            final(self).dispatcher().comment_counts() == match comments {
                Some(_) => old(self).dispatcher().comment_counts().push((1usize, ActionOnCall::Nothing)),
                None => old(self).dispatcher().comment_counts(),
            },
            final(self).dispatcher().text_counts() == match text {
                Some(_) => old(self).dispatcher().text_counts().push((1usize, ActionOnCall::Nothing)),
                None => old(self).dispatcher().text_counts(),
            },
            final(self).dispatcher().locators() == old(self).dispatcher().locators(),
            final(self).dispatcher().element_counts() == old(self).dispatcher().element_counts(),
            final(self).dispatcher().end_tag_counts() == old(self).dispatcher().end_tag_counts(),
    {
        self.content_handlers.add_document_content_handlers(doctype, comments, text);
    }

    /// Adds the handlers of a selector: an element that matches the selector gets them,
    /// its payload being the selector's index.
    pub fn on(&mut self, selector: &Selector, element: Option<EL>, comments: Option<C>, text: Option<T>) -> (r:
        SelectorHandlersLocator)
        requires
            old(self).inv(),
            old(self).dispatcher().room(),
            selector.wf(),
            old(self).ast().cumulative_node_count + selector_component_count(selector.spec_items()) <= usize::MAX,
        ensures
            final(self).inv(),
            final(self).dispatcher().locators() == old(self).dispatcher().locators().push(r),
            forall|q: Seq<Step>| #[trigger] final(self).ast().payloads_at(q) == old(self).ast().payloads_at(q).union(
                if selector_has_path(*selector, q) {
                    set![old(self).dispatcher().locators().len() as usize]
                } else {
                    Set::empty()
                },
            ),
    {
        let payload = self.content_handlers.locators_len();
        let locator = self.content_handlers.add_selector_associated_handlers(element, comments, text);
        self.selectors_ast.add_selector(selector, payload);
        proof {
            assert forall|q: Seq<Step>, p: usize| #[trigger] self.selectors_ast.payloads_at(q).contains(p) implies p
                < self.content_handlers.locators().len() by {
                if old(self).selectors_ast.payloads_at(q).contains(p) {
                }
            }
        }
        locator
    }

    /// Builds the selector matching machine, for documents in the encoding named by
    /// `encoding`, and the dispatcher; an encoding that is unknown or not
    /// ASCII-compatible is refused.
    pub fn build(self, encoding: &str) -> (r: Result<(SelectorMatchingVm, ContentHandlersDispatcher<D, C, T, ET, EL>), EncodingError>)
        requires
            self.inv(),
        ensures
            match r {
                Ok((vm, dispatcher)) => spec_rewriter_encoding(encoding@) is Ok && vm.inv() && vm.items().len() == 0
                    && dispatcher == self.dispatcher(),
                Err(e) => spec_rewriter_encoding(encoding@) == Err::<Seq<char>, EncodingError>(e),
            },
    {
        match rewriter_encoding(encoding) {
            Ok(_) => {
                let vm = SelectorMatchingVm::new(self.selectors_ast, encoding);
                Ok((vm, self.content_handlers))
            },
            Err(e) => Err(e),
        }
    }
}

} // verus!

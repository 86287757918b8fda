use cssparser::{BasicParseErrorKind, ParseErrorKind, Parser as CssParser, ParserInput, ToCss};
use lol_html::html::{LocalName, Namespace};
use lol_html::selectors_vm::ast::{
    Ast, AstNode, AttributeExpr, AttributeExprOperand, Expr, NonAttributeExpr, Predicate,
};
use lol_html::selectors_vm::attribute_matcher::{AttributeItem, AttributeMatcher};
use lol_html::selectors_vm::compiler::Compiler;
use lol_html::selectors_vm::program::{AddressRange, ExecutionBranch, Instr, Program};
use lol_html::selectors_vm::error::{SelectorError, SelectorParseErrorKind};
use lol_html::selectors_vm::parser::{
    AttrSelectorOperator, Combinator, Component, ParsedCaseSensitivity, Selector,
};
use lol_html::selectors_vm::{AuxStartTagInfo, MatchInfo, SelectorMatchingVm};
use selectors::attr::AttrSelectorOperator as O;
use selectors::attr::ParsedCaseSensitivity as C;
use selectors::parser::{self as sp, SelectorImpl, SelectorList};
use selectors::parser::Component as SC;
use selectors::parser::SelectorParseErrorKind as K;
use std::collections::{HashMap, HashSet};
use std::fmt;

// ---------------------------------------------------------------------------
// Reading selectors with the `selectors` crate

#[derive(Debug, Clone, PartialEq)]
struct Impl;

impl SelectorImpl for Impl {
    type ExtraMatchingData = ();
    type AttrValue = String;
    type Identifier = String;
    type ClassName = String;
    type PartName = String;
    type LocalName = String;
    type NamespaceUrl = String;
    type NamespacePrefix = String;
    type BorrowedNamespaceUrl = String;
    type BorrowedLocalName = String;
    type NonTSPseudoClass = PseudoClassStub;
    type PseudoElement = PseudoElementStub;
}

#[derive(PartialEq, Eq, Clone, Debug, Hash)]
enum PseudoElementStub {}

impl ToCss for PseudoElementStub {
    fn to_css<W: fmt::Write>(&self, _dest: &mut W) -> fmt::Result {
        match *self {}
    }
}

impl sp::PseudoElement for PseudoElementStub {
    type Impl = Impl;
}

#[derive(PartialEq, Eq, Clone, Debug, Hash)]
enum PseudoClassStub {}

impl ToCss for PseudoClassStub {
    fn to_css<W: fmt::Write>(&self, _dest: &mut W) -> fmt::Result {
        match *self {}
    }
}

impl sp::NonTSPseudoClass for PseudoClassStub {
    type Impl = Impl;

    fn is_active_or_hover(&self) -> bool {
        match *self {}
    }

    fn is_user_action_state(&self) -> bool {
        match *self {}
    }

    fn has_zero_specificity(&self) -> bool {
        match *self {}
    }
}

struct SelectorsParser;

impl<'i> sp::Parser<'i> for SelectorsParser {
    type Impl = Impl;
    type Error = sp::SelectorParseErrorKind<'i>;
}

fn combinator(c: &sp::Combinator) -> Combinator {
    match c {
        sp::Combinator::Child => Combinator::Child,
        sp::Combinator::Descendant => Combinator::Descendant,
        sp::Combinator::NextSibling => Combinator::NextSibling,
        sp::Combinator::LaterSibling => Combinator::LaterSibling,
        sp::Combinator::PseudoElement => Combinator::PseudoElement,
        sp::Combinator::SlotAssignment => Combinator::SlotAssignment,
        sp::Combinator::Part => Combinator::Part,
    }
}

fn operator(o: &selectors::attr::AttrSelectorOperator) -> AttrSelectorOperator {
    match o {
        O::Equal => AttrSelectorOperator::Equal,
        O::Includes => AttrSelectorOperator::Includes,
        O::DashMatch => AttrSelectorOperator::DashMatch,
        O::Prefix => AttrSelectorOperator::Prefix,
        O::Substring => AttrSelectorOperator::Substring,
        O::Suffix => AttrSelectorOperator::Suffix,
    }
}

fn case_sensitivity(c: &selectors::attr::ParsedCaseSensitivity) -> ParsedCaseSensitivity {
    match c {
        C::ExplicitCaseSensitive => ParsedCaseSensitivity::ExplicitCaseSensitive,
        C::AsciiCaseInsensitive => ParsedCaseSensitivity::AsciiCaseInsensitive,
        C::CaseSensitive => ParsedCaseSensitivity::CaseSensitive,
        C::AsciiCaseInsensitiveIfInHtmlElementInHtmlDocument => {
            ParsedCaseSensitivity::AsciiCaseInsensitiveIfInHtmlElementInHtmlDocument
        }
    }
}

fn component(c: &sp::Component<Impl>) -> Component {
    match c {
        SC::Combinator(c) => Component::Combinator(combinator(c)),
        SC::ExplicitAnyNamespace => Component::ExplicitAnyNamespace,
        SC::ExplicitNoNamespace => Component::ExplicitNoNamespace,
        SC::DefaultNamespace(_) => Component::DefaultNamespace,
        SC::Namespace(_, _) => Component::Namespace,
        SC::ExplicitUniversalType => Component::ExplicitUniversalType,
        SC::LocalName(n) => Component::LocalName(n.name.clone()),
        SC::ID(id) => Component::ID(id.clone()),
        SC::Class(c) => Component::Class(c.clone()),
        SC::AttributeInNoNamespaceExists { local_name, .. } => {
            Component::AttributeInNoNamespaceExists { local_name: local_name.clone() }
        }
        SC::AttributeInNoNamespace { local_name, operator: op, value, case_sensitivity: cs, never_matches } => {
            Component::AttributeInNoNamespace {
                local_name: local_name.clone(),
                operator: operator(op),
                value: value.clone(),
                case_sensitivity: case_sensitivity(cs),
                never_matches: *never_matches,
            }
        }
        SC::AttributeOther(_) => Component::AttributeOther,
        SC::Negation(list) => Component::Negation(list.iter().map(component).collect()),
        SC::FirstChild => Component::FirstChild,
        SC::LastChild => Component::LastChild,
        SC::OnlyChild => Component::OnlyChild,
        SC::Root => Component::Root,
        SC::Empty => Component::Empty,
        SC::Scope => Component::Scope,
        SC::NthChild(_, _) => Component::NthChild,
        SC::NthLastChild(_, _) => Component::NthLastChild,
        SC::NthOfType(_, _) => Component::NthOfType,
        SC::NthLastOfType(_, _) => Component::NthLastOfType,
        SC::FirstOfType => Component::FirstOfType,
        SC::LastOfType => Component::LastOfType,
        SC::OnlyOfType => Component::OnlyOfType,
        SC::NonTSPseudoClass(_) => Component::NonTSPseudoClass,
        SC::Slotted(_) => Component::Slotted,
        SC::Part(_) => Component::Part,
        SC::Host(_) => Component::Host,
        SC::PseudoElement(_) => Component::PseudoElement,
    }
}

fn error_kind(kind: &ParseErrorKind<sp::SelectorParseErrorKind>) -> SelectorParseErrorKind {
    match kind {
        ParseErrorKind::Basic(b) => match b {
            BasicParseErrorKind::UnexpectedToken(_) => SelectorParseErrorKind::UnexpectedToken,
            BasicParseErrorKind::EndOfInput => SelectorParseErrorKind::EndOfInput,
            BasicParseErrorKind::AtRuleInvalid(_) => SelectorParseErrorKind::AtRuleInvalid,
            BasicParseErrorKind::AtRuleBodyInvalid => SelectorParseErrorKind::AtRuleBodyInvalid,
            BasicParseErrorKind::QualifiedRuleInvalid => SelectorParseErrorKind::QualifiedRuleInvalid,
        },
        ParseErrorKind::Custom(c) => match c {
            K::PseudoElementInComplexSelector => SelectorParseErrorKind::PseudoElementInComplexSelector,
            K::NoQualifiedNameInAttributeSelector(_) => SelectorParseErrorKind::NoQualifiedNameInAttributeSelector,
            K::EmptySelector => SelectorParseErrorKind::EmptySelector,
            K::DanglingCombinator => SelectorParseErrorKind::DanglingCombinator,
            K::NonSimpleSelectorInNegation => SelectorParseErrorKind::NonSimpleSelectorInNegation,
            K::NonCompoundSelector => SelectorParseErrorKind::NonCompoundSelector,
            K::NonPseudoElementAfterSlotted => SelectorParseErrorKind::NonPseudoElementAfterSlotted,
            K::InvalidPseudoElementAfterSlotted => SelectorParseErrorKind::InvalidPseudoElementAfterSlotted,
            K::InvalidState => SelectorParseErrorKind::InvalidState,
            K::UnexpectedTokenInAttributeSelector(_) => SelectorParseErrorKind::UnexpectedTokenInAttributeSelector,
            K::PseudoElementExpectedColon(_) => SelectorParseErrorKind::PseudoElementExpectedColon,
            K::PseudoElementExpectedIdent(_) => SelectorParseErrorKind::PseudoElementExpectedIdent,
            K::NoIdentForPseudo(_) => SelectorParseErrorKind::NoIdentForPseudo,
            K::UnsupportedPseudoClassOrElement(_) => SelectorParseErrorKind::UnsupportedPseudoClassOrElement,
            K::UnexpectedIdent(_) => SelectorParseErrorKind::UnexpectedIdent,
            K::ExpectedNamespace(_) => SelectorParseErrorKind::ExpectedNamespace,
            K::ExpectedBarInAttr(_) => SelectorParseErrorKind::ExpectedBarInAttr,
            K::BadValueInAttr(_) => SelectorParseErrorKind::BadValueInAttr,
            K::InvalidQualNameInAttr(_) => SelectorParseErrorKind::InvalidQualNameInAttr,
            K::ExplicitNamespaceUnexpectedToken(_) => SelectorParseErrorKind::ExplicitNamespaceUnexpectedToken,
            K::ClassNeedsIdent(_) => SelectorParseErrorKind::ClassNeedsIdent,
            K::EmptyNegation => SelectorParseErrorKind::EmptyNegation,
        },
    }
}

fn parse(selector: &str) -> Result<Selector, SelectorError> {
    let mut input = ParserInput::new(selector);
    let mut css_parser = CssParser::new(&mut input);
    match SelectorList::parse(&SelectorsParser, &mut css_parser) {
        Ok(list) => Selector::new(
            list.0
                .iter()
                .map(|s| s.iter_raw_parse_order_from(0).map(component).collect())
                .collect(),
        ),
        Err(e) => Err(SelectorError::from_parse_error_kind(error_kind(&e.kind))),
    }
}

// ---------------------------------------------------------------------------
// Reading the start and end tags of the tests

struct Tag {
    name: String,
    attributes: Vec<AttributeItem>,
    self_closing: bool,
}

fn read_tag(html: &str) -> Tag {
    let inner = html.trim_start_matches('<').trim_end_matches('>').trim_start_matches('/');
    let self_closing = inner.trim_end().ends_with('/');
    let inner = inner.trim_end().trim_end_matches('/');
    let bytes: Vec<char> = inner.chars().collect();
    let mut i = 0;
    let mut name = String::new();
    while i < bytes.len() && !bytes[i].is_whitespace() {
        name.push(bytes[i]);
        i += 1;
    }
    let mut attributes = Vec::new();
    loop {
        while i < bytes.len() && bytes[i].is_whitespace() {
            i += 1;
        }
        if i >= bytes.len() {
            break;
        }
        let mut attr_name = String::new();
        while i < bytes.len() && !bytes[i].is_whitespace() && bytes[i] != '=' {
            attr_name.push(bytes[i]);
            i += 1;
        }
        let mut value = String::new();
        if i < bytes.len() && bytes[i] == '=' {
            i += 1;
            if i < bytes.len() && (bytes[i] == '\'' || bytes[i] == '"') {
                let quote = bytes[i];
                i += 1;
                while i < bytes.len() && bytes[i] != quote {
                    value.push(bytes[i]);
                    i += 1;
                }
                i += 1;
            } else {
                while i < bytes.len() && !bytes[i].is_whitespace() {
                    value.push(bytes[i]);
                    i += 1;
                }
            }
        }
        attributes.push(AttributeItem { name: attr_name.into_bytes(), value: value.into_bytes() });
    }
    Tag { name, attributes, self_closing }
}

fn local_name(name: &str) -> LocalName {
    LocalName::from_str_without_replacements(name, "utf-8").unwrap()
}

// ---------------------------------------------------------------------------
// The tree of selectors

fn assert_ast(selectors: &[&str], expected: Ast) {
    let mut ast = Ast::new();
    for (idx, selector) in selectors.iter().enumerate() {
        ast.add_selector(&parse(selector).unwrap(), idx);
    }
    assert_eq!(format!("{:?}", ast), format!("{:?}", expected));
}

fn assert_err(selector: &str, expected_err: SelectorError) {
    assert_eq!(parse(selector).unwrap_err(), expected_err);
}

fn leaf(predicate: Predicate, payload: Vec<usize>) -> AstNode {
    AstNode { predicate, children: vec![], descendants: vec![], payload }
}

fn attr_pred(e: AttributeExpr) -> Predicate {
    Predicate { non_attr_exprs: None, attr_exprs: Some(vec![Expr { simple_expr: e, negation: false }]) }
}

fn operand(cs: ParsedCaseSensitivity) -> AttributeExprOperand {
    AttributeExprOperand { name: "foo".into(), value: "bar".into(), case_sensitivity: cs }
}

#[test]
fn simple_non_attr_expression() {
    vec![
        ("*", Expr { simple_expr: NonAttributeExpr::ExplicitAny, negation: false }),
        ("div", Expr { simple_expr: NonAttributeExpr::LocalName("div".into()), negation: false }),
        (r#"[foo*=""]"#, Expr { simple_expr: NonAttributeExpr::Unmatchable, negation: false }),
        (":not(div)", Expr { simple_expr: NonAttributeExpr::LocalName("div".into()), negation: true }),
    ]
    .into_iter()
    .for_each(|(selector, expected)| {
        assert_ast(
            &[selector],
            Ast {
                root: vec![leaf(Predicate { non_attr_exprs: Some(vec![expected]), attr_exprs: None }, vec![0])],
                cumulative_node_count: 1,
            },
        );
    });
}

#[test]
fn simple_attr_expression() {
    vec![
        ("#foo", Expr { simple_expr: AttributeExpr::Id("foo".into()), negation: false }),
        (".bar", Expr { simple_expr: AttributeExpr::Class("bar".into()), negation: false }),
        ("[foo]", Expr { simple_expr: AttributeExpr::AttributeExists("foo".into()), negation: false }),
        (
            r#"[foo="bar"]"#,
            Expr { simple_expr: AttributeExpr::AttributeEqual(operand(ParsedCaseSensitivity::CaseSensitive)), negation: false },
        ),
        (
            r#"[foo~="bar" i]"#,
            Expr {
                simple_expr: AttributeExpr::AttributeIncludes(operand(ParsedCaseSensitivity::AsciiCaseInsensitive)),
                negation: false,
            },
        ),
        (
            r#"[foo|="bar" s]"#,
            Expr {
                simple_expr: AttributeExpr::AttributeDashMatch(operand(ParsedCaseSensitivity::ExplicitCaseSensitive)),
                negation: false,
            },
        ),
        (
            r#"[foo^="bar"]"#,
            Expr { simple_expr: AttributeExpr::AttributePrefix(operand(ParsedCaseSensitivity::CaseSensitive)), negation: false },
        ),
        (
            r#"[foo*="bar"]"#,
            Expr {
                simple_expr: AttributeExpr::AttributeSubstring(operand(ParsedCaseSensitivity::CaseSensitive)),
                negation: false,
            },
        ),
        (
            r#"[foo$="bar"]"#,
            Expr { simple_expr: AttributeExpr::AttributeSuffix(operand(ParsedCaseSensitivity::CaseSensitive)), negation: false },
        ),
        (
            r#":not([foo$="bar"])"#,
            Expr { simple_expr: AttributeExpr::AttributeSuffix(operand(ParsedCaseSensitivity::CaseSensitive)), negation: true },
        ),
    ]
    .into_iter()
    .for_each(|(selector, expected)| {
        assert_ast(
            &[selector],
            Ast {
                root: vec![leaf(Predicate { non_attr_exprs: None, attr_exprs: Some(vec![expected]) }, vec![0])],
                cumulative_node_count: 1,
            },
        );
    });
}

#[test]
fn compound_selectors() {
    assert_ast(
        &["div.foo#bar:not([baz])"],
        Ast {
            root: vec![leaf(
                Predicate {
                    non_attr_exprs: Some(vec![Expr {
                        simple_expr: NonAttributeExpr::LocalName("div".into()),
                        negation: false,
                    }]),
                    attr_exprs: Some(vec![
                        Expr { simple_expr: AttributeExpr::AttributeExists("baz".into()), negation: true },
                        Expr { simple_expr: AttributeExpr::Id("bar".into()), negation: false },
                        Expr { simple_expr: AttributeExpr::Class("foo".into()), negation: false },
                    ]),
                },
                vec![0],
            )],
            cumulative_node_count: 1,
        },
    );
}

#[test]
fn multiple_payloads() {
    assert_ast(
        &["#foo", "#foo"],
        Ast { root: vec![leaf(attr_pred(AttributeExpr::Id("foo".into())), vec![0, 1])], cumulative_node_count: 1 },
    );
}

fn name_pred(name: &str) -> Predicate {
    Predicate {
        non_attr_exprs: Some(vec![Expr { simple_expr: NonAttributeExpr::LocalName(name.into()), negation: false }]),
        attr_exprs: None,
    }
}

#[test]
fn selector_list() {
    assert_ast(
        &["#foo > div, #foo > span", "#foo > .c1, #foo > .c2"],
        Ast {
            root: vec![AstNode {
                predicate: attr_pred(AttributeExpr::Id("foo".into())),
                children: vec![
                    leaf(name_pred("div"), vec![0]),
                    leaf(name_pred("span"), vec![0]),
                    leaf(attr_pred(AttributeExpr::Class("c1".into())), vec![1]),
                    leaf(attr_pred(AttributeExpr::Class("c2".into())), vec![1]),
                ],
                descendants: vec![],
                payload: vec![],
            }],
            cumulative_node_count: 5,
        },
    )
}

#[test]
fn combinators() {
    assert_ast(
        &[".c1 > .c2 .c3 #foo", ".c1 > .c2 #bar", ".c1 > #qux", ".c1 #baz", ".c1 [foo] [bar]", "#quz"],
        Ast {
            root: vec![
                AstNode {
                    predicate: attr_pred(AttributeExpr::Class("c1".into())),
                    children: vec![
                        AstNode {
                            predicate: attr_pred(AttributeExpr::Class("c2".into())),
                            children: vec![],
                            descendants: vec![
                                AstNode {
                                    predicate: attr_pred(AttributeExpr::Class("c3".into())),
                                    children: vec![],
                                    descendants: vec![leaf(attr_pred(AttributeExpr::Id("foo".into())), vec![0])],
                                    payload: vec![],
                                },
                                leaf(attr_pred(AttributeExpr::Id("bar".into())), vec![1]),
                            ],
                            payload: vec![],
                        },
                        leaf(attr_pred(AttributeExpr::Id("qux".into())), vec![2]),
                    ],
                    descendants: vec![
                        leaf(attr_pred(AttributeExpr::Id("baz".into())), vec![3]),
                        AstNode {
                            predicate: attr_pred(AttributeExpr::AttributeExists("foo".into())),
                            children: vec![],
                            descendants: vec![leaf(attr_pred(AttributeExpr::AttributeExists("bar".into())), vec![4])],
                            payload: vec![],
                        },
                    ],
                    payload: vec![],
                },
                leaf(attr_pred(AttributeExpr::Id("quz".into())), vec![5]),
            ],
            cumulative_node_count: 10,
        },
    );
}

#[test]
fn parse_errors() {
    assert_err("div@", SelectorError::UnexpectedToken);
    assert_err("div.", SelectorError::UnexpectedEnd);
    assert_err(r#"div[="foo"]"#, SelectorError::MissingAttributeName);
    assert_err("", SelectorError::EmptySelector);
    assert_err("div >", SelectorError::DanglingCombinator);
    assert_err(r#"div[foo~"bar"]"#, SelectorError::UnexpectedTokenInAttribute);
    assert_err(":not(:not(p))", SelectorError::NestedNegation);
    assert_err("svg|img", SelectorError::NamespacedSelector);
    assert_err(".foo()", SelectorError::InvalidClassName);
    assert_err(":not()", SelectorError::EmptyNegation);
    assert_err("div + span", SelectorError::UnsupportedCombinator('+'));
    assert_err("div ~ span", SelectorError::UnsupportedCombinator('~'));
}

#[test]
fn pseudo_class_parse_errors() {
    [
        ":active", ":any-link", ":blank", ":checked", ":current", ":default", ":defined", ":dir(rtl)",
        ":disabled", ":drop", ":empty", ":enabled", ":first", ":first-child", ":first-of-type",
        ":fullscreen", ":future", ":focus", ":focus-visible", ":focus-within", ":has(div)", ":host",
        ":host(h1)", ":host-context(h1)", ":hover", ":indeterminate", ":in-range", ":invalid",
        ":is(header)", ":lang(en)", ":last-child", ":last-of-type", ":left", ":link", ":local-link",
        ":nth-child(1)", ":nth-col(1)", ":nth-last-child(1)", ":nth-last-col(1)", ":nth-last-of-type(1)",
        ":nth-of-type(1)", ":only-child", ":only-of-type", ":optional", ":out-of-range", ":past",
        ":placeholder-shown", ":read-only", ":read-write", ":required", ":right", ":root", ":scope",
        ":target", ":target-within", ":user-invalid", ":valid", ":visited", ":where(p)",
    ]
    .iter()
    .for_each(|s| assert_err(s, SelectorError::UnsupportedPseudoClassOrElement));
}

#[test]
fn pseudo_elements_parse_errors() {
    [
        "::after", "::backdrop", "::before", "::cue", "::first-letter", "::first-line",
        "::grammar-error", "::marker", "::placeholder", "::selection", "::slotted()",
        "::spelling-error",
    ]
    .iter()
    .for_each(|s| assert_err(s, SelectorError::UnsupportedPseudoClassOrElement));
}

#[test]
fn negated_pseudo_class_parse_error() {
    assert_err(":not(:nth-last-child(even))", SelectorError::UnsupportedPseudoClassOrElement);
}

// ---------------------------------------------------------------------------
// The matching machine

struct Expectation {
    should_bailout: bool,
    should_match_with_content: bool,
    matched_payload: HashSet<usize>,
}

fn set(items: &[usize]) -> HashSet<usize> {
    items.iter().cloned().collect()
}

fn map(items: &[(usize, usize)]) -> HashMap<usize, usize> {
    items.iter().cloned().collect()
}

fn create_vm(selectors: &[&str]) -> SelectorMatchingVm {
    let mut ast = Ast::new();
    for (i, selector) in selectors.iter().enumerate() {
        ast.add_selector(&parse(selector).unwrap(), i);
    }
    SelectorMatchingVm::new(ast, "utf-8")
}

fn exec_for_start_tag_and_assert(vm: &mut SelectorMatchingVm, tag_html: &str, ns: Namespace, expectation: Expectation) {
    let tag = read_tag(tag_html);
    let mut matches: Vec<MatchInfo> = Vec::new();
    let result = vm.exec_for_start_tag(local_name(&tag.name), ns, &mut matches);
    if expectation.should_bailout {
        let req = match result {
            Err(req) => req,
            Ok(_) => panic!("Bailout expected"),
        };
        req.complete(vm, AuxStartTagInfo { attributes: tag.attributes, self_closing: tag.self_closing }, &mut matches);
    } else if result.is_err() {
        panic!("Should match without bailout");
    }
    let mut matched_payload = HashSet::new();
    for m in matches {
        assert_eq!(m.with_content, expectation.should_match_with_content);
        matched_payload.insert(m.payload);
    }
    assert_eq!(matched_payload, expectation.matched_payload);
}

fn exec_for_end_tag_and_assert(vm: &mut SelectorMatchingVm, tag_html: &str, expected_unmatched_payload: HashMap<usize, usize>) {
    let tag = read_tag(tag_html);
    let mut unmatched_payload: HashMap<usize, usize> = HashMap::new();
    for elem_data in vm.exec_for_end_tag(local_name(&tag.name)) {
        for payload in elem_data.matched_payload {
            *unmatched_payload.entry(payload).or_insert(0) += 1;
        }
    }
    assert_eq!(unmatched_payload, expected_unmatched_payload);
}

fn expect(should_bailout: bool, should_match_with_content: bool, matched_payload: &[usize]) -> Expectation {
    Expectation { should_bailout, should_match_with_content, matched_payload: set(matched_payload) }
}

#[test]
fn html_elements() {
    let mut vm = create_vm(&["a", "img.c1", ":not(a).c2"]);
    exec_for_start_tag_and_assert(&mut vm, "<a>", Namespace::Html, expect(false, true, &[0]));
    exec_for_start_tag_and_assert(&mut vm, "<img>", Namespace::Html, expect(true, false, &[]));
    exec_for_start_tag_and_assert(&mut vm, "<img class='c2 c1'>", Namespace::Html, expect(true, false, &[1, 2]));
    exec_for_start_tag_and_assert(&mut vm, "<a class='c1 c2'>", Namespace::Html, expect(false, true, &[0]));
    exec_for_start_tag_and_assert(&mut vm, "<div class='c2'>", Namespace::Html, expect(true, true, &[2]));
    exec_for_start_tag_and_assert(&mut vm, "<h1 class='c1 c2 c3'>", Namespace::Html, expect(true, true, &[2]));
    exec_for_end_tag_and_assert(&mut vm, "</span>", map(&[]));
    exec_for_end_tag_and_assert(&mut vm, "</a>", map(&[(0, 1), (2, 2)]));
    exec_for_end_tag_and_assert(&mut vm, "</div>", map(&[]));
    exec_for_end_tag_and_assert(&mut vm, "</a>", map(&[(0, 1)]));
}

#[test]
fn foreign_elements() {
    let mut vm = create_vm(&["circle", "#foo"]);
    exec_for_start_tag_and_assert(&mut vm, "<svg>", Namespace::Svg, expect(true, true, &[]));
    exec_for_start_tag_and_assert(&mut vm, "<circle id=foo />", Namespace::Svg, expect(true, false, &[0, 1]));
    exec_for_start_tag_and_assert(&mut vm, "<circle>", Namespace::Svg, expect(true, true, &[0]));
    exec_for_end_tag_and_assert(&mut vm, "</svg>", map(&[(0, 1)]));
}

#[test]
fn entry_points() {
    let mut vm = create_vm(&["div", "span[foo=bar]", "span#test"]);
    exec_for_start_tag_and_assert(&mut vm, "<div>", Namespace::Html, expect(false, true, &[0]));
    exec_for_start_tag_and_assert(&mut vm, "<span>", Namespace::Html, expect(true, true, &[]));
    exec_for_start_tag_and_assert(&mut vm, "<span foo=bar>", Namespace::Html, expect(true, true, &[1]));
    exec_for_start_tag_and_assert(&mut vm, "<span foo=bar id=test>", Namespace::Html, expect(true, true, &[1, 2]));
    exec_for_end_tag_and_assert(&mut vm, "</div>", map(&[(0, 1), (1, 2), (2, 1)]));
}

#[test]
fn entry_points_bailout_on_last_addr_in_set() {
    let mut vm = create_vm(&["*", "span", "span[foo=bar]"]);
    exec_for_start_tag_and_assert(&mut vm, "<span>", Namespace::Html, expect(true, true, &[0, 1]));
    exec_for_start_tag_and_assert(&mut vm, "<span foo=bar>", Namespace::Html, expect(true, true, &[0, 1, 2]));
}

#[test]
fn mod_jumps() {
    let mut vm = create_vm(&["div > span", "div > #foo", ":not(span) > .c2 > .c3"]);
    exec_for_start_tag_and_assert(&mut vm, "<div>", Namespace::Html, expect(false, true, &[]));
    exec_for_start_tag_and_assert(&mut vm, "<span>", Namespace::Html, expect(true, true, &[0]));
    exec_for_start_tag_and_assert(&mut vm, "<span>", Namespace::Html, expect(false, true, &[]));
    exec_for_end_tag_and_assert(&mut vm, "</span>", map(&[]));
    exec_for_end_tag_and_assert(&mut vm, "</span>", map(&[(0, 1)]));
    exec_for_start_tag_and_assert(&mut vm, "<div id=foo class=c2>", Namespace::Html, expect(true, true, &[1]));
    exec_for_start_tag_and_assert(&mut vm, "<span class=c3>", Namespace::Html, expect(true, true, &[0, 2]));
    exec_for_end_tag_and_assert(&mut vm, "</div>", map(&[(0, 1), (1, 1), (2, 1)]));
}

#[test]
fn bailout_in_jumps_on_last_addr_in_set() {
    let mut vm = create_vm(&["div > span", "div > *", "#foo > span", "#foo > ul.c1"]);
    exec_for_start_tag_and_assert(&mut vm, "<div id=foo>", Namespace::Html, expect(true, true, &[]));
    exec_for_start_tag_and_assert(&mut vm, "<span>", Namespace::Html, expect(true, true, &[0, 1, 2]));
    exec_for_end_tag_and_assert(&mut vm, "</span>", map(&[(0, 1), (1, 1), (2, 1)]));
    exec_for_start_tag_and_assert(&mut vm, "<ul>", Namespace::Html, expect(true, true, &[1]));
    exec_for_end_tag_and_assert(&mut vm, "</ul>", map(&[(1, 1)]));
    exec_for_start_tag_and_assert(&mut vm, "<ul class=c1>", Namespace::Html, expect(true, true, &[1, 3]));
}

#[test]
fn hereditary_jumps() {
    let mut vm = create_vm(&["div .c1", "#foo .c2 .c3"]);
    exec_for_start_tag_and_assert(&mut vm, "<div id=foo>", Namespace::Html, expect(true, true, &[]));
    exec_for_start_tag_and_assert(&mut vm, "<div class='c1 c2'>", Namespace::Html, expect(true, true, &[0]));
    exec_for_start_tag_and_assert(&mut vm, "<div class='c1 c2 c3'>", Namespace::Html, expect(true, true, &[0, 1]));
    exec_for_start_tag_and_assert(&mut vm, "<span class='c3'>", Namespace::Html, expect(true, true, &[1]));
    exec_for_start_tag_and_assert(&mut vm, "<span class='c1 c3'>", Namespace::Html, expect(true, true, &[0, 1]));
    exec_for_end_tag_and_assert(&mut vm, "</div>", map(&[(0, 2), (1, 3)]));
    exec_for_start_tag_and_assert(&mut vm, "<span class='c1'>", Namespace::Html, expect(true, true, &[0]));
}

#[test]
fn bailout_in_hereditary_jumps_in_first_ancestor() {
    let mut vm = create_vm(&["body div *", "body div span#foo", "body div span", "body * #foo"]);
    exec_for_start_tag_and_assert(&mut vm, "<body>", Namespace::Html, expect(false, true, &[]));
    exec_for_start_tag_and_assert(&mut vm, "<div>", Namespace::Html, expect(false, true, &[]));
    exec_for_start_tag_and_assert(&mut vm, "<img>", Namespace::Html, expect(true, false, &[0]));
    exec_for_start_tag_and_assert(&mut vm, "<span id=foo>", Namespace::Html, expect(true, true, &[0, 1, 2, 3]));
    exec_for_start_tag_and_assert(&mut vm, "<span>", Namespace::Html, expect(true, true, &[0, 2]));
    exec_for_end_tag_and_assert(&mut vm, "</body>", map(&[(0, 2), (1, 1), (2, 2), (3, 1)]));
}

#[test]
fn bailout_in_hereditary_jumps_on_last_addr_in_last_set_of_last_ancestor() {
    let mut vm = create_vm(&["body *", "body span#foo", "div *"]);
    exec_for_start_tag_and_assert(&mut vm, "<body>", Namespace::Html, expect(false, true, &[]));
    exec_for_start_tag_and_assert(&mut vm, "<div>", Namespace::Html, expect(false, true, &[0]));
    exec_for_start_tag_and_assert(&mut vm, "<span id=foo>", Namespace::Html, expect(true, true, &[0, 1, 2]));
    exec_for_start_tag_and_assert(&mut vm, "<span>", Namespace::Html, expect(true, true, &[0, 2]));
    exec_for_end_tag_and_assert(&mut vm, "</body>", map(&[(0, 3), (1, 1), (2, 2)]));
}

#[test]
fn compound_selector() {
    let mut vm = create_vm(&["body > span#foo .c1 .c2"]);
    exec_for_start_tag_and_assert(&mut vm, "<body>", Namespace::Html, expect(false, true, &[]));
    exec_for_start_tag_and_assert(&mut vm, "<span>", Namespace::Html, expect(true, true, &[]));
    exec_for_end_tag_and_assert(&mut vm, "</span>", map(&[]));
    exec_for_start_tag_and_assert(&mut vm, "<span id=foo>", Namespace::Html, expect(true, true, &[]));
    exec_for_start_tag_and_assert(&mut vm, "<div>", Namespace::Html, expect(true, true, &[]));
    exec_for_start_tag_and_assert(&mut vm, "<ul class='bar c1'>", Namespace::Html, expect(true, true, &[]));
    exec_for_start_tag_and_assert(&mut vm, "<li class='c3'>", Namespace::Html, expect(true, true, &[]));
    exec_for_start_tag_and_assert(&mut vm, "<span class=c2>", Namespace::Html, expect(true, true, &[0]));
}

// ---------------------------------------------------------------------------
// The compiled program

const ASCII_COMPATIBLE_ENCODINGS: [&str; 10] = [
    "utf-8",
    "windows-1252",
    "windows-1251",
    "iso-8859-2",
    "koi8-r",
    "shift_jis",
    "gbk",
    "big5",
    "euc-kr",
    "macintosh",
];

fn compile(selectors: &[&str], encoding: &str, expected_entry_point_count: usize) -> Program {
    let mut ast = Ast::new();
    for (idx, selector) in selectors.iter().enumerate() {
        ast.add_selector(&parse(selector).unwrap(), idx);
    }
    let program = Compiler::new(encoding).compile(ast);
    assert_eq!(program.entry_points.end - program.entry_points.start, expected_entry_point_count);
    program
}

fn with_negated(selector: &str, test_cases: &[(&'static str, bool)]) -> Vec<(String, Vec<(&'static str, bool)>)> {
    vec![
        (selector.to_string(), test_cases.to_owned()),
        (
            format!(":not({})", selector),
            test_cases.iter().map(|(input, should_match)| (*input, !should_match)).collect(),
        ),
    ]
}

fn start_tag(html: &str, encoding: &str) -> (LocalName, AttributeMatcher) {
    let tag = read_tag(html);
    let local_name = LocalName::from_str_without_replacements(&tag.name, encoding).unwrap();
    (local_name, AttributeMatcher::new(tag.attributes, Namespace::Html))
}

fn payload_of(res: Option<&ExecutionBranch>) -> Option<HashSet<usize>> {
    res.map(|b| b.matched_payload.iter().cloned().collect())
}

fn expected_payload(should_match: bool) -> Option<HashSet<usize>> {
    if should_match {
        Some(vec![0].into_iter().collect())
    } else {
        None
    }
}

fn exec_generic<'i>(instr: &'i Instr, local_name: &LocalName, attr_matcher: &AttributeMatcher) -> Option<&'i ExecutionBranch> {
    let res = instr.exec(local_name, Some(attr_matcher)).unwrap();
    let multi_step_res = match instr.exec(local_name, None) {
        Ok(res) => res,
        Err(_) => instr.exec_with_attrs(attr_matcher),
    };
    assert_eq!(payload_of(res), payload_of(multi_step_res));
    res
}

fn assert_attr_expr_matches(selector: &str, encoding: &str, test_cases: &[(&str, bool)]) {
    let program = compile(&[selector], encoding, 1);
    let instr = &program.instructions[program.entry_points.start];
    for (input, should_match) in test_cases.iter() {
        let (local_name, attr_matcher) = start_tag(input, encoding);
        assert!(instr.exec(&local_name, None).is_err(), "Instruction should not execute without attributes");
        let multi_step_res = instr.exec_with_attrs(&attr_matcher);
        let res = instr.exec(&local_name, Some(&attr_matcher)).unwrap();
        assert_eq!(payload_of(multi_step_res), payload_of(res));
        assert_eq!(payload_of(res), expected_payload(*should_match), "{} {} {}", selector, input, encoding);
    }
}

fn assert_non_attr_expr_matches_and_negation_reverses_match(selector: &str, encoding: &str, test_cases: &[(&'static str, bool)]) {
    for (selector, test_cases) in with_negated(selector, test_cases) {
        let program = compile(&[&selector], encoding, 1);
        let instr = &program.instructions[program.entry_points.start];
        for (input, should_match) in test_cases.iter() {
            let (local_name, attr_matcher) = start_tag(input, encoding);
            let multi_step_res = match instr.exec(&local_name, None) {
                Ok(res) => res,
                Err(_) => panic!("Should match without attribute request"),
            };
            let res = instr.exec(&local_name, Some(&attr_matcher)).unwrap();
            assert_eq!(payload_of(multi_step_res), payload_of(res));
            assert_eq!(payload_of(res), expected_payload(*should_match), "{} {} {}", selector, input, encoding);
        }
    }
}

fn assert_attr_expr_matches_and_negation_reverses_match(selector: &str, encoding: &str, test_cases: &[(&'static str, bool)]) {
    for (selector, test_cases) in with_negated(selector, test_cases).iter() {
        assert_attr_expr_matches(selector, encoding, test_cases);
    }
}

fn assert_generic_expr_matches(selector: &str, encoding: &str, test_cases: &[(&str, bool)]) {
    let program = compile(&[selector], encoding, 1);
    let instr = &program.instructions[program.entry_points.start];
    for (input, should_match) in test_cases.iter() {
        let (local_name, attr_matcher) = start_tag(input, encoding);
        let res = exec_generic(instr, &local_name, &attr_matcher);
        assert_eq!(payload_of(res), expected_payload(*should_match), "{} {} {}", selector, input, encoding);
    }
}

fn exec_instr_range(
    range: &AddressRange,
    program: &Program,
    local_name: &LocalName,
    attr_matcher: &AttributeMatcher,
) -> (HashSet<usize>, Vec<AddressRange>, Vec<AddressRange>) {
    let mut matched_payload = HashSet::new();
    let mut jumps = Vec::new();
    let mut hereditary_jumps = Vec::new();
    for addr in range.start..range.end {
        if let Some(res) = exec_generic(&program.instructions[addr], local_name, attr_matcher) {
            for &p in res.matched_payload.iter() {
                matched_payload.insert(p);
            }
            if let Some(j) = &res.jumps {
                jumps.push(AddressRange { start: j.start, end: j.end });
            }
            if let Some(j) = &res.hereditary_jumps {
                hereditary_jumps.push(AddressRange { start: j.start, end: j.end });
            }
        }
    }
    (matched_payload, jumps, hereditary_jumps)
}

fn assert_entry_points_match(selectors: &[&str], expected_entry_point_count: usize, test_cases: &[(&str, Vec<usize>)]) {
    let program = compile(selectors, "utf-8", expected_entry_point_count);
    for (input, expected) in test_cases.iter() {
        let (local_name, attr_matcher) = start_tag(input, "utf-8");
        let (matched_payload, _, _) = exec_instr_range(&program.entry_points, &program, &local_name, &attr_matcher);
        assert_eq!(matched_payload, expected.iter().cloned().collect::<HashSet<_>>(), "{:?} {}", selectors, input);
    }
}

#[test]
fn compiled_non_attr_expression() {
    for encoding in ASCII_COMPATIBLE_ENCODINGS.iter() {
        assert_non_attr_expr_matches_and_negation_reverses_match(
            "*",
            encoding,
            &[("<div>", true), ("<span>", true), ("<anything-else>", true)],
        );
        assert_non_attr_expr_matches_and_negation_reverses_match(
            r#"[foo*=""]"#,
            encoding,
            &[("<div>", false), ("<span>", false), ("<anything-else>", false)],
        );
        assert_non_attr_expr_matches_and_negation_reverses_match(
            "div",
            encoding,
            &[("<div>", true), ("<divnotdiv>", false), ("<span>", false), ("<anything-else>", false)],
        );
        assert_non_attr_expr_matches_and_negation_reverses_match(
            "span",
            encoding,
            &[("<div>", false), ("<span>", true), ("<anything-else>", false)],
        );
        assert_non_attr_expr_matches_and_negation_reverses_match(
            "anything-else",
            encoding,
            &[("<div>", false), ("<span>", false), ("<anything-else>", true)],
        );
    }
}

#[test]
fn compiled_attr_expression() {
    for encoding in ASCII_COMPATIBLE_ENCODINGS.iter() {
        assert_attr_expr_matches_and_negation_reverses_match(
            "#foo",
            encoding,
            &[
                ("<div bar=baz qux id='foo'>", true),
                ("<div iD='foo'>", true),
                ("<div bar=baz qux id='foo1'>", false),
                ("<div bar=baz qux>", false),
            ],
        );
        assert_attr_expr_matches_and_negation_reverses_match(
            ".c2",
            encoding,
            &[
                ("<div bar=baz class='c1 c2 c3 c4' qux>", true),
                ("<div CLASS='c1 c2 c3 c4'>", true),
                ("<div class='c1 c23 c4'>", false),
                ("<div bar=baz qux>", false),
            ],
        );
        assert_attr_expr_matches_and_negation_reverses_match(
            "[foo]",
            encoding,
            &[
                ("<div foo1 foo2 foo>", true),
                ("<div FOo=123>", true),
                ("<div id='baz'>", false),
                ("<div bar=baz qux>", false),
            ],
        );
        assert_attr_expr_matches_and_negation_reverses_match(
            r#"[foo="bar"]"#,
            encoding,
            &[
                ("<div fOo='bar'>", true),
                ("<div foo=bar>", true),
                ("<div foo='BaR'>", false),
                ("<div foo='42'>", false),
                ("<div bar=baz qux>", false),
            ],
        );
        assert_attr_expr_matches_and_negation_reverses_match(
            r#"[foo="bar" i]"#,
            encoding,
            &[
                ("<div fOo='bar'>", true),
                ("<div foo=bar>", true),
                ("<div foo='BaR'>", true),
                ("<div foo='42'>", false),
                ("<div bar=baz qux>", false),
            ],
        );
        assert_attr_expr_matches_and_negation_reverses_match(
            r#"[foo~="bar3"]"#,
            encoding,
            &[
                ("<div fOo='bar1\nbar2 bar3\tbar4'>", true),
                ("<div foo='bar3'>", true),
                ("<div foo='bar1 bar2 BAR3'>", false),
                ("<div foo='42'>", false),
                ("<div bar=baz qux>", false),
            ],
        );
        assert_attr_expr_matches_and_negation_reverses_match(
            r#"[foo~="bar3" i]"#,
            encoding,
            &[
                ("<div fOo='bar1\nbar2 bar3\tbar4'>", true),
                ("<div foo='bar3'>", true),
                ("<div foo='bar1 bar2 BAR3'>", true),
                ("<div foo='42'>", false),
                ("<div bar=baz qux>", false),
            ],
        );
        assert_attr_expr_matches_and_negation_reverses_match(
            r#"[lang|="en" s]"#,
            encoding,
            &[
                ("<div lang='en-GB'>", true),
                ("<div lang='en-US'>", true),
                ("<div lang='en'>", true),
                ("<div lang='En'>", false),
                ("<div lang='En-GB'>", false),
                ("<div lang='fr'>", false),
                ("<div bar=baz qux>", false),
            ],
        );
        assert_attr_expr_matches_and_negation_reverses_match(
            r#"[lang|="en"]"#,
            encoding,
            &[
                ("<div lang='en-GB'>", true),
                ("<div lang='en-US'>", true),
                ("<div lang='en'>", true),
                ("<div lang='En'>", true),
                ("<div lang='En-GB'>", true),
                ("<div lang='fr'>", false),
                ("<div bar=baz qux>", false),
            ],
        );
        assert_attr_expr_matches_and_negation_reverses_match(
            r#"[foo^="bar"]"#,
            encoding,
            &[
                ("<div fOo='bar1\nbar2 bar3\tbar4'>", true),
                ("<div foo='bar'>", true),
                ("<div foo='BaR'>", false),
                ("<div foo='bazbar'>", false),
                ("<div foo='42'>", false),
                ("<div bar=baz qux>", false),
            ],
        );
        assert_attr_expr_matches_and_negation_reverses_match(
            r#"[foo^="bar" i]"#,
            encoding,
            &[
                ("<div fOo='bar1\nbar2 bar3\tbar4'>", true),
                ("<div foo='bar'>", true),
                ("<div foo='BaR'>", true),
                ("<div foo='bazbar'>", false),
                ("<div foo='42'>", false),
                ("<div bar=baz qux>", false),
            ],
        );
        assert_attr_expr_matches_and_negation_reverses_match(
            r#"[foo*="bar"]"#,
            encoding,
            &[
                ("<div fOo='bar1\nbar2 bar3\tbar4'>", true),
                ("<div foo='bar'>", true),
                ("<div foo='42BaR42'>", false),
                ("<div foo='bazbatbar'>", true),
                ("<div foo='42'>", false),
                ("<div bar=baz qux>", false),
            ],
        );
        assert_attr_expr_matches_and_negation_reverses_match(
            r#"[foo*="bar" i]"#,
            encoding,
            &[
                ("<div fOo='bar1\nbar2 bar3\tbar4'>", true),
                ("<div foo='bar'>", true),
                ("<div foo='42BaR42'>", true),
                ("<div foo='bazbatbar'>", true),
                ("<div foo='42'>", false),
                ("<div bar=baz qux>", false),
            ],
        );
        assert_attr_expr_matches_and_negation_reverses_match(
            r#"[foo$="bar"]"#,
            encoding,
            &[
                ("<div fOo='bar1\nbar2 bar3\tbar'>", true),
                ("<div foo='bar'>", true),
                ("<div foo='bazbar'>", true),
                ("<div foo='BaR'>", false),
                ("<div foo='42'>", false),
                ("<div bar=baz qux>", false),
            ],
        );
        assert_attr_expr_matches_and_negation_reverses_match(
            r#"[foo$="bar" i]"#,
            encoding,
            &[
                ("<div fOo='bar1\nbar2 bar3\tbar'>", true),
                ("<div foo='bar'>", true),
                ("<div foo='bazbar'>", true),
                ("<div foo='BaR'>", true),
                ("<div foo='42'>", false),
                ("<div bar=baz qux>", false),
            ],
        );
        assert_attr_expr_matches(
            r#"#foo1.c1.c2[foo3][foo2$="bar"]"#,
            encoding,
            &[
                ("<div id='foo1' class='c4 c2 c3 c1' foo3 foo2=heybar>", true),
                ("<div ID='foo1' class='c4 c2 c3 c1' foo3=test foo2=bar>", true),
                ("<div id='foo1' class='c4 c2 c3 c1' foo3>", false),
                ("<div id='foo1' class='c4 c2 c3 c5' foo3 foo2=heybar>", false),
                ("<div id='foo12' class='c4 c2 c3 c5' foo3 foo2=heybar>", false),
            ],
        );
    }
}

#[test]
fn generic_expressions() {
    for encoding in ASCII_COMPATIBLE_ENCODINGS.iter() {
        assert_generic_expr_matches(
            r#"div#foo1.c1.c2[foo3][foo2$="bar"]"#,
            encoding,
            &[
                ("<div id='foo1' class='c4 c2 c3 c1' foo3 foo2=heybar>", true),
                ("<span id='foo1' class='c4 c2 c3 c1' foo3 foo2=heybar>", false),
                ("<div ID='foo1' class='c4 c2 c3 c1' foo3=test foo2=bar>", true),
                ("<div id='foo1' class='c4 c2 c3 c1' foo3>", false),
                ("<div id='foo1' class='c4 c2 c3 c5' foo3 foo2=heybar>", false),
                ("<div id='foo12' class='c4 c2 c3 c5' foo3 foo2=heybar>", false),
            ],
        );
        assert_generic_expr_matches(
            r#"some-thing[lang|=en]"#,
            encoding,
            &[
                ("<some-thing lang='en-GB'", true),
                ("<some-thing lang='en-US'", true),
                ("<some-thing lang='fr'>", false),
                ("<some-thing lang>", false),
                ("<span lang='en-GB'", false),
            ],
        );
    }
}

#[test]
fn multiple_entry_points() {
    assert_entry_points_match(
        &["div", "div.c1.c2", "#foo", ".c1#foo"],
        4,
        &[
            ("<div>", vec![0]),
            ("<div class='c3 c2  c1'>", vec![0, 1]),
            ("<div class='c1 c2' id=foo>", vec![0, 1, 2, 3]),
            ("<div class='c1' id=foo>", vec![0, 2, 3]),
            ("<span class='c1 c2'>", vec![]),
        ],
    );
    assert_entry_points_match(
        &["span, [foo$=bar]"],
        2,
        &[("<span>", vec![0]), ("<div fOo=testbar>", vec![0]), ("<span foo=bar>", vec![0])],
    );
}

#[test]
fn compiler_jumps() {
    let selectors = ["div > .c1", "div > .c2", "div #d1", "div #d2", "[foo=bar] #id1 > #id2"];
    let program = compile(&selectors, "utf-8", 2);

    let exec = |html: &str, range: &AddressRange, expected: Vec<usize>| {
        let (local_name, attr_matcher) = start_tag(html, "utf-8");
        let (payload, jumps, hereditary_jumps) = exec_instr_range(range, &program, &local_name, &attr_matcher);
        assert_eq!(payload, expected.into_iter().collect::<HashSet<_>>(), "{:?} {}", selectors, html);
        (jumps, hereditary_jumps)
    };

    {
        let (jumps, hereditary_jumps) = exec("<div>", &program.entry_points, vec![]);
        assert_eq!(jumps.len(), 1);
        assert_eq!(hereditary_jumps.len(), 1);
        {
            let (j, h) = exec("<span class='c1 c2'>", &jumps[0], vec![0, 1]);
            assert_eq!(j.len(), 0);
            assert_eq!(h.len(), 0);
        }
        {
            let (j, h) = exec("<span class='c2'>", &jumps[0], vec![1]);
            assert_eq!(j.len(), 0);
            assert_eq!(h.len(), 0);
        }
        {
            let (j, h) = exec("<h1 id=d2>", &hereditary_jumps[0], vec![3]);
            assert_eq!(j.len(), 0);
            assert_eq!(h.len(), 0);
        }
    }
    {
        let (jumps, hereditary_jumps) = exec("<div foo=bar>", &program.entry_points, vec![]);
        assert_eq!(jumps.len(), 1);
        assert_eq!(hereditary_jumps.len(), 2);
    }
    {
        let (jumps, hereditary_jumps) = exec("<span foo=bar>", &program.entry_points, vec![]);
        assert_eq!(jumps.len(), 0);
        assert_eq!(hereditary_jumps.len(), 1);
        {
            let (jumps, hereditary_jumps) = exec("<table id=id1>", &hereditary_jumps[0], vec![]);
            assert_eq!(jumps.len(), 1);
            assert_eq!(hereditary_jumps.len(), 0);
            {
                let (j, h) = exec("<span id=id2>", &jumps[0], vec![4]);
                assert_eq!(j.len(), 0);
                assert_eq!(h.len(), 0);
            }
        }
    }
}

#[test]
fn unsupported_components_reported_in_match_order() {
    let err = |items: Vec<Vec<Component>>| Selector::new(items).unwrap_err();
    let name = |n: &str| Component::LocalName(n.to_string());

    // Within a compound selector, its components from left to right.
    assert_eq!(
        err(vec![vec![name("div"), Component::AttributeOther, Component::FirstChild]]),
        SelectorError::NamespacedSelector
    );
    assert_eq!(
        err(vec![vec![name("div"), Component::FirstChild, Component::AttributeOther]]),
        SelectorError::UnsupportedPseudoClassOrElement
    );
    // The last compound selector first, then the combinator before it, then the rest.
    assert_eq!(
        err(vec![vec![
            Component::FirstChild,
            Component::Combinator(Combinator::Child),
            name("a"),
            Component::AttributeOther,
        ]]),
        SelectorError::NamespacedSelector
    );
    assert_eq!(
        err(vec![vec![name("a"), Component::Combinator(Combinator::NextSibling), Component::Root]]),
        SelectorError::UnsupportedPseudoClassOrElement
    );
    assert_eq!(
        err(vec![vec![Component::Root, Component::Combinator(Combinator::LaterSibling), name("b")]]),
        SelectorError::UnsupportedCombinator('~')
    );
    assert!(Selector::new(vec![vec![name("a"), Component::Combinator(Combinator::Child), name("b")]]).is_ok());
}

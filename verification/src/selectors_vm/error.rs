use vstd::prelude::*;

verus! {

/// An error that occurs when a CSS selector is parsed or is not supported.
#[derive(Debug, PartialEq, Eq, Structural, Copy, Clone)]
pub enum SelectorError {
    UnexpectedToken,
    UnexpectedEnd,
    MissingAttributeName,
    EmptySelector,
    DanglingCombinator,
    UnexpectedTokenInAttribute,
    UnsupportedPseudoClassOrElement,
    NestedNegation,
    NamespacedSelector,
    InvalidClassName,
    EmptyNegation,
    UnsupportedCombinator(char),
    UnsupportedSyntax,
}

/// The kinds of errors that the CSS selector grammar reports, by name: the basic ones of
/// the CSS tokenizer first, then those of the selector grammar.
#[derive(Debug, PartialEq, Eq, Structural, Copy, Clone)]
pub enum SelectorParseErrorKind {
    UnexpectedToken,
    EndOfInput,
    AtRuleInvalid,
    AtRuleBodyInvalid,
    QualifiedRuleInvalid,
    PseudoElementInComplexSelector,
    NoQualifiedNameInAttributeSelector,
    EmptySelector,
    DanglingCombinator,
    NonSimpleSelectorInNegation,
    NonCompoundSelector,
    NonPseudoElementAfterSlotted,
    InvalidPseudoElementAfterSlotted,
    InvalidState,
    UnexpectedTokenInAttributeSelector,
    PseudoElementExpectedColon,
    PseudoElementExpectedIdent,
    NoIdentForPseudo,
    UnsupportedPseudoClassOrElement,
    UnexpectedIdent,
    ExpectedNamespace,
    ExpectedBarInAttr,
    BadValueInAttr,
    InvalidQualNameInAttr,
    ExplicitNamespaceUnexpectedToken,
    ClassNeedsIdent,
    EmptyNegation,
}

/// The error that a grammar error of the given kind is reported as.
pub open spec fn spec_error_for_kind(kind: SelectorParseErrorKind) -> SelectorError {
    match kind {
        SelectorParseErrorKind::UnexpectedToken => SelectorError::UnexpectedToken,
        SelectorParseErrorKind::EndOfInput => SelectorError::UnexpectedEnd,
        SelectorParseErrorKind::AtRuleInvalid => SelectorError::UnsupportedSyntax,
        SelectorParseErrorKind::AtRuleBodyInvalid => SelectorError::UnsupportedSyntax,
        SelectorParseErrorKind::QualifiedRuleInvalid => SelectorError::UnsupportedSyntax,
        SelectorParseErrorKind::NoQualifiedNameInAttributeSelector => SelectorError::MissingAttributeName,
        SelectorParseErrorKind::EmptySelector => SelectorError::EmptySelector,
        SelectorParseErrorKind::DanglingCombinator => SelectorError::DanglingCombinator,
        SelectorParseErrorKind::UnexpectedIdent => SelectorError::NestedNegation,
        SelectorParseErrorKind::ExpectedNamespace => SelectorError::NamespacedSelector,
        SelectorParseErrorKind::ExplicitNamespaceUnexpectedToken => SelectorError::UnexpectedToken,
        SelectorParseErrorKind::UnexpectedTokenInAttributeSelector => SelectorError::UnexpectedTokenInAttribute,
        SelectorParseErrorKind::ExpectedBarInAttr => SelectorError::UnexpectedTokenInAttribute,
        SelectorParseErrorKind::BadValueInAttr => SelectorError::UnexpectedTokenInAttribute,
        SelectorParseErrorKind::InvalidQualNameInAttr => SelectorError::UnexpectedTokenInAttribute,
        SelectorParseErrorKind::ClassNeedsIdent => SelectorError::InvalidClassName,
        SelectorParseErrorKind::EmptyNegation => SelectorError::EmptyNegation,
        _ => SelectorError::UnsupportedPseudoClassOrElement,
    }
}

impl SelectorError {
    /// The error that a grammar error of the given kind is reported as: pseudo-class and
    /// pseudo-element related kinds are reported as unsupported, the only unexpected
    /// identifier that the grammar reports is a nested negation, and so on.
    pub fn from_parse_error_kind(kind: SelectorParseErrorKind) -> (r: SelectorError)
        ensures
            r == spec_error_for_kind(kind),
    {
        match kind {
            SelectorParseErrorKind::UnexpectedToken => SelectorError::UnexpectedToken,
            SelectorParseErrorKind::EndOfInput => SelectorError::UnexpectedEnd,
            SelectorParseErrorKind::AtRuleInvalid
            | SelectorParseErrorKind::AtRuleBodyInvalid
            | SelectorParseErrorKind::QualifiedRuleInvalid => SelectorError::UnsupportedSyntax,
            SelectorParseErrorKind::NoQualifiedNameInAttributeSelector => {
                SelectorError::MissingAttributeName
            },
            SelectorParseErrorKind::EmptySelector => SelectorError::EmptySelector,
            SelectorParseErrorKind::DanglingCombinator => SelectorError::DanglingCombinator,
            SelectorParseErrorKind::PseudoElementInComplexSelector
            | SelectorParseErrorKind::NonSimpleSelectorInNegation
            | SelectorParseErrorKind::NonCompoundSelector
            | SelectorParseErrorKind::NonPseudoElementAfterSlotted
            | SelectorParseErrorKind::InvalidPseudoElementAfterSlotted
            | SelectorParseErrorKind::InvalidState
            | SelectorParseErrorKind::PseudoElementExpectedColon
            | SelectorParseErrorKind::PseudoElementExpectedIdent
            | SelectorParseErrorKind::NoIdentForPseudo
            | SelectorParseErrorKind::UnsupportedPseudoClassOrElement => {
                SelectorError::UnsupportedPseudoClassOrElement
            },
            SelectorParseErrorKind::UnexpectedIdent => SelectorError::NestedNegation,
            SelectorParseErrorKind::ExpectedNamespace => SelectorError::NamespacedSelector,
            SelectorParseErrorKind::ExplicitNamespaceUnexpectedToken => SelectorError::UnexpectedToken,
            SelectorParseErrorKind::UnexpectedTokenInAttributeSelector
            | SelectorParseErrorKind::ExpectedBarInAttr
            | SelectorParseErrorKind::BadValueInAttr
            | SelectorParseErrorKind::InvalidQualNameInAttr => {
                SelectorError::UnexpectedTokenInAttribute
            },
            SelectorParseErrorKind::ClassNeedsIdent => SelectorError::InvalidClassName,
            SelectorParseErrorKind::EmptyNegation => SelectorError::EmptyNegation,
        }
    }
}

} // verus!

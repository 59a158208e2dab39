//! Everything that can go wrong.
use vstd::prelude::*;
use crate::config::Action;
use crate::lexer::{Token, TokenView};

verus! {

/// What the rule language calls for at some place.
#[derive(Debug, Clone, Copy, PartialEq, Eq, Structural)]
pub enum Expected {
    Equals,
    Default,
    LBrace,
    RBrace,
    LBracket,
    Identifier,
    Pattern,
    DefaultAction,
    /// `passthrough` behind the `force` of a table's default.
    DefaultPassthrough,
    RuleAction,
    /// `passthrough` behind the `force` of a rule.
    RulePassthrough,
    ConditionKeyword,
    QuotedString,
    FilePath,
    AuditLevel,
    TrueOrFalse,
    FlagLiteral,
    Number,
    OptsItem,
}

#[derive(Debug, PartialEq)]
pub enum Error {
    UnterminatedRegex { line: usize, col: usize },
    UnterminatedRawString { line: usize, col: usize },
    UnterminatedString { line: usize, col: usize },
    /// A `$` without a name behind it.
    EmptyVariable { line: usize, col: usize },
    /// Digits whose number no `usize` holds.
    InvalidNumber { text: String, line: usize, col: usize },
    UnexpectedChar { c: char, line: usize, col: usize },
    /// Something else stands where `what` is called for; `None` is the end of input.
    Unexpected { what: Expected, got: Option<Token>, line: usize, col: usize },
    UnknownVariable { name: String, line: usize, col: usize },
    UnexpectedTopLevel { token: Token, line: usize, col: usize },
    UnexpectedInAudit { token: Token, line: usize, col: usize },
    UnknownAuditLevel { text: String, line: usize, col: usize },
    MissingArrow { line: usize, col: usize },
    NegationUnsupported { field: String },
    /// A word that names no condition.
    UnknownCondition { field: String },
    /// A project's rules file holds a directive.
    LocalDirective { source: String, token: Token, line: usize, col: usize },
    /// A project's rules file holds an action that only the global rules may take.
    LocalAction { source: String, action: Action },
    /// A project's rules file asks for a path that is absolute or holds `..`.
    LocalHasFile { source: String, negated: bool, path: String },
    EntryNotFound { entry: String },
    ForwardWithoutTarget { rule: usize, table: String },
    ForwardToUnknown { rule: usize, table: String, target: String },
    FlagAndPositional { rule: usize, table: String },
    EvaluateToUnknown { rule: usize, table: String, target: String },
    /// A path that must be relative and without `..` is not.
    HasFilePath { rule: usize, table: String, negated: bool, path: String },
    UnknownConstant { name: String, pattern: String },
    InvalidRegex { pattern: String, detail: String },
    /// Forwarding came back to a table.
    Cycle { table: String },
    TableNotFound { table: String },
    /// A table's default is an action that only a rule can take.
    DefaultNotAllowed { table: String, action: Action },
    /// Evaluation must know first whether a path exists or, with `directory`, whether it is
    /// a directory.
    Unprobed { path: String, directory: bool },
}

/// An error, in mathematical form.
pub enum ErrorView {
    UnterminatedRegex { line: nat, col: nat },
    UnterminatedRawString { line: nat, col: nat },
    UnterminatedString { line: nat, col: nat },
    EmptyVariable { line: nat, col: nat },
    InvalidNumber { text: Seq<char>, line: nat, col: nat },
    UnexpectedChar { c: char, line: nat, col: nat },
    Unexpected { what: Expected, got: Option<TokenView>, line: nat, col: nat },
    UnknownVariable { name: Seq<char>, line: nat, col: nat },
    UnexpectedTopLevel { token: TokenView, line: nat, col: nat },
    UnexpectedInAudit { token: TokenView, line: nat, col: nat },
    UnknownAuditLevel { text: Seq<char>, line: nat, col: nat },
    MissingArrow { line: nat, col: nat },
    NegationUnsupported { field: Seq<char> },
    UnknownCondition { field: Seq<char> },
    LocalDirective { source: Seq<char>, token: TokenView, line: nat, col: nat },
    LocalAction { source: Seq<char>, action: Action },
    LocalHasFile { source: Seq<char>, negated: bool, path: Seq<char> },
    EntryNotFound { entry: Seq<char> },
    ForwardWithoutTarget { rule: nat, table: Seq<char> },
    ForwardToUnknown { rule: nat, table: Seq<char>, target: Seq<char> },
    FlagAndPositional { rule: nat, table: Seq<char> },
    EvaluateToUnknown { rule: nat, table: Seq<char>, target: Seq<char> },
    HasFilePath { rule: nat, table: Seq<char>, negated: bool, path: Seq<char> },
    UnknownConstant { name: Seq<char>, pattern: Seq<char> },
    InvalidRegex { pattern: Seq<char>, detail: Seq<char> },
    Cycle { table: Seq<char> },
    TableNotFound { table: Seq<char> },
    DefaultNotAllowed { table: Seq<char>, action: Action },
    Unprobed { path: Seq<char>, directory: bool },
}

/// An optional token, in mathematical form.
pub open spec fn opt_token(o: Option<Token>) -> Option<TokenView> {
    match o {
        Some(t) => Some(t@),
        None => None,
    }
}

/// A result, in mathematical form.
pub open spec fn outcome<T: View>(r: Result<T, Error>) -> Result<T::V, ErrorView> {
    match r {
        Ok(v) => Ok(v@),
        Err(e) => Err(e@),
    }
}

impl View for Error {
    type V = ErrorView;

    open spec fn view(&self) -> ErrorView {
        match *self {
            Error::UnterminatedRegex { line, col } => ErrorView::UnterminatedRegex {
                line: line as nat,
                col: col as nat,
            },
            Error::UnterminatedRawString { line, col } => ErrorView::UnterminatedRawString {
                line: line as nat,
                col: col as nat,
            },
            Error::UnterminatedString { line, col } => ErrorView::UnterminatedString {
                line: line as nat,
                col: col as nat,
            },
            Error::EmptyVariable { line, col } => ErrorView::EmptyVariable {
                line: line as nat,
                col: col as nat,
            },
            Error::InvalidNumber { text, line, col } => ErrorView::InvalidNumber {
                text: text@,
                line: line as nat,
                col: col as nat,
            },
            Error::UnexpectedChar { c, line, col } => ErrorView::UnexpectedChar {
                c,
                line: line as nat,
                col: col as nat,
            },
            Error::Unexpected { what, got, line, col } => ErrorView::Unexpected {
                what,
                got: opt_token(got),
                line: line as nat,
                col: col as nat,
            },
            Error::UnknownVariable { name, line, col } => ErrorView::UnknownVariable {
                name: name@,
                line: line as nat,
                col: col as nat,
            },
            Error::UnexpectedTopLevel { token, line, col } => ErrorView::UnexpectedTopLevel {
                token: token@,
                line: line as nat,
                col: col as nat,
            },
            Error::UnexpectedInAudit { token, line, col } => ErrorView::UnexpectedInAudit {
                token: token@,
                line: line as nat,
                col: col as nat,
            },
            Error::UnknownAuditLevel { text, line, col } => ErrorView::UnknownAuditLevel {
                text: text@,
                line: line as nat,
                col: col as nat,
            },
            Error::MissingArrow { line, col } => ErrorView::MissingArrow {
                line: line as nat,
                col: col as nat,
            },
            Error::NegationUnsupported { field } => ErrorView::NegationUnsupported {
                field: field@,
            },
            Error::UnknownCondition { field } => ErrorView::UnknownCondition {
                field: field@,
            },
            Error::LocalDirective { source, token, line, col } => ErrorView::LocalDirective {
                source: source@,
                token: token@,
                line: line as nat,
                col: col as nat,
            },
            Error::LocalAction { source, action } => ErrorView::LocalAction {
                source: source@,
                action,
            },
            Error::LocalHasFile { source, negated, path } => ErrorView::LocalHasFile {
                source: source@,
                negated,
                path: path@,
            },
            Error::EntryNotFound { entry } => ErrorView::EntryNotFound {
                entry: entry@,
            },
            Error::ForwardWithoutTarget { rule, table } => ErrorView::ForwardWithoutTarget {
                rule: rule as nat,
                table: table@,
            },
            Error::ForwardToUnknown { rule, table, target } => ErrorView::ForwardToUnknown {
                rule: rule as nat,
                table: table@,
                target: target@,
            },
            Error::FlagAndPositional { rule, table } => ErrorView::FlagAndPositional {
                rule: rule as nat,
                table: table@,
            },
            Error::EvaluateToUnknown { rule, table, target } => ErrorView::EvaluateToUnknown {
                rule: rule as nat,
                table: table@,
                target: target@,
            },
            Error::HasFilePath { rule, table, negated, path } => ErrorView::HasFilePath {
                rule: rule as nat,
                table: table@,
                negated,
                path: path@,
            },
            Error::UnknownConstant { name, pattern } => ErrorView::UnknownConstant {
                name: name@,
                pattern: pattern@,
            },
            Error::InvalidRegex { pattern, detail } => ErrorView::InvalidRegex {
                pattern: pattern@,
                detail: detail@,
            },
            Error::Cycle { table } => ErrorView::Cycle {
                table: table@,
            },
            Error::TableNotFound { table } => ErrorView::TableNotFound {
                table: table@,
            },
            Error::DefaultNotAllowed { table, action } => ErrorView::DefaultNotAllowed {
                table: table@,
                action,
            },
            Error::Unprobed { path, directory } => ErrorView::Unprobed {
                path: path@,
                directory,
            },
        }
    }
}

} // verus!

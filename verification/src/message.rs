//! What errors say.
use vstd::prelude::*;
use crate::config::{action_name, Action};
use crate::error::{opt_token, Error, ErrorView, Expected};
use crate::lexer::{Token, TokenView};
use crate::text::{decimal, decimal_of};

verus! {

/// Name for the `Debug` form of a `str`.
pub uninterp spec fn debug_text(s: Seq<char>) -> Seq<char>;

/// The `Debug` form of a `str`, as the formatting macros of std write it: the text in
/// double quotes, with escapes. It is a function of the text alone.
#[verifier::external_body]
fn debug_of(s: &str) -> (r: String)
    ensures
        r@ == debug_text(s@),
{
    format!("{:?}", s)
}

/// A token that holds a text, by its kind and the text.
pub open spec fn literal_debug(kind: Seq<char>, text: Seq<char>) -> Seq<char> {
    kind + "("@ + debug_text(text) + ")"@
}

/// How a token is named in a message.
pub open spec fn token_debug(token: TokenView) -> Seq<char> {
    match token {
        TokenView::Let => "Let"@,
        TokenView::Table => "Table"@,
        TokenView::Default => "Default"@,
        TokenView::Opts => "Opts"@,
        TokenView::Skip => "Skip"@,
        TokenView::Flag => "Flag"@,
        TokenView::Evaluate => "Evaluate"@,
        TokenView::Forward => "Forward"@,
        TokenView::Allow => "Allow"@,
        TokenView::Deny => "Deny"@,
        TokenView::Passthrough => "Passthrough"@,
        TokenView::Force => "Force"@,
        TokenView::Entry => "Entry"@,
        TokenView::Audit => "Audit"@,
        TokenView::Arrow => "Arrow"@,
        TokenView::LBrace => "LBrace"@,
        TokenView::RBrace => "RBrace"@,
        TokenView::LBracket => "LBracket"@,
        TokenView::RBracket => "RBracket"@,
        TokenView::Comma => "Comma"@,
        TokenView::Bang => "Bang"@,
        TokenView::Equals => "Equals"@,
        TokenView::Newline => "Newline"@,
        TokenView::Regex(s) => literal_debug("Regex"@, s),
        TokenView::Str(s) => literal_debug("Str"@, s),
        TokenView::VarRef(s) => literal_debug("VarRef"@, s),
        TokenView::Ident(s) => literal_debug("Ident"@, s),
        TokenView::FlagLit(s) => literal_debug("FlagLit"@, s),
        TokenView::Number(n) => "Number("@ + decimal(n) + ")"@,
    }
}

fn debug_of_literal(kind: &str, s: &str) -> (r: String)
    ensures
        r@ == literal_debug(kind@, s@),
{
    let mut text = kind.to_owned();
    text.push_str("(");
    text.push_str(&debug_of(s));
    text.push_str(")");
    text
}

fn debug_of_token(token: &Token) -> (r: String)
    ensures
        r@ == token_debug(token@),
{
    match token {
        Token::Let => "Let".to_owned(),
        Token::Table => "Table".to_owned(),
        Token::Default => "Default".to_owned(),
        Token::Opts => "Opts".to_owned(),
        Token::Skip => "Skip".to_owned(),
        Token::Flag => "Flag".to_owned(),
        Token::Evaluate => "Evaluate".to_owned(),
        Token::Forward => "Forward".to_owned(),
        Token::Allow => "Allow".to_owned(),
        Token::Deny => "Deny".to_owned(),
        Token::Passthrough => "Passthrough".to_owned(),
        Token::Force => "Force".to_owned(),
        Token::Entry => "Entry".to_owned(),
        Token::Audit => "Audit".to_owned(),
        Token::Arrow => "Arrow".to_owned(),
        Token::LBrace => "LBrace".to_owned(),
        Token::RBrace => "RBrace".to_owned(),
        Token::LBracket => "LBracket".to_owned(),
        Token::RBracket => "RBracket".to_owned(),
        Token::Comma => "Comma".to_owned(),
        Token::Bang => "Bang".to_owned(),
        Token::Equals => "Equals".to_owned(),
        Token::Newline => "Newline".to_owned(),
        Token::Regex(s) => debug_of_literal("Regex", s),
        Token::Str(s) => debug_of_literal("Str", s),
        Token::VarRef(s) => debug_of_literal("VarRef", s),
        Token::Ident(s) => debug_of_literal("Ident", s),
        Token::FlagLit(s) => debug_of_literal("FlagLit", s),
        Token::Number(n) => {
            let mut text = "Number(".to_owned();
            text.push_str(&decimal_of(*n));
            text.push_str(")");
            text
        },
    }
}

/// Where something stands.
pub open spec fn place(line: nat, col: nat) -> Seq<char> {
    " at line "@ + decimal(line) + ", col "@ + decimal(col)
}

fn place_of(line: usize, col: usize) -> (r: String)
    ensures
        r@ == place(line as nat, col as nat),
{
    let mut text = " at line ".to_owned();
    text.push_str(&decimal_of(line));
    text.push_str(", col ");
    text.push_str(&decimal_of(col));
    text
}

/// The keyword of a directive.
pub open spec fn directive_name(token: TokenView) -> Seq<char> {
    match token {
        TokenView::Table => "table"@,
        TokenView::Entry => "entry"@,
        TokenView::Audit => "audit"@,
        _ => "unknown"@,
    }
}

fn directive_name_of(token: &Token) -> (r: &'static str)
    ensures
        r@ == directive_name(token@),
{
    match token {
        Token::Table => "table",
        Token::Entry => "entry",
        Token::Audit => "audit",
        _ => "unknown",
    }
}

/// An action, as it is written.
pub open spec fn action_phrase(action: Action) -> Seq<char> {
    match action {
        Action::Allow => "allow"@,
        Action::Deny => "deny"@,
        Action::Passthrough => "passthrough"@,
        Action::ForcePassthrough => "force passthrough"@,
        Action::Forward => "forward"@,
        Action::Evaluate => "evaluate"@,
    }
}

fn action_phrase_of(action: Action) -> (r: &'static str)
    ensures
        r@ == action_phrase(action),
{
    match action {
        Action::Allow => "allow",
        Action::Deny => "deny",
        Action::Passthrough => "passthrough",
        Action::ForcePassthrough => "force passthrough",
        Action::Forward => "forward",
        Action::Evaluate => "evaluate",
    }
}

/// The condition on a path, or the exception.
pub open spec fn path_field(negated: bool) -> Seq<char> {
    match negated {
        true => "has_file_not"@,
        false => "has_file"@,
    }
}

fn path_field_of(negated: bool) -> (r: &'static str)
    ensures
        r@ == path_field(negated),
{
    match negated {
        true => "has_file_not",
        false => "has_file",
    }
}

/// What is asked of a path.
pub open spec fn existence(directory: bool) -> Seq<char> {
    match directory {
        true => "is a directory"@,
        false => "exists"@,
    }
}

fn existence_of(directory: bool) -> (r: &'static str)
    ensures
        r@ == existence(directory),
{
    match directory {
        true => "is a directory",
        false => "exists",
    }
}

/// What is called for, where something else stands.
pub open spec fn expectation(what: Expected) -> Seq<char> {
    match what {
        Expected::Equals => "Expected Equals"@,
        Expected::Default => "Expected Default"@,
        Expected::LBrace => "Expected LBrace"@,
        Expected::RBrace => "Expected RBrace"@,
        Expected::LBracket => "Expected LBracket"@,
        Expected::Identifier => "Expected identifier"@,
        Expected::Pattern => "Expected pattern (regex or $var)"@,
        Expected::DefaultAction => "Expected action (allow/deny/passthrough/force passthrough)"@,
        Expected::DefaultPassthrough => "Expected 'passthrough' after 'force'"@,
        Expected::RuleAction => "Expected action"@,
        Expected::RulePassthrough => "Expected 'passthrough' after 'force'"@,
        Expected::ConditionKeyword => "Expected condition keyword"@,
        Expected::QuotedString => "Expected quoted string"@,
        Expected::FilePath => "Expected file path string"@,
        Expected::AuditLevel => "Expected audit level"@,
        Expected::TrueOrFalse => "Expected 'true' or 'false' after local_rules"@,
        Expected::FlagLiteral => "Expected flag literal after 'flag'"@,
        Expected::Number => "Expected number after 'skip'"@,
        Expected::OptsItem => "Expected flag or ']' in opts"@,
    }
}

fn expectation_of(what: Expected) -> (r: &'static str)
    ensures
        r@ == expectation(what),
{
    match what {
        Expected::Equals => "Expected Equals",
        Expected::Default => "Expected Default",
        Expected::LBrace => "Expected LBrace",
        Expected::RBrace => "Expected RBrace",
        Expected::LBracket => "Expected LBracket",
        Expected::Identifier => "Expected identifier",
        Expected::Pattern => "Expected pattern (regex or $var)",
        Expected::DefaultAction => "Expected action (allow/deny/passthrough/force passthrough)",
        Expected::DefaultPassthrough => "Expected 'passthrough' after 'force'",
        Expected::RuleAction => "Expected action",
        Expected::RulePassthrough => "Expected 'passthrough' after 'force'",
        Expected::ConditionKeyword => "Expected condition keyword",
        Expected::QuotedString => "Expected quoted string",
        Expected::FilePath => "Expected file path string",
        Expected::AuditLevel => "Expected audit level",
        Expected::TrueOrFalse => "Expected 'true' or 'false' after local_rules",
        Expected::FlagLiteral => "Expected flag literal after 'flag'",
        Expected::Number => "Expected number after 'skip'",
        Expected::OptsItem => "Expected flag or ']' in opts",
    }
}

/// What is called for, where the text ends.
pub open spec fn shortfall(what: Expected) -> Seq<char> {
    match what {
        Expected::Equals => "Expected Equals, got end of input"@,
        Expected::Default => "Expected Default, got end of input"@,
        Expected::LBrace => "Expected LBrace, got end of input"@,
        Expected::RBrace => "Expected RBrace, got end of input"@,
        Expected::LBracket => "Expected LBracket, got end of input"@,
        Expected::Identifier => "Expected identifier, got end of input"@,
        Expected::Pattern => "Expected pattern, got end of input"@,
        Expected::DefaultAction => "Expected action, got end of input"@,
        Expected::DefaultPassthrough => "Expected 'passthrough' after 'force', got end of input"@,
        Expected::RuleAction => "Expected action"@,
        Expected::RulePassthrough => "Expected 'passthrough' after 'force'"@,
        Expected::ConditionKeyword => "Expected condition keyword"@,
        Expected::QuotedString => "Expected quoted string, got end of input"@,
        Expected::FilePath => "Expected file path string"@,
        Expected::AuditLevel => "Expected audit level"@,
        Expected::TrueOrFalse => "Expected 'true' or 'false'"@,
        Expected::FlagLiteral => "Expected flag literal"@,
        Expected::Number => "Expected number"@,
        Expected::OptsItem => "Unterminated opts list"@,
    }
}

fn shortfall_of(what: Expected) -> (r: &'static str)
    ensures
        r@ == shortfall(what),
{
    match what {
        Expected::Equals => "Expected Equals, got end of input",
        Expected::Default => "Expected Default, got end of input",
        Expected::LBrace => "Expected LBrace, got end of input",
        Expected::RBrace => "Expected RBrace, got end of input",
        Expected::LBracket => "Expected LBracket, got end of input",
        Expected::Identifier => "Expected identifier, got end of input",
        Expected::Pattern => "Expected pattern, got end of input",
        Expected::DefaultAction => "Expected action, got end of input",
        Expected::DefaultPassthrough => "Expected 'passthrough' after 'force', got end of input",
        Expected::RuleAction => "Expected action",
        Expected::RulePassthrough => "Expected 'passthrough' after 'force'",
        Expected::ConditionKeyword => "Expected condition keyword",
        Expected::QuotedString => "Expected quoted string, got end of input",
        Expected::FilePath => "Expected file path string",
        Expected::AuditLevel => "Expected audit level",
        Expected::TrueOrFalse => "Expected 'true' or 'false'",
        Expected::FlagLiteral => "Expected flag literal",
        Expected::Number => "Expected number",
        Expected::OptsItem => "Unterminated opts list",
    }
}

/// What is said of something that stands where something else is called for.
pub open spec fn unexpected_message(
    what: Expected,
    got: Option<TokenView>,
    line: nat,
    col: nat,
) -> Seq<char> {
    match got {
        Some(token) => expectation(what) + ", got "@ + token_debug(token) + place(line, col),
        None => if what == Expected::DefaultPassthrough || what == Expected::OptsItem {
            shortfall(what)
        } else {
            shortfall(what) + place(line, col)
        },
    }
}

fn message_of_unexpected(
    what: Expected,
    got: &Option<Token>,
    line: usize,
    col: usize,
) -> (r: String)
    ensures
        r@ == unexpected_message(what, opt_token(*got), line as nat, col as nat),
{
    match got {
        Some(token) => {
            let mut text = expectation_of(what).to_owned();
            text.push_str(", got ");
            text.push_str(&debug_of_token(token));
            text.push_str(&place_of(line, col));
            text
        },
        None => {
            let mut text = shortfall_of(what).to_owned();
            if what != Expected::DefaultPassthrough && what != Expected::OptsItem {
                text.push_str(&place_of(line, col));
            }
            text
        },
    }
}

/// What an error says.
pub open spec fn message_of(e: ErrorView) -> Seq<char> {
    match e {
        ErrorView::UnterminatedRegex { line, col } => "Unterminated regex"@ + place(line, col),
        ErrorView::UnterminatedRawString { line, col } => {
            "Unterminated raw string"@ + place(line, col)
        },
        ErrorView::UnterminatedString { line, col } => "Unterminated string"@ + place(line, col),
        ErrorView::EmptyVariable { line, col } => "Empty variable reference"@ + place(line, col),
        ErrorView::InvalidNumber { text, line, col } => {
            "Invalid number '"@ + text + "'"@ + place(line, col)
        },
        ErrorView::UnexpectedChar { c, line, col } => {
            "Unexpected character '"@.push(c) + "'"@ + place(line, col)
        },
        ErrorView::Unexpected { what, got, line, col } => unexpected_message(what, got, line, col),
        ErrorView::UnknownVariable { name, line, col } => {
            "Unknown variable '$"@ + name + "'"@ + place(line, col)
        },
        ErrorView::UnexpectedTopLevel { token, line, col } => {
            "Unexpected token "@ + token_debug(token) + " at top level, line "@ + decimal(line)
                + ", col "@ + decimal(col)
        },
        ErrorView::UnexpectedInAudit { token, line, col } => {
            "Unexpected token "@ + token_debug(token) + " in audit"@ + place(line, col)
        },
        ErrorView::UnknownAuditLevel { text, line, col } => {
            "Unknown audit level '"@ + text + "'"@ + place(line, col)
        },
        ErrorView::MissingArrow { line, col } => "Expected \u{2192} in rule"@ + place(line, col),
        ErrorView::NegationUnsupported { field } => {
            "Negation not supported for condition '"@ + field + "'"@
        },
        ErrorView::UnknownCondition { field } => {
            "Unknown condition field '"@ + field + "'"@
        },
        ErrorView::LocalDirective { source, token, line, col } => {
            "Local rules file "@ + source + " cannot contain '"@ + directive_name(token)
                + "' directives (line "@ + decimal(line) + ", col "@ + decimal(col) + ")"@
        },
        ErrorView::LocalAction { source, action } => {
            "Local rules file "@ + source + " cannot use '"@ + action_phrase(action) + "' action"@
        },
        ErrorView::LocalHasFile { source, negated, path } => {
            "Local rules file "@ + source + ": "@ + path_field(negated)
                + " must be a relative path without '..', got '"@ + path + "'"@
        },
        ErrorView::EntryNotFound { entry } => "Entry table '"@ + entry + "' not found in config"@,
        ErrorView::ForwardWithoutTarget { rule, table } => {
            "Rule "@ + decimal(rule) + " in table '"@ + table
                + "' has action 'forward' but no target"@
        },
        ErrorView::ForwardToUnknown { rule, table, target } => {
            "Rule "@ + decimal(rule) + " in table '"@ + table + "' forwards to unknown table '"@
                + target + "'"@
        },
        ErrorView::FlagAndPositional { rule, table } => {
            "Rule "@ + decimal(rule) + " in table '"@ + table
                + "' cannot have both 'flag_arg' and 'positional'"@
        },
        ErrorView::EvaluateToUnknown { rule, table, target } => {
            "Rule "@ + decimal(rule) + " in table '"@ + table + "' evaluates to unknown table '"@
                + target + "'"@
        },
        ErrorView::HasFilePath { rule, table, negated, path } => {
            "Rule "@ + decimal(rule) + " in table '"@ + table + "': "@ + path_field(negated)
                + " must be a relative path without '..', got '"@ + path + "'"@
        },
        ErrorView::UnknownConstant { name, pattern } => {
            "Unknown constant '$"@ + name + "' in pattern "@ + debug_text(pattern)
        },
        ErrorView::InvalidRegex { pattern, detail } => {
            "Invalid regex '"@ + pattern + "': "@ + detail
        },
        ErrorView::Cycle { table } => "Cycle detected: table '"@ + table + "' already visited"@,
        ErrorView::TableNotFound { table } => "Table '"@ + table + "' not found"@,
        ErrorView::DefaultNotAllowed { table, action } => {
            "Table '"@ + table + "' has '"@ + action_name(action)
                + "' as default \u{2014} not allowed"@
        },
        ErrorView::Unprobed { path, directory } => {
            "Not known whether '"@ + path + "' "@ + existence(directory)
        },
    }
}

impl Error {
    /// What the error says.
    pub fn message(&self) -> (r: String)
        ensures
            r@ == message_of(self@),
    {
        match self {
            Error::UnterminatedRegex { line, col } => {
                let mut out = "Unterminated regex".to_owned();
                out.push_str(&place_of(*line, *col));
                out
            },
            Error::UnterminatedRawString { line, col } => {
                let mut out = "Unterminated raw string".to_owned();
                out.push_str(&place_of(*line, *col));
                out
            },
            Error::UnterminatedString { line, col } => {
                let mut out = "Unterminated string".to_owned();
                out.push_str(&place_of(*line, *col));
                out
            },
            Error::EmptyVariable { line, col } => {
                let mut out = "Empty variable reference".to_owned();
                out.push_str(&place_of(*line, *col));
                out
            },
            Error::InvalidNumber { text, line, col } => {
                let mut out = "Invalid number '".to_owned();
                out.push_str(text);
                out.push_str("'");
                out.push_str(&place_of(*line, *col));
                out
            },
            Error::UnexpectedChar { c, line, col } => {
                let mut out = "Unexpected character '".to_owned();
                out.push(*c);
                out.push_str("'");
                out.push_str(&place_of(*line, *col));
                out
            },
            Error::Unexpected { what, got, line, col } => {
                message_of_unexpected(*what, got, *line, *col)
            },
            Error::UnknownVariable { name, line, col } => {
                let mut out = "Unknown variable '$".to_owned();
                out.push_str(name);
                out.push_str("'");
                out.push_str(&place_of(*line, *col));
                out
            },
            Error::UnexpectedTopLevel { token, line, col } => {
                let mut out = "Unexpected token ".to_owned();
                out.push_str(&debug_of_token(token));
                out.push_str(" at top level, line ");
                out.push_str(&decimal_of(*line));
                out.push_str(", col ");
                out.push_str(&decimal_of(*col));
                out
            },
            Error::UnexpectedInAudit { token, line, col } => {
                let mut out = "Unexpected token ".to_owned();
                out.push_str(&debug_of_token(token));
                out.push_str(" in audit");
                out.push_str(&place_of(*line, *col));
                out
            },
            Error::UnknownAuditLevel { text, line, col } => {
                let mut out = "Unknown audit level '".to_owned();
                out.push_str(text);
                out.push_str("'");
                out.push_str(&place_of(*line, *col));
                out
            },
            Error::MissingArrow { line, col } => {
                let mut out = "Expected \u{2192} in rule".to_owned();
                out.push_str(&place_of(*line, *col));
                out
            },
            Error::NegationUnsupported { field } => {
                let mut out = "Negation not supported for condition '".to_owned();
                out.push_str(field);
                out.push_str("'");
                out
            },
            Error::UnknownCondition { field } => {
                let mut out = "Unknown condition field '".to_owned();
                out.push_str(field);
                out.push_str("'");
                out
            },
            Error::LocalDirective { source, token, line, col } => {
                let mut out = "Local rules file ".to_owned();
                out.push_str(source);
                out.push_str(" cannot contain '");
                out.push_str(directive_name_of(token));
                out.push_str("' directives (line ");
                out.push_str(&decimal_of(*line));
                out.push_str(", col ");
                out.push_str(&decimal_of(*col));
                out.push_str(")");
                out
            },
            Error::LocalAction { source, action } => {
                let mut out = "Local rules file ".to_owned();
                out.push_str(source);
                out.push_str(" cannot use '");
                out.push_str(action_phrase_of(*action));
                out.push_str("' action");
                out
            },
            Error::LocalHasFile { source, negated, path } => {
                let mut out = "Local rules file ".to_owned();
                out.push_str(source);
                out.push_str(": ");
                out.push_str(path_field_of(*negated));
                out.push_str(" must be a relative path without '..', got '");
                out.push_str(path);
                out.push_str("'");
                out
            },
            Error::EntryNotFound { entry } => {
                let mut out = "Entry table '".to_owned();
                out.push_str(entry);
                out.push_str("' not found in config");
                out
            },
            Error::ForwardWithoutTarget { rule, table } => {
                let mut out = "Rule ".to_owned();
                out.push_str(&decimal_of(*rule));
                out.push_str(" in table '");
                out.push_str(table);
                out.push_str("' has action 'forward' but no target");
                out
            },
            Error::ForwardToUnknown { rule, table, target } => {
                let mut out = "Rule ".to_owned();
                out.push_str(&decimal_of(*rule));
                out.push_str(" in table '");
                out.push_str(table);
                out.push_str("' forwards to unknown table '");
                out.push_str(target);
                out.push_str("'");
                out
            },
            Error::FlagAndPositional { rule, table } => {
                let mut out = "Rule ".to_owned();
                out.push_str(&decimal_of(*rule));
                out.push_str(" in table '");
                out.push_str(table);
                out.push_str("' cannot have both 'flag_arg' and 'positional'");
                out
            },
            Error::EvaluateToUnknown { rule, table, target } => {
                let mut out = "Rule ".to_owned();
                out.push_str(&decimal_of(*rule));
                out.push_str(" in table '");
                out.push_str(table);
                out.push_str("' evaluates to unknown table '");
                out.push_str(target);
                out.push_str("'");
                out
            },
            Error::HasFilePath { rule, table, negated, path } => {
                let mut out = "Rule ".to_owned();
                out.push_str(&decimal_of(*rule));
                out.push_str(" in table '");
                out.push_str(table);
                out.push_str("': ");
                out.push_str(path_field_of(*negated));
                out.push_str(" must be a relative path without '..', got '");
                out.push_str(path);
                out.push_str("'");
                out
            },
            Error::UnknownConstant { name, pattern } => {
                let mut out = "Unknown constant '$".to_owned();
                out.push_str(name);
                out.push_str("' in pattern ");
                out.push_str(&debug_of(pattern));
                out
            },
            Error::InvalidRegex { pattern, detail } => {
                let mut out = "Invalid regex '".to_owned();
                out.push_str(pattern);
                out.push_str("': ");
                out.push_str(detail);
                out
            },
            Error::Cycle { table } => {
                let mut out = "Cycle detected: table '".to_owned();
                out.push_str(table);
                out.push_str("' already visited");
                out
            },
            Error::TableNotFound { table } => {
                let mut out = "Table '".to_owned();
                out.push_str(table);
                out.push_str("' not found");
                out
            },
            Error::DefaultNotAllowed { table, action } => {
                let mut out = "Table '".to_owned();
                out.push_str(table);
                out.push_str("' has '");
                out.push_str(action.name());
                out.push_str("' as default \u{2014} not allowed");
                out
            },
            Error::Unprobed { path, directory } => {
                let mut out = "Not known whether '".to_owned();
                out.push_str(path);
                out.push_str("' ");
                out.push_str(existence_of(*directory));
                out
            },
        }
    }
}

} // verus!

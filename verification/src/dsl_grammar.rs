//! What a sequence of tokens means as a configuration: the model that
//! [`crate::dsl`] is verified against.
//!
//! A construct is read from a position of the token sequence. Reading yields a value
//! or an error, and the position where it stopped.
use vstd::prelude::*;
use crate::config::{
    blank_config, checked, is_outside, Action, AuditLevel, AuditView, ConfigView, RuleView,
    TableView,
};
use crate::error::{ErrorView, Expected};
use crate::lexer::{tokens_of, SpannedView, TokenView};
use crate::patterns::escaped;
use crate::strmap::inserted;

verus! {

/// The outcome of reading a construct.
pub struct Parsed<T> {
    pub value: Result<T, ErrorView>,
    pub end: int,
}

/// The token at a position.
pub open spec fn tok(ts: Seq<SpannedView>, i: int) -> Option<TokenView> {
    if 0 <= i < ts.len() {
        Some(ts[i].token)
    } else {
        None
    }
}

/// The line of the token at a position; 0 behind the end.
pub open spec fn line_at(ts: Seq<SpannedView>, i: int) -> nat {
    if 0 <= i < ts.len() {
        ts[i].line
    } else {
        0
    }
}

/// The column of the token at a position; 0 behind the end.
pub open spec fn col_at(ts: Seq<SpannedView>, i: int) -> nat {
    if 0 <= i < ts.len() {
        ts[i].col
    } else {
        0
    }
}

/// The position behind a token, or the same position at the end.
pub open spec fn behind(ts: Seq<SpannedView>, i: int) -> int {
    if 0 <= i < ts.len() {
        i + 1
    } else {
        i
    }
}

/// The error that something else stands at a position.
pub open spec fn unexpected(ts: Seq<SpannedView>, i: int, what: Expected) -> ErrorView {
    ErrorView::Unexpected { what, got: tok(ts, i), line: line_at(ts, i), col: col_at(ts, i) }
}

/// The failure to read something: the token in the way is consumed.
pub open spec fn refused<T>(ts: Seq<SpannedView>, i: int, what: Expected) -> Parsed<T> {
    Parsed { value: Err(unexpected(ts, i, what)), end: behind(ts, i) }
}

/// One given token.
pub open spec fn expect_at(
    ts: Seq<SpannedView>,
    i: int,
    token: TokenView,
    what: Expected,
) -> Parsed<()> {
    if tok(ts, i) == Some(token) {
        Parsed { value: Ok(()), end: i + 1 }
    } else {
        refused(ts, i, what)
    }
}

/// An identifier.
pub open spec fn ident_at(ts: Seq<SpannedView>, i: int) -> Parsed<Seq<char>> {
    match tok(ts, i) {
        Some(TokenView::Ident(s)) => Parsed { value: Ok(s), end: i + 1 },
        _ => refused(ts, i, Expected::Identifier),
    }
}

/// A quoted string.
pub open spec fn string_at(ts: Seq<SpannedView>, i: int, what: Expected) -> Parsed<Seq<char>> {
    match tok(ts, i) {
        Some(TokenView::Str(s)) => Parsed { value: Ok(s), end: i + 1 },
        _ => refused(ts, i, what),
    }
}

/// A pattern: a literal, or the value of a variable.
pub open spec fn pattern_at(
    ts: Seq<SpannedView>,
    i: int,
    vars: Map<Seq<char>, Seq<char>>,
) -> Parsed<Seq<char>> {
    match tok(ts, i) {
        Some(TokenView::Regex(s)) => Parsed { value: Ok(s), end: i + 1 },
        Some(TokenView::VarRef(name)) => Parsed {
            value: if vars.dom().contains(name) {
                Ok(vars[name])
            } else {
                Err(
                    ErrorView::UnknownVariable { name, line: line_at(ts, i), col: col_at(ts, i) },
                )
            },
            end: i + 1,
        },
        _ => refused(ts, i, Expected::Pattern),
    }
}

/// The default action of a table.
pub open spec fn default_action_at(ts: Seq<SpannedView>, i: int) -> Parsed<Action> {
    match tok(ts, i) {
        Some(TokenView::Allow) => Parsed { value: Ok(Action::Allow), end: i + 1 },
        Some(TokenView::Deny) => Parsed { value: Ok(Action::Deny), end: i + 1 },
        Some(TokenView::Passthrough) => Parsed { value: Ok(Action::Passthrough), end: i + 1 },
        Some(TokenView::Force) => if tok(ts, i + 1) == Some(TokenView::Passthrough) {
            Parsed { value: Ok(Action::ForcePassthrough), end: i + 2 }
        } else {
            Parsed {
                value: Err(
                    ErrorView::Unexpected {
                        what: Expected::DefaultPassthrough,
                        got: tok(ts, i + 1),
                        line: line_at(ts, i),
                        col: col_at(ts, i),
                    },
                ),
                end: behind(ts, i + 1),
            }
        },
        _ => refused(ts, i, Expected::DefaultAction),
    }
}

/// The first position at or after `i` that holds no line break.
pub open spec fn skip_newlines(ts: Seq<SpannedView>, i: int) -> int
    decreases ts.len() - i,
{
    if tok(ts, i) == Some(TokenView::Newline) {
        skip_newlines(ts, i + 1)
    } else {
        i
    }
}

/// The words that begin a condition.
pub open spec fn is_condition(w: Seq<char>) -> bool {
    w == "tool"@ || w == "command"@ || w == "file_path"@ || w == "subagent_type"@ || w
        == "prompt"@ || w == "cwd"@ || w == "arg"@ || w == "stdin"@ || w == "stdout"@ || w
        == "env"@ || w == "has_file"@
}

/// A rule without conditions, before its action is known.
pub open spec fn blank_rule() -> RuleView {
    RuleView {
        tool: None,
        command: None,
        file_path: None,
        subagent_type: None,
        prompt: None,
        cwd: None,
        arg: None,
        arg_not: None,
        stdin: None,
        stdin_not: None,
        stdout: None,
        stdout_not: None,
        cwd_not: None,
        env: None,
        env_not: None,
        has_file: None,
        has_file_not: None,
        action: Action::Deny,
        reason: None,
        target: None,
        flag_arg: None,
        positional: None,
        opts_with_args: Seq::empty(),
    }
}

/// `rule` with one condition set; negated, it is the exception of that name. Some
/// conditions have none.
pub open spec fn with_condition(
    rule: RuleView,
    field: Seq<char>,
    p: Seq<char>,
    negated: bool,
) -> Result<RuleView, ErrorView> {
    if field == "cwd"@ {
        Ok(
            if negated {
                RuleView { cwd_not: Some(p), ..rule }
            } else {
                RuleView { cwd: Some(p), ..rule }
            },
        )
    } else if field == "arg"@ {
        Ok(
            if negated {
                RuleView { arg_not: Some(p), ..rule }
            } else {
                RuleView { arg: Some(p), ..rule }
            },
        )
    } else if field == "stdin"@ {
        Ok(
            if negated {
                RuleView { stdin_not: Some(p), ..rule }
            } else {
                RuleView { stdin: Some(p), ..rule }
            },
        )
    } else if field == "stdout"@ {
        Ok(
            if negated {
                RuleView { stdout_not: Some(p), ..rule }
            } else {
                RuleView { stdout: Some(p), ..rule }
            },
        )
    } else if field == "env"@ {
        Ok(
            if negated {
                RuleView { env_not: Some(p), ..rule }
            } else {
                RuleView { env: Some(p), ..rule }
            },
        )
    } else if field == "has_file"@ {
        Ok(
            if negated {
                RuleView { has_file_not: Some(p), ..rule }
            } else {
                RuleView { has_file: Some(p), ..rule }
            },
        )
    } else if negated {
        Err(ErrorView::NegationUnsupported { field })
    } else if field == "tool"@ {
        Ok(RuleView { tool: Some(p), ..rule })
    } else if field == "command"@ {
        Ok(RuleView { command: Some(p), ..rule })
    } else if field == "file_path"@ {
        Ok(RuleView { file_path: Some(p), ..rule })
    } else if field == "subagent_type"@ {
        Ok(RuleView { subagent_type: Some(p), ..rule })
    } else if field == "prompt"@ {
        Ok(RuleView { prompt: Some(p), ..rule })
    } else {
        Err(ErrorView::UnknownCondition { field })
    }
}

/// One condition, added to `rule`.
pub open spec fn condition_at(
    ts: Seq<SpannedView>,
    i: int,
    vars: Map<Seq<char>, Seq<char>>,
    rule: RuleView,
    negated: bool,
) -> Parsed<RuleView> {
    match tok(ts, i) {
        Some(TokenView::Ident(field)) => if is_condition(field) {
            let text = if field == "has_file"@ {
                string_at(ts, i + 1, Expected::QuotedString)
            } else {
                pattern_at(ts, i + 1, vars)
            };
            match text.value {
                Ok(p) => Parsed {
                    value: with_condition(rule, field, p, negated),
                    end: text.end,
                },
                Err(e) => Parsed { value: Err(e), end: text.end },
            }
        } else {
            refused(ts, i, Expected::ConditionKeyword)
        },
        _ => refused(ts, i, Expected::ConditionKeyword),
    }
}

/// The conditions of a rule up to its arrow, added to `rule`.
pub open spec fn conditions_at(
    ts: Seq<SpannedView>,
    i: int,
    vars: Map<Seq<char>, Seq<char>>,
    rule: RuleView,
) -> Parsed<RuleView>
    decreases ts.len() - i,
{
    match tok(ts, i) {
        Some(TokenView::Arrow) => Parsed { value: Ok(rule), end: i },
        None | Some(TokenView::Newline) => Parsed {
            value: Err(ErrorView::MissingArrow { line: line_at(ts, i), col: col_at(ts, i) }),
            end: i,
        },
        Some(token) => {
            let negated = token == TokenView::Bang;
            let one = condition_at(ts, if negated { i + 1 } else { i }, vars, rule, negated);
            match one.value {
                Ok(more) => if i < one.end <= ts.len() {
                    conditions_at(ts, one.end, vars, more)
                } else {
                    one
                },
                Err(_) => one,
            }
        },
    }
}

/// The flags of an `opts` list, up to its closing bracket, added to `acc`.
pub open spec fn opts_at(
    ts: Seq<SpannedView>,
    i: int,
    acc: Seq<Seq<char>>,
) -> Parsed<Seq<Seq<char>>>
    decreases ts.len() - i,
{
    match tok(ts, i) {
        Some(TokenView::RBracket) => Parsed { value: Ok(acc), end: i + 1 },
        Some(TokenView::Comma) => opts_at(ts, i + 1, acc),
        Some(TokenView::FlagLit(f)) => opts_at(ts, i + 1, acc.push(f)),
        _ => Parsed { value: Err(unexpected(ts, i, Expected::OptsItem)), end: i },
    }
}

/// Whether `target` and a table name stand at `i`.
pub open spec fn names_target(ts: Seq<SpannedView>, i: int) -> bool {
    tok(ts, i) == Some(TokenView::Ident("target"@)) && tok(ts, i + 1) matches Some(
        TokenView::Ident(_),
    )
}

/// The parameters of an `evaluate` action, added to `rule`.
pub open spec fn params_at(ts: Seq<SpannedView>, i: int, rule: RuleView) -> Parsed<RuleView>
    decreases ts.len() - i,
{
    match tok(ts, i) {
        Some(TokenView::Flag) => match tok(ts, i + 1) {
            Some(TokenView::FlagLit(f)) => params_at(
                ts,
                i + 2,
                RuleView { flag_arg: Some(f), ..rule },
            ),
            _ => refused(ts, i + 1, Expected::FlagLiteral),
        },
        Some(TokenView::Skip) => match tok(ts, i + 1) {
            Some(TokenView::Number(n)) => params_at(
                ts,
                i + 2,
                RuleView { positional: Some(n as usize), ..rule },
            ),
            _ => refused(ts, i + 1, Expected::Number),
        },
        Some(TokenView::Opts) => if tok(ts, i + 1) == Some(TokenView::LBracket) {
            let list = opts_at(ts, i + 2, Seq::empty());
            match list.value {
                Ok(opts) => if i < list.end <= ts.len() {
                    params_at(ts, list.end, RuleView { opts_with_args: opts, ..rule })
                } else {
                    Parsed { value: Ok(rule), end: list.end }
                },
                Err(e) => Parsed { value: Err(e), end: list.end },
            }
        } else {
            refused(ts, i + 1, Expected::LBracket)
        },
        Some(TokenView::Ident(_)) => if names_target(ts, i) {
            params_at(
                ts,
                i + 2,
                RuleView { target: Some(tok(ts, i + 1)->0->Ident_0), ..rule },
            )
        } else {
            Parsed { value: Ok(rule), end: i }
        },
        _ => Parsed { value: Ok(rule), end: i },
    }
}

/// The action of a rule, behind its arrow.
pub open spec fn action_at(ts: Seq<SpannedView>, i: int, rule: RuleView) -> Parsed<RuleView> {
    match tok(ts, i) {
        Some(TokenView::Allow) => Parsed {
            value: Ok(RuleView { action: Action::Allow, ..rule }),
            end: i + 1,
        },
        Some(TokenView::Deny) => Parsed {
            value: Ok(RuleView { action: Action::Deny, ..rule }),
            end: i + 1,
        },
        Some(TokenView::Passthrough) => Parsed {
            value: Ok(RuleView { action: Action::Passthrough, ..rule }),
            end: i + 1,
        },
        Some(TokenView::Forward) => {
            let name = ident_at(ts, i + 1);
            Parsed {
                value: match name.value {
                    Ok(target) => Ok(
                        RuleView { action: Action::Forward, target: Some(target), ..rule },
                    ),
                    Err(e) => Err(e),
                },
                end: name.end,
            }
        },
        Some(TokenView::Force) => if tok(ts, i + 1) == Some(TokenView::Passthrough) {
            Parsed { value: Ok(RuleView { action: Action::ForcePassthrough, ..rule }), end: i + 2 }
        } else {
            Parsed {
                value: Err(unexpected(ts, i + 1, Expected::RulePassthrough)),
                end: i + 1,
            }
        },
        Some(TokenView::Evaluate) => {
            let started = RuleView { action: Action::Evaluate, ..rule };
            match tok(ts, i + 1) {
                Some(TokenView::Ident(name)) => if names_target(ts, i + 1) {
                    params_at(ts, i + 1, started)
                } else {
                    params_at(ts, i + 2, RuleView { target: Some(name), ..started })
                },
                _ => params_at(ts, i + 1, started),
            }
        },
        _ => Parsed { value: Err(unexpected(ts, i, Expected::RuleAction)), end: i },
    }
}

/// What a rule begins with: a tool name, if there is one. It stands for the pattern
/// that it alone matches.
pub open spec fn tool_at(ts: Seq<SpannedView>, i: int) -> (RuleView, int) {
    match tok(ts, i) {
        Some(TokenView::Ident(word)) => if is_condition(word) {
            (blank_rule(), i)
        } else {
            let tool = "^"@ + escaped(word) + "$"@;
            (RuleView { tool: Some(tool), ..blank_rule() }, i + 1)
        },
        _ => (blank_rule(), i),
    }
}

/// A rule: a tool name, conditions, an arrow, an action and a reason. The tool name
/// and the reason may be left out.
pub open spec fn rule_at(ts: Seq<SpannedView>, i: int, vars: Map<Seq<char>, Seq<char>>) -> Parsed<
    RuleView,
> {
    let begun = tool_at(ts, i);
    let conditions = conditions_at(ts, begun.1, vars, begun.0);
    match conditions.value {
        Ok(started) => {
            let acted = action_at(ts, conditions.end + 1, started);
            match (acted.value, tok(ts, acted.end)) {
                (Ok(rule), Some(TokenView::Str(reason))) => Parsed {
                    value: Ok(RuleView { reason: Some(reason), ..rule }),
                    end: acted.end + 1,
                },
                _ => acted,
            }
        },
        Err(_) => conditions,
    }
}

/// The rules of a table up to its closing brace, added to `acc`.
pub open spec fn rules_at(
    ts: Seq<SpannedView>,
    i: int,
    vars: Map<Seq<char>, Seq<char>>,
    acc: Seq<RuleView>,
) -> Parsed<Seq<RuleView>>
    decreases ts.len() - i,
{
    if tok(ts, i) is None || tok(ts, i) == Some(TokenView::RBrace) {
        Parsed { value: Ok(acc), end: i }
    } else {
        let one = rule_at(ts, i, vars);
        match one.value {
            Ok(rule) => {
                let next = skip_newlines(ts, one.end);
                if i < next <= ts.len() {
                    rules_at(ts, next, vars, acc.push(rule))
                } else {
                    Parsed { value: Ok(acc), end: i }
                }
            },
            Err(e) => Parsed { value: Err(e), end: one.end },
        }
    }
}

/// A table, behind the keyword: its name and what it holds.
pub open spec fn table_at(ts: Seq<SpannedView>, i: int, vars: Map<Seq<char>, Seq<char>>) -> Parsed<
    (Seq<char>, TableView),
> {
    let name = ident_at(ts, i);
    let keyword = expect_at(ts, name.end, TokenView::Default, Expected::Default);
    let default = default_action_at(ts, keyword.end);
    let open = expect_at(ts, default.end, TokenView::LBrace, Expected::LBrace);
    let rules = rules_at(ts, skip_newlines(ts, open.end), vars, Seq::empty());
    let close = expect_at(ts, rules.end, TokenView::RBrace, Expected::RBrace);
    if let Err(e) = name.value {
        Parsed { value: Err(e), end: name.end }
    } else if let Err(e) = keyword.value {
        Parsed { value: Err(e), end: keyword.end }
    } else if let Err(e) = default.value {
        Parsed { value: Err(e), end: default.end }
    } else if let Err(e) = open.value {
        Parsed { value: Err(e), end: open.end }
    } else if let Err(e) = rules.value {
        Parsed { value: Err(e), end: rules.end }
    } else if let Err(e) = close.value {
        Parsed { value: Err(e), end: close.end }
    } else {
        Parsed {
            value: Ok(
                (
                    name.value->Ok_0,
                    TableView { default: default.value->Ok_0, rules: rules.value->Ok_0 },
                ),
            ),
            end: close.end,
        }
    }
}

/// A variable definition, behind the keyword: its name and its pattern.
pub open spec fn let_at(ts: Seq<SpannedView>, i: int, vars: Map<Seq<char>, Seq<char>>) -> Parsed<
    (Seq<char>, Seq<char>),
> {
    let name = ident_at(ts, i);
    let equals = expect_at(ts, name.end, TokenView::Equals, Expected::Equals);
    let pattern = pattern_at(ts, equals.end, vars);
    if let Err(e) = name.value {
        Parsed { value: Err(e), end: name.end }
    } else if let Err(e) = equals.value {
        Parsed { value: Err(e), end: equals.end }
    } else {
        Parsed {
            value: match pattern.value {
                Ok(p) => Ok((name.value->Ok_0, p)),
                Err(e) => Err(e),
            },
            end: pattern.end,
        }
    }
}

/// The audit level of a word.
pub open spec fn audit_level(w: Seq<char>) -> Option<AuditLevel> {
    if w == "off"@ {
        Some(AuditLevel::Off)
    } else if w == "matched"@ {
        Some(AuditLevel::Matched)
    } else if w == "all"@ {
        Some(AuditLevel::All)
    } else {
        None
    }
}

/// The rest of an `audit` line that began at `start`, applied to `audit`.
pub open spec fn audit_at(ts: Seq<SpannedView>, i: int, start: int, audit: AuditView) -> Parsed<
    AuditView,
>
    decreases ts.len() - i,
{
    match tok(ts, i) {
        None | Some(TokenView::Newline) => Parsed { value: Ok(audit), end: i },
        Some(token) => if token == TokenView::Ident("file"@) {
            match tok(ts, i + 1) {
                Some(TokenView::Str(path)) => audit_at(
                    ts,
                    i + 2,
                    start,
                    AuditView { audit_file: Some(path), ..audit },
                ),
                _ => refused(ts, i + 1, Expected::FilePath),
            }
        } else if token == TokenView::Ident("level"@) {
            match tok(ts, i + 1) {
                Some(TokenView::Ident(word)) => match audit_level(word) {
                    Some(level) => audit_at(
                        ts,
                        i + 2,
                        start,
                        AuditView { audit_level: level, ..audit },
                    ),
                    None => Parsed {
                        value: Err(
                            ErrorView::UnknownAuditLevel {
                                text: word,
                                line: line_at(ts, i + 1),
                                col: col_at(ts, i + 1),
                            },
                        ),
                        end: i + 2,
                    },
                },
                _ => refused(ts, i + 1, Expected::AuditLevel),
            }
        } else {
            Parsed {
                value: Err(
                    ErrorView::UnexpectedInAudit {
                        token,
                        line: line_at(ts, start),
                        col: col_at(ts, start),
                    },
                ),
                end: i,
            }
        },
    }
}

/// The value of a `local_rules` setting, behind its name.
pub open spec fn switch_at(ts: Seq<SpannedView>, i: int) -> Parsed<bool> {
    let at = if tok(ts, i) == Some(TokenView::Equals) { i + 1 } else { i };
    if tok(ts, at) == Some(TokenView::Ident("true"@)) {
        Parsed { value: Ok(true), end: at + 1 }
    } else if tok(ts, at) == Some(TokenView::Ident("false"@)) {
        Parsed { value: Ok(false), end: at + 1 }
    } else {
        Parsed { value: Err(unexpected(ts, at, Expected::TrueOrFalse)), end: at }
    }
}

/// What statements have built up: a configuration, and the variables.
pub struct Built {
    pub config: ConfigView,
    pub vars: Map<Seq<char>, Seq<char>>,
}

/// One statement at the top level, applied to what has been built up.
pub open spec fn statement_at(ts: Seq<SpannedView>, i: int, built: Built) -> Parsed<Built> {
    match tok(ts, i) {
        Some(TokenView::Let) => {
            let one = let_at(ts, i + 1, built.vars);
            Parsed {
                value: match one.value {
                    Ok((name, p)) => Ok(Built { vars: built.vars.insert(name, p), ..built }),
                    Err(e) => Err(e),
                },
                end: one.end,
            }
        },
        Some(TokenView::Table) => {
            let one = table_at(ts, i + 1, built.vars);
            Parsed {
                value: match one.value {
                    Ok((name, table)) => Ok(
                        Built {
                            config: ConfigView {
                                tables: inserted(built.config.tables, name, table),
                                ..built.config
                            },
                            ..built
                        },
                    ),
                    Err(e) => Err(e),
                },
                end: one.end,
            }
        },
        Some(TokenView::Entry) => {
            let one = ident_at(ts, i + 1);
            Parsed {
                value: match one.value {
                    Ok(name) => Ok(
                        Built {
                            config: ConfigView { entry_table: name, ..built.config },
                            ..built
                        },
                    ),
                    Err(e) => Err(e),
                },
                end: one.end,
            }
        },
        Some(TokenView::Audit) => {
            let one = audit_at(ts, i + 1, i + 1, built.config.audit);
            Parsed {
                value: match one.value {
                    Ok(audit) => Ok(
                        Built { config: ConfigView { audit, ..built.config }, ..built },
                    ),
                    Err(e) => Err(e),
                },
                end: one.end,
            }
        },
        Some(TokenView::Newline) => Parsed { value: Ok(built), end: i + 1 },
        Some(token) => if token == TokenView::Ident("local_rules"@) {
            let one = switch_at(ts, i + 1);
            Parsed {
                value: match one.value {
                    Ok(local_rules) => Ok(
                        Built { config: ConfigView { local_rules, ..built.config }, ..built },
                    ),
                    Err(e) => Err(e),
                },
                end: one.end,
            }
        } else {
            Parsed {
                value: Err(
                    ErrorView::UnexpectedTopLevel {
                        token,
                        line: line_at(ts, i),
                        col: col_at(ts, i),
                    },
                ),
                end: i,
            }
        },
        None => Parsed { value: Ok(built), end: i },
    }
}

/// What reading statements comes to: besides the outcome, the variables that were
/// defined on the way.
pub struct Program {
    pub value: Result<ConfigView, ErrorView>,
    pub end: int,
    pub vars: Map<Seq<char>, Seq<char>>,
}

/// The statements from a position to the end. The variables become the constants of
/// the configuration.
pub open spec fn program_at(ts: Seq<SpannedView>, i: int, built: Built) -> Program
    decreases ts.len() - i,
{
    if tok(ts, i) is None {
        Program {
            value: Ok(ConfigView { constants: built.vars, ..built.config }),
            end: i,
            vars: built.vars,
        }
    } else {
        let one = statement_at(ts, i, built);
        match one.value {
            Ok(more) => if i < one.end <= ts.len() {
                program_at(ts, one.end, more)
            } else {
                Program { value: Ok(more.config), end: one.end, vars: more.vars }
            },
            Err(e) => Program { value: Err(e), end: one.end, vars: built.vars },
        }
    }
}

/// What is wrong with a rule of a project, if anything: an action that only the
/// global rules may take, or a path that leads outside.
pub open spec fn local_fault(rule: RuleView, source: Seq<char>) -> Option<ErrorView> {
    if rule.action == Action::Forward || rule.action == Action::Evaluate || rule.action
        == Action::ForcePassthrough {
        Some(ErrorView::LocalAction { source, action: rule.action })
    } else if rule.has_file is Some && is_outside(rule.has_file->0) {
        Some(ErrorView::LocalHasFile { source, negated: false, path: rule.has_file->0 })
    } else if rule.has_file_not is Some && is_outside(rule.has_file_not->0) {
        Some(ErrorView::LocalHasFile { source, negated: true, path: rule.has_file_not->0 })
    } else {
        None
    }
}

/// The rules of a project from a position to the end, added to `acc`.
pub open spec fn local_rules_at(
    ts: Seq<SpannedView>,
    i: int,
    vars: Map<Seq<char>, Seq<char>>,
    acc: Seq<RuleView>,
    source: Seq<char>,
) -> Result<Seq<RuleView>, ErrorView>
    decreases ts.len() - i,
{
    match tok(ts, i) {
        None => Ok(acc),
        Some(TokenView::Let) => {
            let one = let_at(ts, i + 1, vars);
            match one.value {
                Ok((name, p)) => if i < one.end <= ts.len() {
                    local_rules_at(ts, one.end, vars.insert(name, p), acc, source)
                } else {
                    Ok(acc)
                },
                Err(e) => Err(e),
            }
        },
        Some(TokenView::Newline) => local_rules_at(ts, i + 1, vars, acc, source),
        Some(token) => if token == TokenView::Table || token == TokenView::Entry || token
            == TokenView::Audit {
            Err(
                ErrorView::LocalDirective {
                    source,
                    token,
                    line: line_at(ts, i),
                    col: col_at(ts, i),
                },
            )
        } else {
            let one = rule_at(ts, i, vars);
            match one.value {
                Ok(rule) => match local_fault(rule, source) {
                    Some(e) => Err(e),
                    None => if i < one.end <= ts.len() {
                        local_rules_at(ts, one.end, vars, acc.push(rule), source)
                    } else {
                        Ok(acc)
                    },
                },
                Err(e) => Err(e),
            }
        },
    }
}

/// The rules that a project's rules file holds.
pub open spec fn local_rules_of(input: Seq<char>, source: Seq<char>) -> Result<
    Seq<RuleView>,
    ErrorView,
> {
    match tokens_of(input) {
        Ok(ts) => local_rules_at(ts, 0, Map::empty(), Seq::empty(), source),
        Err(e) => Err(e),
    }
}

/// The configuration that a text in the rule language holds: read, checked, and with
/// the variables as its constants.
pub open spec fn config_of(input: Seq<char>) -> Result<ConfigView, ErrorView> {
    match tokens_of(input) {
        Ok(ts) => match program_at(
            ts,
            0,
            Built { config: blank_config(), vars: Map::empty() },
        ).value {
            Ok(config) => checked(config),
            Err(e) => Err(e),
        },
        Err(e) => Err(e),
    }
}

/// Whether a rule takes an action that a project may take.
pub open spec fn takes_local_action(rule: RuleView) -> bool {
    rule.action == Action::Allow || rule.action == Action::Deny || rule.action
        == Action::Passthrough
}

/// Whether all rules take actions that a project may take.
pub open spec fn all_local(rules: Seq<RuleView>) -> bool {
    forall|k: int| 0 <= k < rules.len() ==> takes_local_action(#[trigger] rules[k])
}

proof fn lemma_local_actions_from(
    ts: Seq<SpannedView>,
    i: int,
    vars: Map<Seq<char>, Seq<char>>,
    acc: Seq<RuleView>,
    source: Seq<char>,
)
    requires
        all_local(acc),
    ensures
        match local_rules_at(ts, i, vars, acc, source) {
            Ok(rules) => all_local(rules),
            Err(_) => true,
        },
    decreases ts.len() - i,
{
    match tok(ts, i) {
        None => {},
        Some(TokenView::Let) => {
            let one = let_at(ts, i + 1, vars);
            if one.value is Ok && i < one.end <= ts.len() {
                lemma_local_actions_from(
                    ts,
                    one.end,
                    vars.insert(one.value->Ok_0.0, one.value->Ok_0.1),
                    acc,
                    source,
                );
            }
        },
        Some(TokenView::Newline) => {
            lemma_local_actions_from(ts, i + 1, vars, acc, source);
        },
        Some(_) => {
            let one = rule_at(ts, i, vars);
            if one.value is Ok && local_fault(one.value->Ok_0, source) is None && i < one.end
                <= ts.len() {
                lemma_local_actions_from(ts, one.end, vars, acc.push(one.value->Ok_0), source);
            }
        },
    }
}

/// The rules that a project's rules file yields only allow, deny or pass through.
pub proof fn lemma_local_actions(input: Seq<char>, source: Seq<char>)
    ensures
        match local_rules_of(input, source) {
            Ok(rules) => all_local(rules),
            Err(_) => true,
        },
{
    if tokens_of(input) is Ok {
        lemma_local_actions_from(
            tokens_of(input)->Ok_0,
            0,
            Map::empty(),
            Seq::empty(),
            source,
        );
    }
}

} // verus!

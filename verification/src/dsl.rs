//! The parser of the rule language.
use vstd::prelude::*;
use crate::config::{
    blank_config, constant_map, leads_outside, rule_views, Action, AuditConfig, AuditLevel, Config,
    RuleConfig, RuleView, TableConfig,
};
use crate::dsl_grammar::{
    action_at, all_local, audit_at, audit_level, behind, blank_rule, col_at, condition_at,
    conditions_at, config_of, default_action_at, expect_at, ident_at, is_condition,
    lemma_local_actions, let_at, line_at, local_fault, local_rules_at, local_rules_of, names_target,
    opts_at, params_at, pattern_at, program_at, rule_at, rules_at, skip_newlines, statement_at,
    string_at, switch_at, table_at, tok, tool_at, unexpected, with_condition, Built,
};
use crate::error::{outcome, Error, ErrorView, Expected};
use crate::patterns::exact_pattern;
use crate::strmap::{lemma_dict_inserted, lemma_map_inserted, lemma_map_lookup, map_entries, StrMap};
use crate::text::{lemma_texts_push, str_eq, texts};
pub use crate::lexer::{lex, Span, SpannedToken, Token};
use crate::lexer::{token_views, SpannedView, TokenView};

verus! {

/// Reads a configuration out of tokens.
pub struct Parser {
    tokens: Vec<SpannedToken>,
    pos: usize,
    variables: StrMap<String>,
}

/// Whether a word begins a condition.
fn is_condition_keyword(word: &str) -> (r: bool)
    ensures
        r == is_condition(word@),
{
    str_eq(word, "tool") || str_eq(word, "command") || str_eq(word, "file_path") || str_eq(
        word,
        "subagent_type",
    ) || str_eq(word, "prompt") || str_eq(word, "cwd") || str_eq(word, "arg") || str_eq(
        word,
        "stdin",
    ) || str_eq(word, "stdout") || str_eq(word, "env") || str_eq(word, "has_file")
}

impl Parser {
    /// The tokens that are read.
    pub closed spec fn input(self) -> Seq<SpannedView> {
        token_views(self.tokens@)
    }

    /// The position that reading has come to.
    pub closed spec fn at(self) -> int {
        self.pos as int
    }

    /// The variables that have been defined.
    pub closed spec fn vars(self) -> Map<Seq<char>, Seq<char>> {
        constant_map(self.variables)
    }

    /// Nothing but the position has changed since `before`.
    spec fn follows(self, before: Parser) -> bool {
        self.tokens == before.tokens && self.variables == before.variables
    }

    pub fn new(tokens: Vec<SpannedToken>) -> (r: Parser)
        ensures
            r.input() == token_views(tokens@),
            r.at() == 0,
            r.vars() == Map::<Seq<char>, Seq<char>>::empty(),
    {
        let r = Parser { tokens, pos: 0, variables: StrMap::new() };
        assert(r.vars() =~= Map::<Seq<char>, Seq<char>>::empty());
        r
    }

    fn peek(&self) -> (r: Option<&Token>)
        ensures
            match r {
                Some(t) => tok(self.input(), self.at()) == Some(t@) && self.pos
                    < self.tokens@.len(),
                None => tok(self.input(), self.at()) is None && self.pos >= self.tokens@.len(),
            },
    {
        if self.pos < self.tokens.len() {
            Some(&self.tokens[self.pos].token)
        } else {
            None
        }
    }

    /// The token behind the next one.
    fn peek_second(&self) -> (r: Option<&Token>)
        ensures
            match r {
                Some(t) => tok(self.input(), self.at() + 1) == Some(t@) && self.pos + 1
                    < self.tokens@.len(),
                None => tok(self.input(), self.at() + 1) is None,
            },
    {
        if self.pos < self.tokens.len() && self.pos + 1 < self.tokens.len() {
            Some(&self.tokens[self.pos + 1].token)
        } else {
            None
        }
    }

    fn span(&self) -> (r: Span)
        ensures
            r.line == line_at(self.input(), self.at()),
            r.col == col_at(self.input(), self.at()),
    {
        if self.pos < self.tokens.len() {
            self.tokens[self.pos].span
        } else {
            Span { line: 0, col: 0 }
        }
    }

    fn advance(&mut self)
        ensures
            final(self).follows(*old(self)),
            final(self).at() == behind(old(self).input(), old(self).at()),
            final(self).pos <= old(self).tokens@.len() || final(self).pos == old(self).pos,
    {
        if self.pos < self.tokens.len() {
            self.pos = self.pos + 1;
        }
    }

    /// A copy of the next token.
    fn current(&self) -> (r: Option<Token>)
        ensures
            match r {
                Some(t) => tok(self.input(), self.at()) == Some(t@),
                None => tok(self.input(), self.at()) is None,
            },
    {
        match self.peek() {
            Some(t) => Some(t.clone()),
            None => None,
        }
    }

    /// The error that the next token is not what is called for.
    fn unexpected(&self, what: Expected) -> (r: Error)
        ensures
            r@ == unexpected(self.input(), self.at(), what),
    {
        let span = self.span();
        Error::Unexpected { what, got: self.current(), line: span.line, col: span.col }
    }

    /// Consumes the next token, which is not what is called for.
    fn refuse(&mut self, what: Expected) -> (r: Error)
        ensures
            final(self).follows(*old(self)),
            r@ == unexpected(old(self).input(), old(self).at(), what),
            final(self).at() == behind(old(self).input(), old(self).at()),
    {
        let e = self.unexpected(what);
        self.advance();
        e
    }

    fn expect_ident(&mut self) -> (r: Result<String, Error>)
        ensures
            final(self).follows(*old(self)),
            outcome(r) == ident_at(old(self).input(), old(self).at()).value,
            final(self).at() == ident_at(old(self).input(), old(self).at()).end,
            r is Ok ==> old(self).pos < final(self).pos <= old(self).tokens@.len(),
    {
        match self.current() {
            Some(Token::Ident(s)) => {
                self.advance();
                Ok(s)
            },
            _ => Err(self.refuse(Expected::Identifier)),
        }
    }

    fn expect_string(&mut self, what: Expected) -> (r: Result<String, Error>)
        ensures
            final(self).follows(*old(self)),
            outcome(r) == string_at(old(self).input(), old(self).at(), what).value,
            final(self).at() == string_at(old(self).input(), old(self).at(), what).end,
            r is Ok ==> old(self).pos < final(self).pos <= old(self).tokens@.len(),
    {
        match self.current() {
            Some(Token::Str(s)) => {
                self.advance();
                Ok(s)
            },
            _ => Err(self.refuse(what)),
        }
    }

    /// Consumes the next token if `found` says that it is the expected one.
    fn expect(&mut self, found: bool, token: Ghost<TokenView>, what: Expected) -> (r: Result<
        (),
        Error,
    >)
        requires
            found == (tok(old(self).input(), old(self).at()) == Some(token@)),
        ensures
            final(self).follows(*old(self)),
            outcome(r) == expect_at(old(self).input(), old(self).at(), token@, what).value,
            final(self).at() == expect_at(old(self).input(), old(self).at(), token@, what).end,
            r is Ok ==> old(self).pos < final(self).pos <= old(self).tokens@.len(),
    {
        if found {
            self.advance();
            Ok(())
        } else {
            Err(self.refuse(what))
        }
    }

    fn skip_newlines(&mut self)
        ensures
            final(self).follows(*old(self)),
            final(self).at() == skip_newlines(old(self).input(), old(self).at()),
            old(self).pos <= final(self).pos,
            old(self).pos <= old(self).tokens@.len() ==> final(self).pos <= old(self).tokens@.len(),
    {
        while matches!(self.peek(), Some(Token::Newline))
            invariant
                self.follows(*old(self)),
                skip_newlines(self.input(), self.at()) == skip_newlines(
                    old(self).input(),
                    old(self).at(),
                ),
                old(self).pos <= self.pos,
                old(self).pos <= old(self).tokens@.len() ==> self.pos <= old(self).tokens@.len(),
            decreases self.tokens@.len() - self.pos,
        {
            self.advance();
        }
    }

    /// Reads a pattern: a literal, or the value of a variable.
    fn parse_pattern(&mut self) -> (r: Result<String, Error>)
        ensures
            final(self).follows(*old(self)),
            outcome(r) == pattern_at(old(self).input(), old(self).at(), old(self).vars()).value,
            final(self).at() == pattern_at(old(self).input(), old(self).at(), old(self).vars()).end,
            r is Ok ==> old(self).pos < final(self).pos <= old(self).tokens@.len(),
    {
        match self.current() {
            Some(Token::Regex(s)) => {
                self.advance();
                Ok(s)
            },
            Some(Token::VarRef(name)) => {
                let span = self.span();
                self.advance();
                proof {
                    lemma_map_lookup(self.variables@, |s: String| s@, name@);
                }
                match self.variables.get(&name) {
                    Some(value) => Ok(value.clone()),
                    None => Err(Error::UnknownVariable { name, line: span.line, col: span.col }),
                }
            },
            _ => Err(self.refuse(Expected::Pattern)),
        }
    }

    /// Reads the default action of a table.
    fn parse_default_action(&mut self) -> (r: Result<Action, Error>)
        ensures
            final(self).follows(*old(self)),
            match r {
                Ok(a) => default_action_at(old(self).input(), old(self).at()).value == Ok::<
                    Action,
                    ErrorView,
                >(a),
                Err(e) => default_action_at(old(self).input(), old(self).at()).value == Err::<
                    Action,
                    ErrorView,
                >(e@),
            },
            final(self).at() == default_action_at(old(self).input(), old(self).at()).end,
            r is Ok ==> old(self).pos < final(self).pos <= old(self).tokens@.len(),
    {
        match self.peek() {
            Some(Token::Allow) => {
                self.advance();
                Ok(Action::Allow)
            },
            Some(Token::Deny) => {
                self.advance();
                Ok(Action::Deny)
            },
            Some(Token::Passthrough) => {
                self.advance();
                Ok(Action::Passthrough)
            },
            Some(Token::Force) => {
                let span = self.span();
                self.advance();
                if matches!(self.peek(), Some(Token::Passthrough)) {
                    self.advance();
                    Ok(Action::ForcePassthrough)
                } else {
                    let got = self.current();
                    self.advance();
                    Err(
                        Error::Unexpected {
                            what: Expected::DefaultPassthrough,
                            got,
                            line: span.line,
                            col: span.col,
                        },
                    )
                }
            },
            _ => Err(self.refuse(Expected::DefaultAction)),
        }
    }

    /// Reads the conditions of a rule, up to its arrow.
    fn parse_conditions(&mut self, rule: RuleConfig) -> (r: Result<RuleConfig, Error>)
        ensures
            final(self).follows(*old(self)),
            outcome(r) == conditions_at(
                old(self).input(),
                old(self).at(),
                old(self).vars(),
                rule@,
            ).value,
            final(self).at() == conditions_at(
                old(self).input(),
                old(self).at(),
                old(self).vars(),
                rule@,
            ).end,
            r is Ok ==> old(self).pos <= final(self).pos < old(self).tokens@.len() && tok(
                old(self).input(),
                final(self).at(),
            ) == Some(TokenView::Arrow),
    {
        let mut built = rule;
        loop
            invariant
                self.follows(*old(self)),
                conditions_at(self.input(), self.at(), self.vars(), built@) == conditions_at(
                    old(self).input(),
                    old(self).at(),
                    old(self).vars(),
                    rule@,
                ),
                old(self).pos <= self.pos,
            decreases self.tokens@.len() - self.pos,
        {
            match self.peek() {
                Some(Token::Arrow) => {
                    return Ok(built);
                },
                None | Some(Token::Newline) => {
                    let span = self.span();
                    return Err(Error::MissingArrow { line: span.line, col: span.col });
                },
                Some(Token::Bang) => {
                    self.advance();
                    match self.parse_condition(built, true) {
                        Ok(more) => {
                            built = more;
                        },
                        Err(e) => {
                            return Err(e);
                        },
                    }
                },
                _ => {
                    match self.parse_condition(built, false) {
                        Ok(more) => {
                            built = more;
                        },
                        Err(e) => {
                            return Err(e);
                        },
                    }
                },
            }
        }
    }

    /// Reads one condition of a rule, behind its `!` if it has one.
    fn parse_condition(&mut self, rule: RuleConfig, negated: bool) -> (r: Result<
        RuleConfig,
        Error,
    >)
        ensures
            final(self).follows(*old(self)),
            outcome(r) == condition_at(
                old(self).input(),
                old(self).at(),
                old(self).vars(),
                rule@,
                negated,
            ).value,
            final(self).at() == condition_at(
                old(self).input(),
                old(self).at(),
                old(self).vars(),
                rule@,
                negated,
            ).end,
            r is Ok ==> old(self).pos < final(self).pos <= old(self).tokens@.len(),
    {
        match self.current() {
            Some(Token::Ident(field)) => if is_condition_keyword(&field) {
                self.advance();
                let text = if str_eq(&field, "has_file") {
                    self.expect_string(Expected::QuotedString)
                } else {
                    self.parse_pattern()
                };
                match text {
                    Ok(p) => Self::set_condition(rule, &field, p, negated),
                    Err(e) => Err(e),
                }
            } else {
                Err(self.refuse(Expected::ConditionKeyword))
            },
            _ => Err(self.refuse(Expected::ConditionKeyword)),
        }
    }

    /// Sets one condition of a rule, or the exception of that name.
    fn set_condition(rule: RuleConfig, field: &str, pattern: String, negated: bool) -> (r: Result<
        RuleConfig,
        Error,
    >)
        ensures
            outcome(r) == with_condition(rule@, field@, pattern@, negated),
    {
        if str_eq(field, "cwd") {
            Ok(
                if negated {
                    RuleConfig { cwd_not: Some(pattern), ..rule }
                } else {
                    RuleConfig { cwd: Some(pattern), ..rule }
                },
            )
        } else if str_eq(field, "arg") {
            Ok(
                if negated {
                    RuleConfig { arg_not: Some(pattern), ..rule }
                } else {
                    RuleConfig { arg: Some(pattern), ..rule }
                },
            )
        } else if str_eq(field, "stdin") {
            Ok(
                if negated {
                    RuleConfig { stdin_not: Some(pattern), ..rule }
                } else {
                    RuleConfig { stdin: Some(pattern), ..rule }
                },
            )
        } else if str_eq(field, "stdout") {
            Ok(
                if negated {
                    RuleConfig { stdout_not: Some(pattern), ..rule }
                } else {
                    RuleConfig { stdout: Some(pattern), ..rule }
                },
            )
        } else if str_eq(field, "env") {
            Ok(
                if negated {
                    RuleConfig { env_not: Some(pattern), ..rule }
                } else {
                    RuleConfig { env: Some(pattern), ..rule }
                },
            )
        } else if str_eq(field, "has_file") {
            Ok(
                if negated {
                    RuleConfig { has_file_not: Some(pattern), ..rule }
                } else {
                    RuleConfig { has_file: Some(pattern), ..rule }
                },
            )
        } else if negated {
            Err(Error::NegationUnsupported { field: field.to_owned() })
        } else if str_eq(field, "tool") {
            Ok(RuleConfig { tool: Some(pattern), ..rule })
        } else if str_eq(field, "command") {
            Ok(RuleConfig { command: Some(pattern), ..rule })
        } else if str_eq(field, "file_path") {
            Ok(RuleConfig { file_path: Some(pattern), ..rule })
        } else if str_eq(field, "subagent_type") {
            Ok(RuleConfig { subagent_type: Some(pattern), ..rule })
        } else if str_eq(field, "prompt") {
            Ok(RuleConfig { prompt: Some(pattern), ..rule })
        } else {
            Err(Error::UnknownCondition { field: field.to_owned() })
        }
    }

    /// Reads the flags of an `opts` list, behind its opening bracket.
    fn parse_opts(&mut self) -> (r: Result<Vec<String>, Error>)
        ensures
            final(self).follows(*old(self)),
            match r {
                Ok(v) => opts_at(old(self).input(), old(self).at(), Seq::empty()).value == Ok::<
                    Seq<Seq<char>>,
                    ErrorView,
                >(texts(v@)),
                Err(e) => opts_at(old(self).input(), old(self).at(), Seq::empty()).value == Err::<
                    Seq<Seq<char>>,
                    ErrorView,
                >(e@),
            },
            final(self).at() == opts_at(old(self).input(), old(self).at(), Seq::empty()).end,
            r is Ok ==> old(self).pos < final(self).pos <= old(self).tokens@.len(),
    {
        let mut opts: Vec<String> = Vec::new();
        assert(texts(opts@) =~= Seq::<Seq<char>>::empty());
        loop
            invariant
                self.follows(*old(self)),
                opts_at(self.input(), self.at(), texts(opts@)) == opts_at(
                    old(self).input(),
                    old(self).at(),
                    Seq::empty(),
                ),
                old(self).pos <= self.pos,
            decreases self.tokens@.len() - self.pos,
        {
            match self.current() {
                Some(Token::RBracket) => {
                    self.advance();
                    return Ok(opts);
                },
                Some(Token::Comma) => {
                    self.advance();
                },
                Some(Token::FlagLit(f)) => {
                    self.advance();
                    proof {
                        lemma_texts_push(opts@, f);
                    }
                    opts.push(f);
                },
                _ => {
                    return Err(self.unexpected(Expected::OptsItem));
                },
            }
        }
    }

    /// Reads the parameters of an `evaluate` action.
    fn parse_evaluate_params(&mut self, rule: RuleConfig) -> (r: Result<RuleConfig, Error>)
        ensures
            final(self).follows(*old(self)),
            outcome(r) == params_at(old(self).input(), old(self).at(), rule@).value,
            final(self).at() == params_at(old(self).input(), old(self).at(), rule@).end,
            r is Ok ==> old(self).pos <= final(self).pos,
            r is Ok && old(self).pos <= old(self).tokens@.len() ==> final(self).pos <= old(
                self,
            ).tokens@.len(),
    {
        let mut built = rule;
        loop
            invariant
                self.follows(*old(self)),
                params_at(self.input(), self.at(), built@) == params_at(
                    old(self).input(),
                    old(self).at(),
                    rule@,
                ),
                old(self).pos <= self.pos,
                old(self).pos <= old(self).tokens@.len() ==> self.pos <= old(self).tokens@.len(),
            decreases self.tokens@.len() - self.pos,
        {
            match self.peek() {
                Some(Token::Flag) => {
                    self.advance();
                    match self.current() {
                        Some(Token::FlagLit(f)) => {
                            self.advance();
                            built = RuleConfig { flag_arg: Some(f), ..built };
                        },
                        _ => {
                            return Err(self.refuse(Expected::FlagLiteral));
                        },
                    }
                },
                Some(Token::Skip) => {
                    self.advance();
                    match self.current() {
                        Some(Token::Number(n)) => {
                            self.advance();
                            built = RuleConfig { positional: Some(n), ..built };
                        },
                        _ => {
                            return Err(self.refuse(Expected::Number));
                        },
                    }
                },
                Some(Token::Opts) => {
                    self.advance();
                    if !matches!(self.peek(), Some(Token::LBracket)) {
                        return Err(self.refuse(Expected::LBracket));
                    }
                    self.advance();
                    match self.parse_opts() {
                        Ok(opts) => {
                            built = RuleConfig { opts_with_args: opts, ..built };
                        },
                        Err(e) => {
                            return Err(e);
                        },
                    }
                },
                _ => match self.named_target() {
                    Some(name) => {
                        self.advance();
                        self.advance();
                        built = RuleConfig { target: Some(name), ..built };
                    },
                    None => {
                        return Ok(built);
                    },
                },
            }
        }
    }

    /// The table that `target` names here, if it stands here with a name behind it.
    fn named_target(&self) -> (r: Option<String>)
        ensures
            match r {
                Some(name) => names_target(self.input(), self.at()) && tok(
                    self.input(),
                    self.at() + 1,
                ) == Some(TokenView::Ident(name@)),
                None => !names_target(self.input(), self.at()),
            },
    {
        match (self.peek(), self.peek_second()) {
            (Some(Token::Ident(word)), Some(Token::Ident(name))) => if str_eq(word, "target") {
                Some(name.clone())
            } else {
                None
            },
            _ => None,
        }
    }

    /// Reads the action of a rule.
    fn parse_action(&mut self, rule: RuleConfig) -> (r: Result<RuleConfig, Error>)
        ensures
            final(self).follows(*old(self)),
            outcome(r) == action_at(old(self).input(), old(self).at(), rule@).value,
            final(self).at() == action_at(old(self).input(), old(self).at(), rule@).end,
            r is Ok ==> old(self).pos < final(self).pos <= old(self).tokens@.len(),
    {
        match self.peek() {
            Some(Token::Allow) => {
                self.advance();
                Ok(RuleConfig { action: Action::Allow, ..rule })
            },
            Some(Token::Deny) => {
                self.advance();
                Ok(RuleConfig { action: Action::Deny, ..rule })
            },
            Some(Token::Passthrough) => {
                self.advance();
                Ok(RuleConfig { action: Action::Passthrough, ..rule })
            },
            Some(Token::Forward) => {
                self.advance();
                match self.expect_ident() {
                    Ok(name) => Ok(
                        RuleConfig { action: Action::Forward, target: Some(name), ..rule },
                    ),
                    Err(e) => Err(e),
                }
            },
            Some(Token::Force) => {
                self.advance();
                if matches!(self.peek(), Some(Token::Passthrough)) {
                    self.advance();
                    Ok(RuleConfig { action: Action::ForcePassthrough, ..rule })
                } else {
                    Err(self.unexpected(Expected::RulePassthrough))
                }
            },
            Some(Token::Evaluate) => {
                self.advance();
                let started = RuleConfig { action: Action::Evaluate, ..rule };
                if self.named_target().is_some() {
                    return self.parse_evaluate_params(started);
                }
                match self.current() {
                    Some(Token::Ident(name)) => {
                        self.advance();
                        self.parse_evaluate_params(RuleConfig { target: Some(name), ..started })
                    },
                    _ => self.parse_evaluate_params(started),
                }
            },
            _ => Err(self.unexpected(Expected::RuleAction)),
        }
    }

    /// Reads the tool name that a rule may begin with.
    fn parse_tool(&mut self) -> (r: RuleConfig)
        ensures
            final(self).follows(*old(self)),
            r@ == tool_at(old(self).input(), old(self).at()).0,
            final(self).at() == tool_at(old(self).input(), old(self).at()).1,
            old(self).pos <= final(self).pos,
    {
        let rule = Self::empty_rule();
        match self.current() {
            Some(Token::Ident(word)) => if is_condition_keyword(&word) {
                rule
            } else {
                self.advance();
                RuleConfig { tool: Some(exact_pattern(&word)), ..rule }
            },
            _ => rule,
        }
    }

    /// Reads a rule.
    fn parse_rule(&mut self) -> (r: Result<RuleConfig, Error>)
        ensures
            final(self).follows(*old(self)),
            outcome(r) == rule_at(old(self).input(), old(self).at(), old(self).vars()).value,
            final(self).at() == rule_at(old(self).input(), old(self).at(), old(self).vars()).end,
            r is Ok ==> old(self).pos < final(self).pos <= old(self).tokens@.len(),
    {
        let rule = self.parse_tool();
        let started = match self.parse_conditions(rule) {
            Ok(started) => started,
            Err(e) => {
                return Err(e);
            },
        };
        self.advance();
        let acted = match self.parse_action(started) {
            Ok(acted) => acted,
            Err(e) => {
                return Err(e);
            },
        };
        match self.current() {
            Some(Token::Str(reason)) => {
                self.advance();
                Ok(RuleConfig { reason: Some(reason), ..acted })
            },
            _ => Ok(acted),
        }
    }

    /// A rule without conditions, before its action is known.
    fn empty_rule() -> (r: RuleConfig)
        ensures
            r@ == blank_rule(),
    {
        let r = RuleConfig {
            tool: None,
            command: None,
            file_path: None,
            subagent_type: None,
            prompt: None,
            cwd: None,
            arg: None,
            arg_not: None,
            stdin: None,
            stdin_not: None,
            stdout: None,
            stdout_not: None,
            cwd_not: None,
            env: None,
            env_not: None,
            has_file: None,
            has_file_not: None,
            action: Action::Deny,
            reason: None,
            target: None,
            flag_arg: None,
            positional: None,
            opts_with_args: Vec::new(),
        };
        assert(texts(r.opts_with_args@) =~= Seq::<Seq<char>>::empty());
        r
    }

    /// Reads the rules of a table, up to its closing brace.
    fn parse_rules(&mut self) -> (r: Result<Vec<RuleConfig>, Error>)
        requires
            old(self).pos <= old(self).tokens@.len(),
        ensures
            final(self).follows(*old(self)),
            match r {
                Ok(v) => rules_at(
                    old(self).input(),
                    old(self).at(),
                    old(self).vars(),
                    Seq::empty(),
                ).value == Ok::<Seq<RuleView>, ErrorView>(rule_views(v@)),
                Err(e) => rules_at(
                    old(self).input(),
                    old(self).at(),
                    old(self).vars(),
                    Seq::empty(),
                ).value == Err::<Seq<RuleView>, ErrorView>(e@),
            },
            final(self).at() == rules_at(
                old(self).input(),
                old(self).at(),
                old(self).vars(),
                Seq::empty(),
            ).end,
            r is Ok ==> old(self).pos <= final(self).pos <= old(self).tokens@.len(),
    {
        let mut rules: Vec<RuleConfig> = Vec::new();
        assert(rule_views(rules@) =~= Seq::<RuleView>::empty());
        loop
            invariant
                self.follows(*old(self)),
                rules_at(self.input(), self.at(), self.vars(), rule_views(rules@)) == rules_at(
                    old(self).input(),
                    old(self).at(),
                    old(self).vars(),
                    Seq::empty(),
                ),
                old(self).pos <= self.pos <= self.tokens@.len(),
            decreases self.tokens@.len() - self.pos,
        {
            match self.peek() {
                None | Some(Token::RBrace) => {
                    return Ok(rules);
                },
                _ => {},
            }
            match self.parse_rule() {
                Ok(rule) => {
                    self.skip_newlines();
                    assert(rule_views(rules@.push(rule)) =~= rule_views(rules@).push(rule@));
                    rules.push(rule);
                },
                Err(e) => {
                    return Err(e);
                },
            }
        }
    }

    /// Reads a table, behind the keyword.
    fn parse_table(&mut self) -> (r: Result<(String, TableConfig), Error>)
        ensures
            final(self).follows(*old(self)),
            outcome(r) == table_at(old(self).input(), old(self).at(), old(self).vars()).value,
            final(self).at() == table_at(old(self).input(), old(self).at(), old(self).vars()).end,
            r is Ok ==> old(self).pos < final(self).pos <= old(self).tokens@.len(),
    {
        let name = match self.expect_ident() {
            Ok(name) => name,
            Err(e) => {
                return Err(e);
            },
        };
        let found = matches!(self.peek(), Some(Token::Default));
        match self.expect(found, Ghost(TokenView::Default), Expected::Default) {
            Ok(_) => {},
            Err(e) => {
                return Err(e);
            },
        }
        let default = match self.parse_default_action() {
            Ok(default) => default,
            Err(e) => {
                return Err(e);
            },
        };
        let found = matches!(self.peek(), Some(Token::LBrace));
        match self.expect(found, Ghost(TokenView::LBrace), Expected::LBrace) {
            Ok(_) => {},
            Err(e) => {
                return Err(e);
            },
        }
        self.skip_newlines();
        let rules = match self.parse_rules() {
            Ok(rules) => rules,
            Err(e) => {
                return Err(e);
            },
        };
        let found = matches!(self.peek(), Some(Token::RBrace));
        match self.expect(found, Ghost(TokenView::RBrace), Expected::RBrace) {
            Ok(_) => Ok((name, TableConfig { default, rules })),
            Err(e) => Err(e),
        }
    }

    /// Reads a variable definition, behind the keyword.
    fn parse_let(&mut self) -> (r: Result<(), Error>)
        ensures
            final(self).input() == old(self).input(),
            match r {
                Ok(_) => {
                    &&& let_at(old(self).input(), old(self).at(), old(self).vars()).value is Ok
                    &&& final(self).vars() == old(self).vars().insert(
                        let_at(old(self).input(), old(self).at(), old(self).vars()).value->Ok_0.0,
                        let_at(old(self).input(), old(self).at(), old(self).vars()).value->Ok_0.1,
                    )
                    &&& old(self).pos < final(self).pos <= old(self).tokens@.len()
                },
                Err(e) => {
                    &&& let_at(old(self).input(), old(self).at(), old(self).vars()).value == Err::<
                        (Seq<char>, Seq<char>),
                        ErrorView,
                    >(e@)
                    &&& final(self).vars() == old(self).vars()
                },
            },
            final(self).at() == let_at(old(self).input(), old(self).at(), old(self).vars()).end,
            final(self).tokens == old(self).tokens,
    {
        let name = match self.expect_ident() {
            Ok(name) => name,
            Err(e) => {
                return Err(e);
            },
        };
        let found = matches!(self.peek(), Some(Token::Equals));
        match self.expect(found, Ghost(TokenView::Equals), Expected::Equals) {
            Ok(_) => {},
            Err(e) => {
                return Err(e);
            },
        }
        let pattern = match self.parse_pattern() {
            Ok(pattern) => pattern,
            Err(e) => {
                return Err(e);
            },
        };
        proof {
            let entries = self.variables@;
            lemma_map_inserted(entries, |s: String| s@, name@, pattern);
            lemma_dict_inserted(map_entries(entries, |s: String| s@), name@, pattern@);
        }
        self.variables.insert(name, pattern);
        Ok(())
    }

    /// Reads the rest of an `audit` line into `audit`.
    fn parse_audit(&mut self, audit: AuditConfig) -> (r: Result<AuditConfig, Error>)
        requires
            old(self).pos <= old(self).tokens@.len(),
        ensures
            final(self).follows(*old(self)),
            outcome(r) == audit_at(old(self).input(), old(self).at(), old(self).at(), audit@).value,
            final(self).at() == audit_at(
                old(self).input(),
                old(self).at(),
                old(self).at(),
                audit@,
            ).end,
            r is Ok ==> old(self).pos <= final(self).pos <= old(self).tokens@.len(),
    {
        let start = self.span();
        let mut built = audit;
        loop
            invariant
                self.follows(*old(self)),
                start.line == line_at(self.input(), old(self).at()),
                start.col == col_at(self.input(), old(self).at()),
                audit_at(self.input(), self.at(), old(self).at(), built@) == audit_at(
                    old(self).input(),
                    old(self).at(),
                    old(self).at(),
                    audit@,
                ),
                old(self).pos <= self.pos <= self.tokens@.len(),
            decreases self.tokens@.len() - self.pos,
        {
            let token = match self.current() {
                None => {
                    return Ok(built);
                },
                Some(Token::Newline) => {
                    return Ok(built);
                },
                Some(token) => token,
            };
            if is_word(&token, "file") {
                self.advance();
                match self.expect_string(Expected::FilePath) {
                    Ok(path) => {
                        built = AuditConfig { audit_file: Some(path), ..built };
                    },
                    Err(e) => {
                        return Err(e);
                    },
                }
            } else if is_word(&token, "level") {
                self.advance();
                match self.current() {
                    Some(Token::Ident(word)) => {
                        let span = self.span();
                        self.advance();
                        match audit_level_of(&word) {
                            Some(level) => {
                                built = AuditConfig { audit_level: level, ..built };
                            },
                            None => {
                                return Err(
                                    Error::UnknownAuditLevel {
                                        text: word,
                                        line: span.line,
                                        col: span.col,
                                    },
                                );
                            },
                        }
                    },
                    _ => {
                        return Err(self.refuse(Expected::AuditLevel));
                    },
                }
            } else {
                return Err(
                    Error::UnexpectedInAudit { token, line: start.line, col: start.col },
                );
            }
        }
    }

    /// Reads the value of a `local_rules` setting.
    fn parse_switch(&mut self) -> (r: Result<bool, Error>)
        ensures
            final(self).follows(*old(self)),
            outcome(r) == switch_at(old(self).input(), old(self).at()).value,
            final(self).at() == switch_at(old(self).input(), old(self).at()).end,
            r is Ok ==> old(self).pos < final(self).pos <= old(self).tokens@.len(),
    {
        if matches!(self.peek(), Some(Token::Equals)) {
            self.advance();
        }
        let value = match self.peek() {
            Some(token) => if is_word(token, "true") {
                Some(true)
            } else if is_word(token, "false") {
                Some(false)
            } else {
                None
            },
            None => None,
        };
        match value {
            Some(b) => {
                self.advance();
                Ok(b)
            },
            None => Err(self.unexpected(Expected::TrueOrFalse)),
        }
    }

    /// Reads a configuration to the end of the tokens.
    pub fn parse(&mut self) -> (r: Result<Config, Error>)
        ensures
            outcome(r) == program_at(
                old(self).input(),
                old(self).at(),
                (Built { config: blank_config(), vars: old(self).vars() }),
            ).value,
            final(self).input() == old(self).input(),
            final(self).at() == program_at(
                old(self).input(),
                old(self).at(),
                (Built { config: blank_config(), vars: old(self).vars() }),
            ).end,
            final(self).vars() == program_at(
                old(self).input(),
                old(self).at(),
                (Built { config: blank_config(), vars: old(self).vars() }),
            ).vars,
    {
        let ghost start = Built { config: blank_config(), vars: self.vars() };
        let mut config = Config::empty();
        while self.pos < self.tokens.len()
            invariant
                self.tokens == old(self).tokens,
                self.input() == old(self).input(),
                program_at(
                    self.input(),
                    self.at(),
                    Built { config: config@, vars: self.vars() },
                ) == program_at(old(self).input(), old(self).at(), start),
                start == (Built { config: blank_config(), vars: old(self).vars() }),
            decreases self.tokens@.len() - self.pos,
        {
            match self.parse_statement(config) {
                Ok(more) => {
                    config = more;
                },
                Err(e) => {
                    return Err(e);
                },
            }
        }
        config.constants = self.variables.clone();
        Ok(config)
    }

    /// Reads one statement of the top level into `config`.
    fn parse_statement(&mut self, config: Config) -> (r: Result<Config, Error>)
        requires
            old(self).pos < old(self).tokens@.len(),
        ensures
            final(self).tokens == old(self).tokens,
            final(self).at() == statement_at(
                old(self).input(),
                old(self).at(),
                (Built { config: config@, vars: old(self).vars() }),
            ).end,
            match r {
                Ok(c) => {
                    &&& statement_at(
                        old(self).input(),
                        old(self).at(),
                        Built { config: config@, vars: old(self).vars() },
                    ).value == Ok::<Built, ErrorView>(
                        Built { config: c@, vars: final(self).vars() },
                    )
                    &&& old(self).pos < final(self).pos <= old(self).tokens@.len()
                },
                Err(e) => {
                    &&& statement_at(
                        old(self).input(),
                        old(self).at(),
                        Built { config: config@, vars: old(self).vars() },
                    ).value == Err::<Built, ErrorView>(e@)
                    &&& final(self).vars() == old(self).vars()
                },
            },
    {
        let mut config = config;
        match self.peek() {
            Some(Token::Let) => {
                self.advance();
                match self.parse_let() {
                    Ok(_) => Ok(config),
                    Err(e) => Err(e),
                }
            },
            Some(Token::Table) => {
                self.advance();
                match self.parse_table() {
                    Ok((name, table)) => {
                        proof {
                            lemma_map_inserted(config.table@, |t: TableConfig| t@, name@, table);
                        }
                        config.table.insert(name, table);
                        Ok(config)
                    },
                    Err(e) => Err(e),
                }
            },
            Some(Token::Entry) => {
                self.advance();
                match self.expect_ident() {
                    Ok(name) => {
                        config.global.entry_table = name;
                        Ok(config)
                    },
                    Err(e) => Err(e),
                }
            },
            Some(Token::Audit) => {
                self.advance();
                match self.parse_audit(config.audit) {
                    Ok(audit) => {
                        config.audit = audit;
                        Ok(config)
                    },
                    Err(e) => Err(e),
                }
            },
            Some(Token::Newline) => {
                self.advance();
                Ok(config)
            },
            Some(other) => if is_word(other, "local_rules") {
                self.advance();
                match self.parse_switch() {
                    Ok(b) => {
                        config.global.local_rules = b;
                        Ok(config)
                    },
                    Err(e) => Err(e),
                }
            } else {
                let span = self.span();
                Err(
                    Error::UnexpectedTopLevel {
                        token: other.clone(),
                        line: span.line,
                        col: span.col,
                    },
                )
            },
            None => Ok(config),
        }
    }
}

/// Whether a token is a given bare word.
fn is_word(token: &Token, word: &str) -> (r: bool)
    ensures
        r == (token@ == TokenView::Ident(word@)),
{
    match token {
        Token::Ident(s) => str_eq(s, word),
        _ => false,
    }
}

/// The audit level of a word.
fn audit_level_of(word: &str) -> (r: Option<AuditLevel>)
    ensures
        r == audit_level(word@),
{
    if str_eq(word, "off") {
        Some(AuditLevel::Off)
    } else if str_eq(word, "matched") {
        Some(AuditLevel::Matched)
    } else if str_eq(word, "all") {
        Some(AuditLevel::All)
    } else {
        None
    }
}

/// Reads a configuration that is written in the rule language.
pub fn parse_dsl(input: &str) -> (r: Result<Config, Error>)
    ensures
        outcome(r) == config_of(input@),
        r is Ok ==> r->Ok_0.is_compiled(),
{
    let tokens = match lex(input) {
        Ok(tokens) => tokens,
        Err(e) => {
            return Err(e);
        },
    };
    let mut parser = Parser::new(tokens);
    match parser.parse() {
        Ok(config) => config.check(),
        Err(e) => Err(e),
    }
}

/// What is wrong with a rule of a project, if anything.
fn check_local_rule(rule: &RuleConfig, source: &str) -> (r: Option<Error>)
    ensures
        match r {
            None => local_fault(rule@, source@) is None,
            Some(e) => local_fault(rule@, source@) == Some(e@),
        },
{
    match rule.action {
        Action::Allow | Action::Deny | Action::Passthrough => {},
        action => {
            return Some(Error::LocalAction { source: source.to_owned(), action });
        },
    }
    match &rule.has_file {
        Some(path) => if leads_outside(path) {
            return Some(
                Error::LocalHasFile {
                    source: source.to_owned(),
                    negated: false,
                    path: path.clone(),
                },
            );
        },
        None => {},
    }
    match &rule.has_file_not {
        Some(path) => if leads_outside(path) {
            return Some(
                Error::LocalHasFile {
                    source: source.to_owned(),
                    negated: true,
                    path: path.clone(),
                },
            );
        },
        None => {},
    }
    None
}

/// Reads a rules file of a project: rules in a flat list, and variables. `source` is
/// the file that errors name.
pub fn parse_local_rules(input: &str, source: &str) -> (r: Result<Vec<RuleConfig>, Error>)
    ensures
        match r {
            Ok(v) => local_rules_of(input@, source@) == Ok::<Seq<RuleView>, ErrorView>(
                rule_views(v@),
            ) && all_local(rule_views(v@)),
            Err(e) => local_rules_of(input@, source@) == Err::<Seq<RuleView>, ErrorView>(e@),
        },
{
    let tokens = match lex(input) {
        Ok(tokens) => tokens,
        Err(e) => {
            return Err(e);
        },
    };
    let mut parser = Parser::new(tokens);
    let ghost ts = parser.input();
    let mut rules: Vec<RuleConfig> = Vec::new();
    assert(rule_views(rules@) =~= Seq::<RuleView>::empty());
    while parser.pos < parser.tokens.len()
        invariant
            parser.input() == ts,
            local_rules_of(input@, source@) == local_rules_at(
                ts,
                parser.at(),
                parser.vars(),
                rule_views(rules@),
                source@,
            ),
        decreases parser.tokens@.len() - parser.pos,
    {
        match parser.peek() {
            Some(Token::Let) => {
                parser.advance();
                match parser.parse_let() {
                    Ok(_) => {},
                    Err(e) => {
                        return Err(e);
                    },
                }
            },
            Some(Token::Newline) => {
                parser.advance();
            },
            Some(token) => {
                if matches!(token, Token::Table | Token::Entry | Token::Audit) {
                    let span = parser.span();
                    return Err(
                        Error::LocalDirective {
                            source: source.to_owned(),
                            token: token.clone(),
                            line: span.line,
                            col: span.col,
                        },
                    );
                }
                match parser.parse_rule() {
                    Ok(rule) => {
                        match check_local_rule(&rule, source) {
                            Some(e) => {
                                return Err(e);
                            },
                            None => {},
                        }
                        assert(rule_views(rules@.push(rule)) =~= rule_views(rules@).push(rule@));
                        rules.push(rule);
                    },
                    Err(e) => {
                        return Err(e);
                    },
                }
            },
            None => {},
        }
    }
    proof {
        lemma_local_actions(input@, source@);
    }
    Ok(rules)
}

} // verus!

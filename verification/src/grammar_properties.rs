//! How constructs of the rule language are read: what a construct that is read without an
//! error is made of, and where it reads the same in two sequences of tokens.
use vstd::prelude::*;
use crate::config::{Action, AuditView, RuleView};
use crate::dsl_grammar::{
    action_at, audit_at, audit_level, condition_at, conditions_at, default_action_at, let_at,
    local_fault, local_rules_at, local_rules_of, names_target, opts_at, params_at, pattern_at,
    rule_at, rules_at, skip_newlines, statement_at, table_at, tok, tool_at, Built,
};
use crate::error::ErrorView;
use crate::lexer::{tokens_of, SpannedView, TokenView};
use crate::lexer_properties::{joined_texts_are_read_in_turn, without_break};

verus! {

/// What a pattern token stands for.
pub open spec fn pattern_value(
    token: TokenView,
    vars: Map<Seq<char>, Seq<char>>,
) -> Option<Seq<char>> {
    match token {
        TokenView::Regex(s) => Some(s),
        TokenView::VarRef(name) => if vars.dom().contains(name) {
            Some(vars[name])
        } else {
            None
        },
        _ => None,
    }
}

/// Whether a token is a pattern: one written out, or a reference to a variable.
pub open spec fn is_pattern(token: TokenView) -> bool {
    token is Regex || token is VarRef
}

/// Whether the tokens from `i` to `e` were read from nothing but constructs that are in
/// order: none of them begins a definition, and every variable in them is known.
pub open spec fn in_order(
    ts: Seq<SpannedView>,
    i: int,
    e: int,
    vars: Map<Seq<char>, Seq<char>>,
) -> bool {
    &&& i <= e <= ts.len()
    &&& forall|u: int|
        i <= u < e ==> (#[trigger] ts[u]).token != TokenView::Let && (ts[u].token matches
            TokenView::VarRef(name) ==> vars.dom().contains(name))
}

/// Whether the last of some tokens is a line break.
pub open spec fn trails(ts: Seq<SpannedView>) -> bool {
    ts.len() > 0 && ts.last().token == TokenView::Newline
}

/// Whether `ts`, found at position `off` of `other`, reads the same there: the same tokens,
/// but for patterns, which up to `hi` stand for the same; and at or behind the last one a
/// line break, or nothing more.
pub open spec fn carries(
    ts: Seq<SpannedView>,
    other: Seq<SpannedView>,
    off: int,
    hi: int,
    vars: Map<Seq<char>, Seq<char>>,
    known: Map<Seq<char>, Seq<char>>,
) -> bool {
    &&& 0 <= off
    &&& off + ts.len() <= other.len()
    &&& 0 <= hi <= ts.len()
    &&& off + ts.len() < other.len() ==> trails(ts) || other[off + ts.len()].token
        == TokenView::Newline
    &&& forall|k: int|
        0 <= k < ts.len() ==> (#[trigger] ts[k]).token == other[off + k].token || is_pattern(
            ts[k].token,
        ) && is_pattern(other[off + k].token)
    &&& forall|k: int|
        0 <= k < hi ==> (pattern_value((#[trigger] ts[k]).token, vars) matches Some(v)
            ==> pattern_value(other[off + k].token, known) == Some(v))
}

/// What is seen at a position of both, unless it is a pattern.
proof fn lemma_seen(
    ts: Seq<SpannedView>,
    other: Seq<SpannedView>,
    off: int,
    hi: int,
    vars: Map<Seq<char>, Seq<char>>,
    known: Map<Seq<char>, Seq<char>>,
    i: int,
)
    requires
        carries(ts, other, off, hi, vars, known),
        0 <= i <= ts.len(),
        i < ts.len() || !trails(ts) || off + ts.len() == other.len(),
    ensures
        match tok(ts, i) {
            Some(token) => tok(other, off + i) == Some(token) || is_pattern(token) && (tok(
                other,
                off + i,
            ) matches Some(t) && is_pattern(t)),
            None => tok(other, off + i) is None || tok(other, off + i) == Some(TokenView::Newline),
        },
        i < hi ==> (pattern_value(ts[i].token, vars) matches Some(v) ==> pattern_value(
            other[off + i].token,
            known,
        ) == Some(v)),
{
    if i < ts.len() {
        assert(ts[i].token == other[off + i].token || is_pattern(ts[i].token) && is_pattern(
            other[off + i].token,
        ));
    }
}

proof fn lemma_pattern_order(ts: Seq<SpannedView>, i: int, vars: Map<Seq<char>, Seq<char>>)
    requires
        0 <= i <= ts.len(),
        pattern_at(ts, i, vars).value is Ok,
    ensures
        pattern_at(ts, i, vars).end == i + 1,
        in_order(ts, i, i + 1, vars),
        pattern_value(ts[i].token, vars) == Some(pattern_at(ts, i, vars).value->Ok_0),
{
}

proof fn lemma_pattern_carries(
    ts: Seq<SpannedView>,
    other: Seq<SpannedView>,
    off: int,
    hi: int,
    vars: Map<Seq<char>, Seq<char>>,
    known: Map<Seq<char>, Seq<char>>,
    i: int,
)
    requires
        carries(ts, other, off, hi, vars, known),
        0 <= i < hi,
        pattern_at(ts, i, vars).value is Ok,
    ensures
        pattern_at(other, off + i, known).value == pattern_at(ts, i, vars).value,
        pattern_at(other, off + i, known).end == off + i + 1,
{
    lemma_seen(ts, other, off, hi, vars, known, i);
    lemma_pattern_order(ts, i, vars);
}

proof fn lemma_condition_order(
    ts: Seq<SpannedView>,
    i: int,
    vars: Map<Seq<char>, Seq<char>>,
    rule: RuleView,
    negated: bool,
)
    requires
        0 <= i <= ts.len(),
        condition_at(ts, i, vars, rule, negated).value is Ok,
    ensures
        condition_at(ts, i, vars, rule, negated).end == i + 2,
        in_order(ts, i, i + 2, vars),
{
}

proof fn lemma_condition_carries(
    ts: Seq<SpannedView>,
    other: Seq<SpannedView>,
    off: int,
    hi: int,
    vars: Map<Seq<char>, Seq<char>>,
    known: Map<Seq<char>, Seq<char>>,
    i: int,
    rule: RuleView,
    negated: bool,
)
    requires
        carries(ts, other, off, hi, vars, known),
        0 <= i,
        i + 2 <= hi,
        condition_at(ts, i, vars, rule, negated).value is Ok,
    ensures
        condition_at(other, off + i, known, rule, negated).value == condition_at(
            ts,
            i,
            vars,
            rule,
            negated,
        ).value,
        condition_at(other, off + i, known, rule, negated).end == off + i + 2,
{
    lemma_condition_order(ts, i, vars, rule, negated);
    lemma_seen(ts, other, off, hi, vars, known, i);
    lemma_seen(ts, other, off, hi, vars, known, i + 1);
    assert(off + (i + 1) == off + i + 1);
    let field = tok(ts, i)->0->Ident_0;
    if field != "has_file"@ {
        lemma_pattern_carries(ts, other, off, hi, vars, known, i + 1);
    }
}

proof fn lemma_conditions_order(
    ts: Seq<SpannedView>,
    i: int,
    vars: Map<Seq<char>, Seq<char>>,
    rule: RuleView,
)
    requires
        0 <= i <= ts.len(),
        conditions_at(ts, i, vars, rule).value is Ok,
    ensures
        in_order(ts, i, conditions_at(ts, i, vars, rule).end, vars),
        tok(ts, conditions_at(ts, i, vars, rule).end) == Some(TokenView::Arrow),
    decreases ts.len() - i,
{
    if tok(ts, i) != Some(TokenView::Arrow) {
        let negated = tok(ts, i) == Some(TokenView::Bang);
        let from = if negated { i + 1 } else { i };
        let one = condition_at(ts, from, vars, rule, negated);
        lemma_condition_order(ts, from, vars, rule, negated);
        lemma_conditions_order(ts, one.end, vars, one.value->Ok_0);
    }
}

proof fn lemma_conditions_carry(
    ts: Seq<SpannedView>,
    other: Seq<SpannedView>,
    off: int,
    hi: int,
    vars: Map<Seq<char>, Seq<char>>,
    known: Map<Seq<char>, Seq<char>>,
    i: int,
    rule: RuleView,
)
    requires
        carries(ts, other, off, hi, vars, known),
        0 <= i <= ts.len(),
        conditions_at(ts, i, vars, rule).value is Ok,
        conditions_at(ts, i, vars, rule).end <= hi,
    ensures
        conditions_at(other, off + i, known, rule).value == conditions_at(ts, i, vars, rule).value,
        conditions_at(other, off + i, known, rule).end == off + conditions_at(
            ts,
            i,
            vars,
            rule,
        ).end,
    decreases ts.len() - i,
{
    lemma_seen(ts, other, off, hi, vars, known, i);
    if tok(ts, i) != Some(TokenView::Arrow) {
        let negated = tok(ts, i) == Some(TokenView::Bang);
        let from = if negated { i + 1 } else { i };
        let one = condition_at(ts, from, vars, rule, negated);
        lemma_condition_order(ts, from, vars, rule, negated);
        lemma_conditions_order(ts, one.end, vars, one.value->Ok_0);
        lemma_condition_carries(ts, other, off, hi, vars, known, from, rule, negated);
        lemma_conditions_carry(ts, other, off, hi, vars, known, one.end, one.value->Ok_0);
        assert(off + (i + 1) == off + i + 1);
    }
}

proof fn lemma_opts_order(
    ts: Seq<SpannedView>,
    i: int,
    acc: Seq<Seq<char>>,
    vars: Map<Seq<char>, Seq<char>>,
)
    requires
        0 <= i <= ts.len(),
        opts_at(ts, i, acc).value is Ok,
    ensures
        in_order(ts, i, opts_at(ts, i, acc).end, vars),
        i < opts_at(ts, i, acc).end,
        ts[opts_at(ts, i, acc).end - 1].token != TokenView::Newline,
    decreases ts.len() - i,
{
    match tok(ts, i) {
        Some(TokenView::Comma) => {
            lemma_opts_order(ts, i + 1, acc, vars);
        },
        Some(TokenView::FlagLit(f)) => {
            lemma_opts_order(ts, i + 1, acc.push(f), vars);
        },
        _ => {},
    }
}

proof fn lemma_opts_carry(
    ts: Seq<SpannedView>,
    other: Seq<SpannedView>,
    off: int,
    hi: int,
    vars: Map<Seq<char>, Seq<char>>,
    known: Map<Seq<char>, Seq<char>>,
    i: int,
    acc: Seq<Seq<char>>,
)
    requires
        carries(ts, other, off, hi, vars, known),
        0 <= i <= ts.len(),
        opts_at(ts, i, acc).value is Ok,
    ensures
        opts_at(other, off + i, acc).value == opts_at(ts, i, acc).value,
        opts_at(other, off + i, acc).end == off + opts_at(ts, i, acc).end,
    decreases ts.len() - i,
{
    lemma_seen(ts, other, off, hi, vars, known, i);
    assert(off + (i + 1) == off + i + 1);
    match tok(ts, i) {
        Some(TokenView::Comma) => {
            lemma_opts_carry(ts, other, off, hi, vars, known, i + 1, acc);
        },
        Some(TokenView::FlagLit(f)) => {
            lemma_opts_carry(ts, other, off, hi, vars, known, i + 1, acc.push(f));
        },
        _ => {},
    }
}

proof fn lemma_params_order(
    ts: Seq<SpannedView>,
    i: int,
    rule: RuleView,
    vars: Map<Seq<char>, Seq<char>>,
)
    requires
        0 <= i <= ts.len(),
        params_at(ts, i, rule).value is Ok,
    ensures
        in_order(ts, i, params_at(ts, i, rule).end, vars),
        i < params_at(ts, i, rule).end ==> ts[params_at(ts, i, rule).end - 1].token
            != TokenView::Newline,
    decreases ts.len() - i,
{
    match tok(ts, i) {
        Some(TokenView::Flag) => {
            let f = tok(ts, i + 1)->0->FlagLit_0;
            lemma_params_order(ts, i + 2, RuleView { flag_arg: Some(f), ..rule }, vars);
        },
        Some(TokenView::Skip) => {
            let n = tok(ts, i + 1)->0->Number_0;
            lemma_params_order(ts, i + 2, RuleView { positional: Some(n as usize), ..rule }, vars);
        },
        Some(TokenView::Opts) => {
            let list = opts_at(ts, i + 2, Seq::empty());
            lemma_opts_order(ts, i + 2, Seq::empty(), vars);
            let more = RuleView { opts_with_args: list.value->Ok_0, ..rule };
            lemma_params_order(ts, list.end, more, vars);
        },
        Some(TokenView::Ident(_)) => {
            if names_target(ts, i) {
                let more = RuleView { target: Some(tok(ts, i + 1)->0->Ident_0), ..rule };
                lemma_params_order(ts, i + 2, more, vars);
            }
        },
        _ => {},
    }
}

proof fn lemma_params_carry(
    ts: Seq<SpannedView>,
    other: Seq<SpannedView>,
    off: int,
    hi: int,
    vars: Map<Seq<char>, Seq<char>>,
    known: Map<Seq<char>, Seq<char>>,
    i: int,
    rule: RuleView,
)
    requires
        carries(ts, other, off, hi, vars, known),
        0 <= i <= ts.len(),
        i < ts.len() || !trails(ts) || off + ts.len() == other.len(),
        params_at(ts, i, rule).value is Ok,
    ensures
        params_at(other, off + i, rule).value == params_at(ts, i, rule).value,
        params_at(other, off + i, rule).end == off + params_at(ts, i, rule).end,
    decreases ts.len() - i,
{
    lemma_seen(ts, other, off, hi, vars, known, i);
    if i < ts.len() && ts[i].token != TokenView::Newline {
        lemma_seen(ts, other, off, hi, vars, known, i + 1);
    }
    assert(off + (i + 1) == off + i + 1);
    assert(off + (i + 2) == off + i + 2);
    match tok(ts, i) {
        Some(TokenView::Flag) => {
            let f = tok(ts, i + 1)->0->FlagLit_0;
            let more = RuleView { flag_arg: Some(f), ..rule };
            lemma_params_carry(ts, other, off, hi, vars, known, i + 2, more);
        },
        Some(TokenView::Skip) => {
            let n = tok(ts, i + 1)->0->Number_0;
            let more = RuleView { positional: Some(n as usize), ..rule };
            lemma_params_carry(ts, other, off, hi, vars, known, i + 2, more);
        },
        Some(TokenView::Opts) => {
            let list = opts_at(ts, i + 2, Seq::empty());
            lemma_opts_order(ts, i + 2, Seq::empty(), vars);
            lemma_opts_carry(ts, other, off, hi, vars, known, i + 2, Seq::empty());
            let more = RuleView { opts_with_args: list.value->Ok_0, ..rule };
            lemma_params_carry(ts, other, off, hi, vars, known, list.end, more);
        },
        Some(TokenView::Ident(_)) => {
            assert(names_target(other, off + i) == names_target(ts, i));
            if names_target(ts, i) {
                let more = RuleView { target: Some(tok(ts, i + 1)->0->Ident_0), ..rule };
                lemma_params_carry(ts, other, off, hi, vars, known, i + 2, more);
            }
        },
        _ => {},
    }
}

proof fn lemma_action_order(
    ts: Seq<SpannedView>,
    i: int,
    rule: RuleView,
    vars: Map<Seq<char>, Seq<char>>,
)
    requires
        0 <= i <= ts.len(),
        action_at(ts, i, rule).value is Ok,
    ensures
        in_order(ts, i, action_at(ts, i, rule).end, vars),
        i < action_at(ts, i, rule).end,
        ts[action_at(ts, i, rule).end - 1].token != TokenView::Newline,
{
    if tok(ts, i) == Some(TokenView::Evaluate) {
        let started = RuleView { action: Action::Evaluate, ..rule };
        match tok(ts, i + 1) {
            Some(TokenView::Ident(name)) => {
                if names_target(ts, i + 1) {
                    lemma_params_order(ts, i + 1, started, vars);
                } else {
                    let more = RuleView { target: Some(name), ..started };
                    lemma_params_order(ts, i + 2, more, vars);
                }
            },
            _ => {
                lemma_params_order(ts, i + 1, started, vars);
            },
        }
    }
}

proof fn lemma_action_carries(
    ts: Seq<SpannedView>,
    other: Seq<SpannedView>,
    off: int,
    hi: int,
    vars: Map<Seq<char>, Seq<char>>,
    known: Map<Seq<char>, Seq<char>>,
    i: int,
    rule: RuleView,
)
    requires
        carries(ts, other, off, hi, vars, known),
        0 <= i <= ts.len(),
        action_at(ts, i, rule).value is Ok,
    ensures
        action_at(other, off + i, rule).value == action_at(ts, i, rule).value,
        action_at(other, off + i, rule).end == off + action_at(ts, i, rule).end,
{
    lemma_seen(ts, other, off, hi, vars, known, i);
    lemma_seen(ts, other, off, hi, vars, known, i + 1);
    assert(off + (i + 1) == off + i + 1);
    assert(off + (i + 2) == off + i + 2);
    if tok(ts, i) == Some(TokenView::Evaluate) {
        let started = RuleView { action: Action::Evaluate, ..rule };
        match tok(ts, i + 1) {
            Some(TokenView::Ident(name)) => {
                lemma_seen(ts, other, off, hi, vars, known, i + 2);
                assert(names_target(other, off + i + 1) == names_target(ts, i + 1));
                if names_target(ts, i + 1) {
                    lemma_params_carry(ts, other, off, hi, vars, known, i + 1, started);
                } else {
                    let more = RuleView { target: Some(name), ..started };
                    lemma_params_carry(ts, other, off, hi, vars, known, i + 2, more);
                }
            },
            _ => {
                lemma_params_carry(ts, other, off, hi, vars, known, i + 1, started);
            },
        }
    }
}

pub proof fn lemma_rule_order(ts: Seq<SpannedView>, i: int, vars: Map<Seq<char>, Seq<char>>)
    requires
        0 <= i <= ts.len(),
        rule_at(ts, i, vars).value is Ok,
    ensures
        in_order(ts, i, rule_at(ts, i, vars).end, vars),
        i < rule_at(ts, i, vars).end,
{
    let begun = tool_at(ts, i);
    let conditions = conditions_at(ts, begun.1, vars, begun.0);
    lemma_conditions_order(ts, begun.1, vars, begun.0);
    lemma_action_order(ts, conditions.end + 1, conditions.value->Ok_0, vars);
}

pub proof fn lemma_rule_carries(
    ts: Seq<SpannedView>,
    other: Seq<SpannedView>,
    off: int,
    hi: int,
    vars: Map<Seq<char>, Seq<char>>,
    known: Map<Seq<char>, Seq<char>>,
    i: int,
)
    requires
        carries(ts, other, off, hi, vars, known),
        0 <= i <= ts.len(),
        rule_at(ts, i, vars).value is Ok,
        rule_at(ts, i, vars).end <= hi,
    ensures
        rule_at(other, off + i, known).value == rule_at(ts, i, vars).value,
        rule_at(other, off + i, known).end == off + rule_at(ts, i, vars).end,
{
    lemma_seen(ts, other, off, hi, vars, known, i);
    assert(off + (i + 1) == off + i + 1);
    let begun = tool_at(ts, i);
    let conditions = conditions_at(ts, begun.1, vars, begun.0);
    lemma_conditions_order(ts, begun.1, vars, begun.0);
    let started = conditions.value->Ok_0;
    lemma_action_order(ts, conditions.end + 1, started, vars);
    let acted = action_at(ts, conditions.end + 1, started);
    assert(tool_at(other, off + i) == (begun.0, off + begun.1));
    lemma_conditions_carry(ts, other, off, hi, vars, known, begun.1, begun.0);
    lemma_action_carries(ts, other, off, hi, vars, known, conditions.end + 1, started);
    assert(off + (conditions.end + 1) == off + conditions.end + 1);
    lemma_seen(ts, other, off, hi, vars, known, acted.end);
}

pub proof fn lemma_let_order(ts: Seq<SpannedView>, i: int, vars: Map<Seq<char>, Seq<char>>)
    requires
        0 <= i <= ts.len(),
        let_at(ts, i, vars).value is Ok,
    ensures
        let_at(ts, i, vars).end == i + 3,
        in_order(ts, i, i + 3, vars),
        tok(ts, i) == Some(TokenView::Ident(let_at(ts, i, vars).value->Ok_0.0)),
        tok(ts, i + 1) == Some(TokenView::Equals),
        pattern_value(ts[i + 2].token, vars) == Some(let_at(ts, i, vars).value->Ok_0.1),
{
}

pub proof fn lemma_let_carries(
    ts: Seq<SpannedView>,
    other: Seq<SpannedView>,
    off: int,
    hi: int,
    vars: Map<Seq<char>, Seq<char>>,
    known: Map<Seq<char>, Seq<char>>,
    i: int,
)
    requires
        carries(ts, other, off, hi, vars, known),
        0 <= i <= ts.len(),
        let_at(ts, i, vars).value is Ok,
        i + 3 <= hi,
    ensures
        let_at(other, off + i, known).value == let_at(ts, i, vars).value,
        let_at(other, off + i, known).end == off + i + 3,
{
    lemma_let_order(ts, i, vars);
    lemma_seen(ts, other, off, hi, vars, known, i);
    lemma_seen(ts, other, off, hi, vars, known, i + 1);
    lemma_pattern_carries(ts, other, off, hi, vars, known, i + 2);
    assert(off + (i + 1) == off + i + 1);
    assert(off + (i + 2) == off + i + 2);
}

proof fn lemma_newlines_order(ts: Seq<SpannedView>, i: int, vars: Map<Seq<char>, Seq<char>>)
    requires
        0 <= i <= ts.len(),
    ensures
        in_order(ts, i, skip_newlines(ts, i), vars),
    decreases ts.len() - i,
{
    if tok(ts, i) == Some(TokenView::Newline) {
        lemma_newlines_order(ts, i + 1, vars);
    }
}

proof fn lemma_newlines_carry(
    ts: Seq<SpannedView>,
    other: Seq<SpannedView>,
    hi: int,
    vars: Map<Seq<char>, Seq<char>>,
    known: Map<Seq<char>, Seq<char>>,
    i: int,
)
    requires
        carries(ts, other, 0, hi, vars, known),
        ts.len() == other.len(),
        0 <= i <= ts.len(),
    ensures
        skip_newlines(other, i) == skip_newlines(ts, i),
    decreases ts.len() - i,
{
    lemma_seen(ts, other, 0, hi, vars, known, i);
    if tok(ts, i) == Some(TokenView::Newline) {
        lemma_newlines_carry(ts, other, hi, vars, known, i + 1);
    }
}

proof fn lemma_rules_order(
    ts: Seq<SpannedView>,
    i: int,
    vars: Map<Seq<char>, Seq<char>>,
    acc: Seq<RuleView>,
)
    requires
        0 <= i <= ts.len(),
        rules_at(ts, i, vars, acc).value is Ok,
    ensures
        in_order(ts, i, rules_at(ts, i, vars, acc).end, vars),
    decreases ts.len() - i,
{
    if tok(ts, i) is Some && tok(ts, i) != Some(TokenView::RBrace) {
        let one = rule_at(ts, i, vars);
        lemma_rule_order(ts, i, vars);
        lemma_newlines_order(ts, one.end, vars);
        let next = skip_newlines(ts, one.end);
        lemma_rules_order(ts, next, vars, acc.push(one.value->Ok_0));
    }
}

proof fn lemma_rules_carry(
    ts: Seq<SpannedView>,
    other: Seq<SpannedView>,
    hi: int,
    vars: Map<Seq<char>, Seq<char>>,
    known: Map<Seq<char>, Seq<char>>,
    i: int,
    acc: Seq<RuleView>,
)
    requires
        carries(ts, other, 0, hi, vars, known),
        ts.len() == other.len(),
        0 <= i <= ts.len(),
        rules_at(ts, i, vars, acc).value is Ok,
        rules_at(ts, i, vars, acc).end <= hi,
    ensures
        rules_at(other, i, known, acc) == rules_at(ts, i, vars, acc),
    decreases ts.len() - i,
{
    lemma_seen(ts, other, 0, hi, vars, known, i);
    if tok(ts, i) is Some && tok(ts, i) != Some(TokenView::RBrace) {
        let one = rule_at(ts, i, vars);
        lemma_rule_order(ts, i, vars);
        lemma_newlines_order(ts, one.end, vars);
        let next = skip_newlines(ts, one.end);
        let more = acc.push(one.value->Ok_0);
        lemma_rules_order(ts, next, vars, more);
        lemma_rule_carries(ts, other, 0, hi, vars, known, i);
        lemma_newlines_carry(ts, other, hi, vars, known, one.end);
        lemma_rules_carry(ts, other, hi, vars, known, next, more);
    }
}

proof fn lemma_default_order(ts: Seq<SpannedView>, i: int, vars: Map<Seq<char>, Seq<char>>)
    requires
        0 <= i <= ts.len(),
        default_action_at(ts, i).value is Ok,
    ensures
        in_order(ts, i, default_action_at(ts, i).end, vars),
{
}

proof fn lemma_default_carries(
    ts: Seq<SpannedView>,
    other: Seq<SpannedView>,
    hi: int,
    vars: Map<Seq<char>, Seq<char>>,
    known: Map<Seq<char>, Seq<char>>,
    i: int,
)
    requires
        carries(ts, other, 0, hi, vars, known),
        0 <= i <= ts.len(),
        default_action_at(ts, i).value is Ok,
    ensures
        default_action_at(other, i) == default_action_at(ts, i),
{
    lemma_seen(ts, other, 0, hi, vars, known, i);
    if i < ts.len() {
        lemma_seen(ts, other, 0, hi, vars, known, i + 1);
    }
}

proof fn lemma_table_order(ts: Seq<SpannedView>, i: int, vars: Map<Seq<char>, Seq<char>>)
    requires
        0 <= i <= ts.len(),
        table_at(ts, i, vars).value is Ok,
    ensures
        in_order(ts, i, table_at(ts, i, vars).end, vars),
{
    lemma_default_order(ts, i + 2, vars);
    let default = default_action_at(ts, i + 2);
    let open = default.end + 1;
    lemma_newlines_order(ts, open, vars);
    lemma_rules_order(ts, skip_newlines(ts, open), vars, Seq::empty());
}

proof fn lemma_table_carries(
    ts: Seq<SpannedView>,
    other: Seq<SpannedView>,
    hi: int,
    vars: Map<Seq<char>, Seq<char>>,
    known: Map<Seq<char>, Seq<char>>,
    i: int,
)
    requires
        carries(ts, other, 0, hi, vars, known),
        ts.len() == other.len(),
        0 <= i <= ts.len(),
        table_at(ts, i, vars).value is Ok,
        table_at(ts, i, vars).end <= hi,
    ensures
        table_at(other, i, known) == table_at(ts, i, vars),
{
    lemma_default_order(ts, i + 2, vars);
    let default = default_action_at(ts, i + 2);
    let open = default.end + 1;
    lemma_newlines_order(ts, open, vars);
    let first = skip_newlines(ts, open);
    lemma_rules_order(ts, first, vars, Seq::empty());
    let rules = rules_at(ts, first, vars, Seq::empty());
    lemma_seen(ts, other, 0, hi, vars, known, i);
    lemma_seen(ts, other, 0, hi, vars, known, i + 1);
    lemma_default_carries(ts, other, hi, vars, known, i + 2);
    lemma_seen(ts, other, 0, hi, vars, known, default.end);
    lemma_newlines_carry(ts, other, hi, vars, known, open);
    lemma_rules_carry(ts, other, hi, vars, known, first, Seq::empty());
    lemma_seen(ts, other, 0, hi, vars, known, rules.end);
}

proof fn lemma_audit_order(
    ts: Seq<SpannedView>,
    i: int,
    start: int,
    audit: AuditView,
    vars: Map<Seq<char>, Seq<char>>,
)
    requires
        0 <= i <= ts.len(),
        audit_at(ts, i, start, audit).value is Ok,
    ensures
        in_order(ts, i, audit_at(ts, i, start, audit).end, vars),
    decreases ts.len() - i,
{
    if tok(ts, i) == Some(TokenView::Ident("file"@)) {
        let path = tok(ts, i + 1)->0->Str_0;
        let more = AuditView { audit_file: Some(path), ..audit };
        lemma_audit_order(ts, i + 2, start, more, vars);
    } else if tok(ts, i) == Some(TokenView::Ident("level"@)) {
        let level = audit_level(tok(ts, i + 1)->0->Ident_0)->0;
        let more = AuditView { audit_level: level, ..audit };
        lemma_audit_order(ts, i + 2, start, more, vars);
    }
}

proof fn lemma_audit_carries(
    ts: Seq<SpannedView>,
    other: Seq<SpannedView>,
    hi: int,
    vars: Map<Seq<char>, Seq<char>>,
    known: Map<Seq<char>, Seq<char>>,
    i: int,
    start: int,
    audit: AuditView,
)
    requires
        carries(ts, other, 0, hi, vars, known),
        ts.len() == other.len(),
        0 <= i <= ts.len(),
        audit_at(ts, i, start, audit).value is Ok,
    ensures
        audit_at(other, i, start, audit) == audit_at(ts, i, start, audit),
    decreases ts.len() - i,
{
    lemma_seen(ts, other, 0, hi, vars, known, i);
    if i < ts.len() {
        lemma_seen(ts, other, 0, hi, vars, known, i + 1);
    }
    if tok(ts, i) == Some(TokenView::Ident("file"@)) {
        let path = tok(ts, i + 1)->0->Str_0;
        let more = AuditView { audit_file: Some(path), ..audit };
        lemma_audit_carries(ts, other, hi, vars, known, i + 2, start, more);
    } else if tok(ts, i) == Some(TokenView::Ident("level"@)) {
        let level = audit_level(tok(ts, i + 1)->0->Ident_0)->0;
        let more = AuditView { audit_level: level, ..audit };
        lemma_audit_carries(ts, other, hi, vars, known, i + 2, start, more);
    }
}

/// A statement that is read without an error is in order behind its first token.
pub proof fn lemma_statement_order(ts: Seq<SpannedView>, i: int, built: Built)
    requires
        0 <= i < ts.len(),
        statement_at(ts, i, built).value is Ok,
    ensures
        i < statement_at(ts, i, built).end,
        in_order(ts, i + 1, statement_at(ts, i, built).end, built.vars),
        !(ts[i].token is VarRef),
        ts[i].token == TokenView::Let ==> statement_at(ts, i, built).end == i + 4,
{
    match tok(ts, i) {
        Some(TokenView::Let) => {
            lemma_let_order(ts, i + 1, built.vars);
        },
        Some(TokenView::Table) => {
            lemma_table_order(ts, i + 1, built.vars);
        },
        Some(TokenView::Audit) => {
            lemma_audit_order(ts, i + 1, i + 1, built.config.audit, built.vars);
        },
        _ => {},
    }
}

/// A statement reads the same in two sequences, up to what it does to the variables.
pub proof fn lemma_statement_carries(
    ts: Seq<SpannedView>,
    other: Seq<SpannedView>,
    hi: int,
    i: int,
    built: Built,
)
    requires
        carries(ts, other, 0, hi, built.vars, built.vars),
        ts.len() == other.len(),
        0 <= i < ts.len(),
        statement_at(ts, i, built).value is Ok,
        statement_at(ts, i, built).end <= hi,
    ensures
        statement_at(other, i, built) == statement_at(ts, i, built),
{
    let vars = built.vars;
    lemma_statement_order(ts, i, built);
    lemma_seen(ts, other, 0, hi, vars, vars, i);
    lemma_seen(ts, other, 0, hi, vars, vars, i + 1);
    match tok(ts, i) {
        Some(TokenView::Let) => {
            lemma_let_order(ts, i + 1, vars);
            lemma_let_carries(ts, other, 0, hi, vars, vars, i + 1);
        },
        Some(TokenView::Table) => {
            lemma_table_carries(ts, other, hi, vars, vars, i + 1);
        },
        Some(TokenView::Audit) => {
            lemma_audit_carries(ts, other, hi, vars, vars, i + 1, i + 1, built.config.audit);
        },
        Some(TokenView::Ident(_)) => {
            if i + 1 < ts.len() {
                lemma_seen(ts, other, 0, hi, vars, vars, i + 2);
            }
        },
        _ => {},
    }
}

/// Whether all that is known of variables in one place is known in another.
pub open spec fn knows(
    known: Map<Seq<char>, Seq<char>>,
    vars: Map<Seq<char>, Seq<char>>,
) -> bool {
    forall|n: Seq<char>| #[trigger]
        vars.dom().contains(n) ==> known.dom().contains(n) && known[n] == vars[n]
}

/// Whether `ts` stands at position `off` of `other`, and at or behind its last token a line
/// break, or nothing more.
pub open spec fn stands_at(ts: Seq<SpannedView>, other: Seq<SpannedView>, off: int) -> bool {
    &&& 0 <= off
    &&& off + ts.len() <= other.len()
    &&& off + ts.len() < other.len() ==> trails(ts) || other[off + ts.len()].token
        == TokenView::Newline
    &&& forall|k: int| 0 <= k < ts.len() ==> (#[trigger] ts[k]).token == other[off + k].token
}

proof fn lemma_stands_carries(
    ts: Seq<SpannedView>,
    other: Seq<SpannedView>,
    off: int,
    vars: Map<Seq<char>, Seq<char>>,
    known: Map<Seq<char>, Seq<char>>,
)
    requires
        stands_at(ts, other, off),
        knows(known, vars),
    ensures
        carries(ts, other, off, ts.len() as int, vars, known),
{
    assert forall|k: int| 0 <= k < ts.len() implies (pattern_value(
        (#[trigger] ts[k]).token,
        vars,
    ) matches Some(v) ==> pattern_value(other[off + k].token, known) == Some(v)) by {
        assert(ts[k].token == other[off + k].token);
    }
}

/// Reading on behind a definition or a rule of a project.
proof fn lemma_local_step(
    ts: Seq<SpannedView>,
    i: int,
    vars: Map<Seq<char>, Seq<char>>,
    acc: Seq<RuleView>,
    source: Seq<char>,
)
    requires
        0 <= i < ts.len(),
    ensures
        ts[i].token == TokenView::Newline ==> local_rules_at(ts, i, vars, acc, source)
            == local_rules_at(ts, i + 1, vars, acc, source),
        ts[i].token == TokenView::Let ==> ({
            let one = let_at(ts, i + 1, vars);
            match one.value {
                Ok((name, p)) => local_rules_at(ts, i, vars, acc, source) == local_rules_at(
                    ts,
                    i + 4,
                    vars.insert(name, p),
                    acc,
                    source,
                ),
                Err(_) => local_rules_at(ts, i, vars, acc, source) is Err,
            }
        }),
        ts[i].token != TokenView::Newline && ts[i].token != TokenView::Let && ts[i].token
            != TokenView::Table && ts[i].token != TokenView::Entry && ts[i].token
            != TokenView::Audit ==> ({
            let one = rule_at(ts, i, vars);
            if one.value is Ok && local_fault(one.value->Ok_0, source) is None {
                local_rules_at(ts, i, vars, acc, source) == local_rules_at(
                    ts,
                    one.end,
                    vars,
                    acc.push(one.value->Ok_0),
                    source,
                )
            } else {
                local_rules_at(ts, i, vars, acc, source) is Err
            }
        }),
        ts[i].token == TokenView::Table || ts[i].token == TokenView::Entry || ts[i].token
            == TokenView::Audit ==> local_rules_at(ts, i, vars, acc, source) is Err,
{
    if ts[i].token == TokenView::Let {
        if let_at(ts, i + 1, vars).value is Ok {
            lemma_let_order(ts, i + 1, vars);
        }
    } else if rule_at(ts, i, vars).value is Ok {
        lemma_rule_order(ts, i, vars);
    }
}

/// One step of reading the rules of a project is the same among other rules; yields where it
/// ends, what is known of variables behind it on either side, and the rule that it adds.
proof fn lemma_local_step_carries(
    ts: Seq<SpannedView>,
    other: Seq<SpannedView>,
    off: int,
    i: int,
    vars: Map<Seq<char>, Seq<char>>,
    known: Map<Seq<char>, Seq<char>>,
    acc: Seq<RuleView>,
    more: Seq<RuleView>,
    source: Seq<char>,
    place: Seq<char>,
) -> (r: (int, Map<Seq<char>, Seq<char>>, Map<Seq<char>, Seq<char>>, Seq<RuleView>))
    requires
        stands_at(ts, other, off),
        knows(known, vars),
        0 <= i < ts.len(),
        local_rules_at(ts, i, vars, acc, source) is Ok,
    ensures
        i < r.0 <= ts.len(),
        knows(r.2, r.1),
        local_rules_at(ts, i, vars, acc, source) == local_rules_at(
            ts,
            r.0,
            r.1,
            acc + r.3,
            source,
        ),
        local_rules_at(other, off + i, known, more, place) == local_rules_at(
            other,
            off + r.0,
            r.2,
            more + r.3,
            place,
        ),
{
    let none = Seq::<RuleView>::empty();
    let n = ts.len() as int;
    assert(off + (i + 1) == off + i + 1);
    assert(ts[i].token == other[off + i].token);
    lemma_stands_carries(ts, other, off, vars, known);
    lemma_local_step(ts, i, vars, acc, source);
    lemma_local_step(other, off + i, known, more, place);
    if ts[i].token == TokenView::Let {
        lemma_let_order(ts, i + 1, vars);
        lemma_let_carries(ts, other, off, n, vars, known, i + 1);
        let found = let_at(ts, i + 1, vars).value->Ok_0;
        assert(acc + none =~= acc && more + none =~= more);
        (i + 4, vars.insert(found.0, found.1), known.insert(found.0, found.1), none)
    } else if ts[i].token == TokenView::Newline {
        assert(acc + none =~= acc && more + none =~= more);
        (i + 1, vars, known, none)
    } else {
        let one = rule_at(ts, i, vars);
        lemma_rule_order(ts, i, vars);
        lemma_rule_carries(ts, other, off, n, vars, known, i);
        let rule = one.value->Ok_0;
        assert(local_fault(rule, place) is None);
        assert(acc + seq![rule] =~= acc.push(rule));
        assert(more + seq![rule] =~= more.push(rule));
        (one.end, vars, known, seq![rule])
    }
}

/// Rules of a project that can be read by themselves are read in the same way among others;
/// yields what is known of variables behind them, and the rules.
proof fn lemma_local_rules_carry(
    ts: Seq<SpannedView>,
    other: Seq<SpannedView>,
    off: int,
    i: int,
    vars: Map<Seq<char>, Seq<char>>,
    known: Map<Seq<char>, Seq<char>>,
    acc: Seq<RuleView>,
    more: Seq<RuleView>,
    source: Seq<char>,
    place: Seq<char>,
) -> (r: (Map<Seq<char>, Seq<char>>, Seq<RuleView>))
    requires
        stands_at(ts, other, off),
        knows(known, vars),
        0 <= i <= ts.len(),
        local_rules_at(ts, i, vars, acc, source) is Ok,
    ensures
        local_rules_at(ts, i, vars, acc, source) == Ok::<Seq<RuleView>, ErrorView>(acc + r.1),
        local_rules_at(other, off + i, known, more, place) == local_rules_at(
            other,
            off + ts.len(),
            r.0,
            more + r.1,
            place,
        ),
    decreases ts.len() - i,
{
    if i == ts.len() {
        let none = Seq::<RuleView>::empty();
        assert(acc + none =~= acc && more + none =~= more);
        (known, none)
    } else {
        let (e, v, w, added) = lemma_local_step_carries(
            ts,
            other,
            off,
            i,
            vars,
            known,
            acc,
            more,
            source,
            place,
        );
        let (k, rest) = lemma_local_rules_carry(
            ts,
            other,
            off,
            e,
            v,
            w,
            acc + added,
            more + added,
            source,
            place,
        );
        assert((acc + added) + rest =~= acc + (added + rest));
        assert((more + added) + rest =~= more + (added + rest));
        (k, added + rest)
    }
}

/// Two rules files of a project joined by a line break yield the rules of the first, and then
/// those of the second, wherever the files come from.
pub proof fn joined_files_yield_the_rules_of_both(
    a: Seq<char>,
    b: Seq<char>,
    first_source: Seq<char>,
    second_source: Seq<char>,
    source: Seq<char>,
)
    requires
        local_rules_of(a, first_source) is Ok,
        local_rules_of(b, second_source) is Ok,
    ensures
        local_rules_of(a + "\n"@ + b, source) == Ok::<Seq<RuleView>, ErrorView>(
            local_rules_of(a, first_source)->Ok_0 + local_rules_of(b, second_source)->Ok_0,
        ),
{
    joined_texts_are_read_in_turn(a, b);
    let ta = tokens_of(a)->Ok_0;
    let tb = tokens_of(b)->Ok_0;
    let all = tokens_of(a + "\n"@ + b)->Ok_0;
    let n = ta.len() as int;
    let none = Seq::<RuleView>::empty();
    let unknown = Map::<Seq<char>, Seq<char>>::empty();
    assert forall|k: int| 0 <= k < n implies (#[trigger] ta[k]).token == all[0 + k].token by {
        assert(all[k].token == ta[k].token);
    }
    assert(stands_at(ta, all, 0));
    let (known, rules) = lemma_local_rules_carry(
        ta,
        all,
        0,
        0,
        unknown,
        unknown,
        none,
        none,
        first_source,
        source,
    );
    assert(none + rules =~= rules);
    let tail = without_break(tb);
    let ended = trails(ta);
    let led = tb.len() > 0 && tb[0].token == TokenView::Newline;
    let m = if ended { n } else { n + 1 };
    let off = if led { m - 1 } else { m };
    assert forall|k: int| 0 <= k < tb.len() implies (#[trigger] tb[k]).token == all[off
        + k].token by {
        if led {
            if k > 0 {
                assert(tail[k - 1] == tb[k]);
                assert(all[m + (k - 1)].token == tail[k - 1].token);
            } else if ended {
                assert(all[n - 1].token == ta[n - 1].token);
            }
        } else {
            assert(all[m + k].token == tail[k].token);
        }
    }
    assert(stands_at(tb, all, off));
    let from: int = if led && ended { 1 } else { 0 };
    let (_, others) = lemma_local_rules_carry(
        tb,
        all,
        off,
        from,
        unknown,
        known,
        none,
        rules,
        second_source,
        source,
    );
    assert(none + others =~= others);
    assert(local_rules_at(all, n, known, rules, source) == local_rules_at(
        all,
        off + from,
        known,
        rules,
        source,
    ));
}

} // verus!

//! What holds of the rule language as a whole.
use vstd::prelude::*;
use crate::config::blank_config;
use crate::dsl_grammar::{config_of, let_at, pattern_at, program_at, statement_at, tok, Built};
use crate::error::ErrorView;
use crate::grammar_properties::{
    carries, is_pattern, lemma_let_order, lemma_statement_carries, lemma_statement_order,
    pattern_value,
};
use crate::lexer::{token_at, token_then, tokens_from, tokens_of, SpannedView, TokenAt, TokenView};
use crate::text::{find_from, lemma_find_bounds};

verus! {

/// Whether no two line breaks follow each other.
pub open spec fn breaks_apart(ts: Seq<SpannedView>) -> bool {
    forall|i: int|
        0 <= i && i + 1 < ts.len() ==> !((#[trigger] ts[i]).token is Newline && ts[i
            + 1].token is Newline)
}

proof fn lemma_breaks_apart(s: Seq<char>, i: int, line: nat, col: nat, broken: bool)
    ensures
        tokens_from(s, i, line, col, broken) matches Ok(ts) ==> breaks_apart(ts) && (broken
            && ts.len() > 0 ==> !(ts[0].token is Newline)),
    decreases s.len() - i,
{
    if 0 <= i < s.len() {
        if s[i] == ' ' || s[i] == '\t' || s[i] == '\r' {
            lemma_breaks_apart(s, i + 1, line, col + 1, broken);
        } else if s[i] == '#' {
            let end = find_from(s, i, '\n');
            if i < end <= s.len() {
                lemma_breaks_apart(s, end, line, col, broken);
            }
        } else if s[i] == '\n' {
            lemma_breaks_apart(s, i + 1, line + 1, 1, true);
            if !broken {
                lemma_token_then(
                    TokenView::Newline,
                    line,
                    col,
                    tokens_from(s, i + 1, line + 1, 1, true),
                );
            }
        } else {
            match token_at(s, i) {
                TokenAt::Found(token, end) => {
                    if i < end <= s.len() {
                        let rest = tokens_from(s, end, line, (col + (end - i)) as nat, false);
                        lemma_breaks_apart(s, end, line, (col + (end - i)) as nat, false);
                        lemma_token_then(token, line, col, rest);
                    }
                },
                _ => {},
            }
        }
    }
}

proof fn lemma_token_then(
    token: TokenView,
    line: nat,
    col: nat,
    rest: Result<Seq<SpannedView>, ErrorView>,
)
    requires
        rest matches Ok(ts) ==> breaks_apart(ts) && (token is Newline && ts.len() > 0
            ==> !(ts[0].token is Newline)),
    ensures
        token_then(token, line, col, rest) matches Ok(ts) ==> breaks_apart(ts) && ts.len() > 0
            && ts[0].token == token,
{
    if rest is Ok {
        let tail = rest->Ok_0;
        let all = seq![SpannedView { token, line, col }] + tail;
        assert forall|i: int| 0 <= i && i + 1 < all.len() implies !((
        #[trigger] all[i]).token is Newline && all[i + 1].token is Newline) by {
            if i > 0 {
                assert(all[i] == tail[i - 1]);
                assert(all[i + 1] == tail[i]);
            } else {
                assert(all[1] == tail[0]);
            }
        }
    }
}

/// Of line breaks in a row, with blanks and comments between them, one token is kept.
pub proof fn line_breaks_collapse(s: Seq<char>)
    ensures
        tokens_of(s) matches Ok(ts) ==> breaks_apart(ts),
{
    lemma_breaks_apart(s, 0, 1, 1, false);
}

/// A comment is passed over, up to the end of its line.
pub proof fn comments_are_skipped(s: Seq<char>, i: int, line: nat, col: nat, broken: bool)
    requires
        0 <= i < s.len(),
        s[i] == '#',
    ensures
        tokens_from(s, i, line, col, broken) == tokens_from(
            s,
            find_from(s, i, '\n'),
            line,
            col,
            broken,
        ),
{
    lemma_find_bounds(s, i + 1, '\n');
}

/// A variable stands for its pattern: where one is called for, a reference reads as the
/// pattern written out.
pub proof fn variables_stand_for_patterns(
    ts: Seq<SpannedView>,
    i: int,
    name: Seq<char>,
    vars: Map<Seq<char>, Seq<char>>,
)
    requires
        tok(ts, i) == Some(TokenView::VarRef(name)),
        vars.dom().contains(name),
    ensures
        pattern_at(ts, i, vars) == pattern_at(
            ts.update(i, SpannedView { token: TokenView::Regex(vars[name]), ..ts[i] }),
            i,
            vars,
        ),
{
}

/// A token with a pattern in place of a reference to a variable.
pub open spec fn inlined(token: TokenView, name: Seq<char>, p: Seq<char>) -> TokenView {
    if token == TokenView::VarRef(name) {
        TokenView::Regex(p)
    } else {
        token
    }
}

/// Whether one sequence of tokens is another with a pattern written out in place of every
/// reference to a variable.
pub open spec fn inlines(
    ts: Seq<SpannedView>,
    other: Seq<SpannedView>,
    name: Seq<char>,
    p: Seq<char>,
) -> bool {
    &&& other.len() == ts.len()
    &&& forall|k: int|
        0 <= k < ts.len() ==> (#[trigger] other[k]).token == inlined(ts[k].token, name, p)
}

/// Whether the definition of a variable begins at a position.
pub open spec fn defines(ts: Seq<SpannedView>, d: int, name: Seq<char>) -> bool {
    tok(ts, d) == Some(TokenView::Let) && tok(ts, d + 1) == Some(TokenView::Ident(name))
}

/// Whether a variable is defined once, at `d`, by a pattern that is written out, and in
/// front of every reference to it.
pub open spec fn defined_first(
    ts: Seq<SpannedView>,
    d: int,
    name: Seq<char>,
    p: Seq<char>,
) -> bool {
    &&& 0 <= d
    &&& defines(ts, d, name)
    &&& tok(ts, d + 2) == Some(TokenView::Equals)
    &&& tok(ts, d + 3) == Some(TokenView::Regex(p))
    &&& forall|k: int| #[trigger] defines(ts, k, name) ==> k == d
    &&& forall|u: int|
        0 <= u < ts.len() && (#[trigger] ts[u]).token == TokenView::VarRef(name) ==> d < u
}

/// Whether two outcomes are both errors, or the same.
pub open spec fn same_outcome<T>(a: Result<T, ErrorView>, b: Result<T, ErrorView>) -> bool {
    a is Err && b is Err || a == b
}

proof fn lemma_inlined_statement(
    ts: Seq<SpannedView>,
    other: Seq<SpannedView>,
    d: int,
    name: Seq<char>,
    p: Seq<char>,
    i: int,
    built: Built,
)
    requires
        inlines(ts, other, name, p),
        defined_first(ts, d, name, p),
        0 <= i < ts.len(),
        if built.vars.dom().contains(name) {
            built.vars[name] == p && d < i
        } else {
            i <= d
        },
    ensures
        ({
            let one = statement_at(ts, i, built);
            let two = statement_at(other, i, built);
            &&& one.value is Ok <==> two.value is Ok
            &&& one.value is Ok ==> one == two && i < one.end <= ts.len() && {
                let more = one.value->Ok_0;
                if more.vars.dom().contains(name) {
                    more.vars[name] == p && d < one.end
                } else {
                    one.end <= d
                }
            }
        }),
{
    let vars = built.vars;
    let n = ts.len() as int;
    let one = statement_at(ts, i, built);
    let two = statement_at(other, i, built);
    assert forall|k: int| 0 <= k < n implies ((#[trigger] ts[k]).token == other[0 + k].token
        || is_pattern(ts[k].token) && is_pattern(other[0 + k].token)) && (other[k].token
        == inlined(ts[k].token, name, p)) by {}
    assert(carries(ts, other, 0, n, vars, vars));
    assert(other[d].token == TokenView::Let);
    let hi = if vars.dom().contains(name) { n } else { d };
    assert forall|k: int| 0 <= k < hi implies (pattern_value(
        (#[trigger] other[k]).token,
        vars,
    ) matches Some(v) ==> pattern_value(ts[0 + k].token, vars) == Some(v)) by {
        assert(other[k].token == inlined(ts[k].token, name, p));
        if !vars.dom().contains(name) {
            assert(ts[k].token != TokenView::VarRef(name));
        }
    }
    assert forall|k: int| 0 <= k < n implies (#[trigger] other[k]).token == ts[0 + k].token
        || is_pattern(other[k].token) && is_pattern(ts[0 + k].token) by {
        assert(other[k].token == inlined(ts[k].token, name, p));
    }
    assert(carries(other, ts, 0, hi, vars, vars));
    if one.value is Ok {
        lemma_statement_order(ts, i, built);
        lemma_statement_carries(ts, other, n, i, built);
    }
    if i == d {
        assert(other[d + 1].token == inlined(ts[d + 1].token, name, p));
        assert(other[d + 2].token == inlined(ts[d + 2].token, name, p));
        assert(other[d + 3].token == inlined(ts[d + 3].token, name, p));
        assert(let_at(ts, d + 1, vars).value == Ok::<(Seq<char>, Seq<char>), ErrorView>((name, p)));
    } else {
        if two.value is Ok {
            lemma_statement_order(other, i, built);
            if !vars.dom().contains(name) {
                assert(two.end <= d);
            }
            lemma_statement_carries(other, ts, hi, i, built);
        }
        if one.value is Ok {
            if !vars.dom().contains(name) {
                assert(ts[d].token == TokenView::Let);
                assert(one.end <= d);
            }
            if ts[i].token == TokenView::Let {
                lemma_let_order(ts, i + 1, vars);
                let other_name = let_at(ts, i + 1, vars).value->Ok_0.0;
                if other_name == name {
                    assert(defines(ts, i, name));
                }
            }
        }
    }
}

proof fn lemma_inlined_program(
    ts: Seq<SpannedView>,
    other: Seq<SpannedView>,
    d: int,
    name: Seq<char>,
    p: Seq<char>,
    i: int,
    built: Built,
)
    requires
        inlines(ts, other, name, p),
        defined_first(ts, d, name, p),
        0 <= i <= ts.len(),
        if built.vars.dom().contains(name) {
            built.vars[name] == p && d < i
        } else {
            i <= d
        },
    ensures
        same_outcome(program_at(ts, i, built).value, program_at(other, i, built).value),
    decreases ts.len() - i,
{
    if i < ts.len() {
        lemma_inlined_statement(ts, other, d, name, p, i, built);
        let one = statement_at(ts, i, built);
        if one.value is Ok {
            lemma_inlined_program(ts, other, d, name, p, one.end, one.value->Ok_0);
        }
    }
}

/// A variable reads as its pattern throughout a text: with a pattern in place of every
/// reference to a variable that is defined once, and first, a text yields the same
/// configuration, or is in error as before.
pub proof fn variables_read_as_their_patterns(
    input: Seq<char>,
    other: Seq<char>,
    d: int,
    name: Seq<char>,
    p: Seq<char>,
)
    requires
        tokens_of(input) is Ok,
        tokens_of(other) is Ok,
        inlines(tokens_of(input)->Ok_0, tokens_of(other)->Ok_0, name, p),
        defined_first(tokens_of(input)->Ok_0, d, name, p),
    ensures
        same_outcome(config_of(input), config_of(other)),
{
    lemma_inlined_program(
        tokens_of(input)->Ok_0,
        tokens_of(other)->Ok_0,
        d,
        name,
        p,
        0,
        Built { config: blank_config(), vars: Map::empty() },
    );
}

proof fn lemma_undefined_program(
    ts: Seq<SpannedView>,
    u: int,
    name: Seq<char>,
    i: int,
    built: Built,
)
    requires
        0 <= i <= u < ts.len(),
        ts[u].token == TokenView::VarRef(name),
        forall|k: int| #[trigger] defines(ts, k, name) ==> u < k,
        !built.vars.dom().contains(name),
    ensures
        program_at(ts, i, built).value is Err,
    decreases ts.len() - i,
{
    let one = statement_at(ts, i, built);
    if one.value is Ok {
        lemma_statement_order(ts, i, built);
        assert(one.end <= u);
        if ts[i].token == TokenView::Let {
            lemma_let_order(ts, i + 1, built.vars);
            if let_at(ts, i + 1, built.vars).value->Ok_0.0 == name {
                assert(defines(ts, i, name));
            }
        }
        lemma_undefined_program(ts, u, name, one.end, one.value->Ok_0);
    }
}

/// A reference to a variable that is not defined in front of it is an error.
pub proof fn undefined_variables_are_errors(input: Seq<char>, u: int, name: Seq<char>)
    requires
        tokens_of(input) is Ok,
        tok(tokens_of(input)->Ok_0, u) == Some(TokenView::VarRef(name)),
        forall|k: int| #[trigger] defines(tokens_of(input)->Ok_0, k, name) ==> u < k,
    ensures
        config_of(input) is Err,
{
    lemma_undefined_program(
        tokens_of(input)->Ok_0,
        u,
        name,
        0,
        Built { config: blank_config(), vars: Map::empty() },
    );
}

} // verus!

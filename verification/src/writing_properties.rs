//! How rules and settings are written: what is written down is what is read.
use vstd::prelude::*;
use crate::config::{is_outside, Action, AuditLevel, AuditView, ConfigView, RuleView, TableView};
use crate::dsl_grammar::{
    action_at, audit_at, conditions_at, config_of, default_action_at, ident_at, local_rules_at,
    opts_at, params_at, program_at, rule_at, rules_at, skip_newlines, statement_at, table_at, tok,
    tool_at, Built, Parsed,
};
use crate::error::ErrorView;
use crate::grammar_properties::lemma_rule_order;
use crate::lexer::{tokens_of, SpannedView, TokenView};
use crate::patterns::escaped;
use crate::strmap::{dict, lemma_dict_inserted, lemma_key_from};

verus! {

proof fn lemma_keywords()
    ensures
        "tool"@ != "command"@,
        "tool"@ != "file_path"@,
        "tool"@ != "subagent_type"@,
        "tool"@ != "prompt"@,
        "tool"@ != "cwd"@,
        "tool"@ != "arg"@,
        "tool"@ != "stdin"@,
        "tool"@ != "stdout"@,
        "tool"@ != "env"@,
        "tool"@ != "has_file"@,
        "command"@ != "file_path"@,
        "command"@ != "subagent_type"@,
        "command"@ != "prompt"@,
        "command"@ != "cwd"@,
        "command"@ != "arg"@,
        "command"@ != "stdin"@,
        "command"@ != "stdout"@,
        "command"@ != "env"@,
        "command"@ != "has_file"@,
        "file_path"@ != "subagent_type"@,
        "file_path"@ != "prompt"@,
        "file_path"@ != "cwd"@,
        "file_path"@ != "arg"@,
        "file_path"@ != "stdin"@,
        "file_path"@ != "stdout"@,
        "file_path"@ != "env"@,
        "file_path"@ != "has_file"@,
        "subagent_type"@ != "prompt"@,
        "subagent_type"@ != "cwd"@,
        "subagent_type"@ != "arg"@,
        "subagent_type"@ != "stdin"@,
        "subagent_type"@ != "stdout"@,
        "subagent_type"@ != "env"@,
        "subagent_type"@ != "has_file"@,
        "prompt"@ != "cwd"@,
        "prompt"@ != "arg"@,
        "prompt"@ != "stdin"@,
        "prompt"@ != "stdout"@,
        "prompt"@ != "env"@,
        "prompt"@ != "has_file"@,
        "cwd"@ != "arg"@,
        "cwd"@ != "stdin"@,
        "cwd"@ != "stdout"@,
        "cwd"@ != "env"@,
        "cwd"@ != "has_file"@,
        "arg"@ != "stdin"@,
        "arg"@ != "stdout"@,
        "arg"@ != "env"@,
        "arg"@ != "has_file"@,
        "stdin"@ != "stdout"@,
        "stdin"@ != "env"@,
        "stdin"@ != "has_file"@,
        "stdout"@ != "env"@,
        "stdout"@ != "has_file"@,
        "env"@ != "has_file"@,
{
    reveal_strlit("tool");
    reveal_strlit("command");
    reveal_strlit("file_path");
    reveal_strlit("subagent_type");
    reveal_strlit("prompt");
    reveal_strlit("cwd");
    reveal_strlit("arg");
    reveal_strlit("stdin");
    reveal_strlit("stdout");
    reveal_strlit("env");
    reveal_strlit("has_file");
    assert("tool"@.len() == 4);
    assert("command"@.len() == 7);
    assert("file_path"@.len() == 9);
    assert("subagent_type"@.len() == 13);
    assert("prompt"@.len() == 6);
    assert("cwd"@.len() == 3);
    assert("arg"@.len() == 3);
    assert("stdin"@.len() == 5);
    assert("stdout"@.len() == 6);
    assert("env"@.len() == 3);
    assert("has_file"@.len() == 8);
    assert("cwd"@[0] == 'c' && "arg"@[0] == 'a' && "env"@[0] == 'e');
    assert("prompt"@[0] == 'p' && "stdout"@[0] == 's');
}

/// A condition is a keyword and a pattern, or with `has_file` a path in quotes. It sets the
/// field of the rule that has the name of the keyword, and no other; behind `!` it sets the
/// exception of that name. A condition that stands twice is set by the later one.
pub proof fn conditions_set_the_field_of_their_name(
    ts: Seq<SpannedView>,
    i: int,
    vars: Map<Seq<char>, Seq<char>>,
    rule: RuleView,
    p: Seq<char>,
)
    ensures
        tok(ts, i) == Some(TokenView::Ident("tool"@)) && tok(ts, i + 1) == Some(
            TokenView::Regex(p),
        ) ==> conditions_at(ts, i, vars, rule) == conditions_at(
            ts,
            i + 2,
            vars,
            RuleView { tool: Some(p), ..rule },
        ),
        tok(ts, i) == Some(TokenView::Ident("command"@)) && tok(ts, i + 1) == Some(
            TokenView::Regex(p),
        ) ==> conditions_at(ts, i, vars, rule) == conditions_at(
            ts,
            i + 2,
            vars,
            RuleView { command: Some(p), ..rule },
        ),
        tok(ts, i) == Some(TokenView::Ident("file_path"@)) && tok(ts, i + 1) == Some(
            TokenView::Regex(p),
        ) ==> conditions_at(ts, i, vars, rule) == conditions_at(
            ts,
            i + 2,
            vars,
            RuleView { file_path: Some(p), ..rule },
        ),
        tok(ts, i) == Some(TokenView::Ident("subagent_type"@)) && tok(ts, i + 1) == Some(
            TokenView::Regex(p),
        ) ==> conditions_at(ts, i, vars, rule) == conditions_at(
            ts,
            i + 2,
            vars,
            RuleView { subagent_type: Some(p), ..rule },
        ),
        tok(ts, i) == Some(TokenView::Ident("prompt"@)) && tok(ts, i + 1) == Some(
            TokenView::Regex(p),
        ) ==> conditions_at(ts, i, vars, rule) == conditions_at(
            ts,
            i + 2,
            vars,
            RuleView { prompt: Some(p), ..rule },
        ),
        tok(ts, i) == Some(TokenView::Ident("cwd"@)) && tok(ts, i + 1) == Some(
            TokenView::Regex(p),
        ) ==> conditions_at(ts, i, vars, rule) == conditions_at(
            ts,
            i + 2,
            vars,
            RuleView { cwd: Some(p), ..rule },
        ),
        tok(ts, i) == Some(TokenView::Ident("arg"@)) && tok(ts, i + 1) == Some(
            TokenView::Regex(p),
        ) ==> conditions_at(ts, i, vars, rule) == conditions_at(
            ts,
            i + 2,
            vars,
            RuleView { arg: Some(p), ..rule },
        ),
        tok(ts, i) == Some(TokenView::Ident("stdin"@)) && tok(ts, i + 1) == Some(
            TokenView::Regex(p),
        ) ==> conditions_at(ts, i, vars, rule) == conditions_at(
            ts,
            i + 2,
            vars,
            RuleView { stdin: Some(p), ..rule },
        ),
        tok(ts, i) == Some(TokenView::Ident("stdout"@)) && tok(ts, i + 1) == Some(
            TokenView::Regex(p),
        ) ==> conditions_at(ts, i, vars, rule) == conditions_at(
            ts,
            i + 2,
            vars,
            RuleView { stdout: Some(p), ..rule },
        ),
        tok(ts, i) == Some(TokenView::Ident("env"@)) && tok(ts, i + 1) == Some(
            TokenView::Regex(p),
        ) ==> conditions_at(ts, i, vars, rule) == conditions_at(
            ts,
            i + 2,
            vars,
            RuleView { env: Some(p), ..rule },
        ),
        tok(ts, i) == Some(TokenView::Ident("has_file"@)) && tok(ts, i + 1) == Some(
            TokenView::Str(p),
        ) ==> conditions_at(ts, i, vars, rule) == conditions_at(
            ts,
            i + 2,
            vars,
            RuleView { has_file: Some(p), ..rule },
        ),
        tok(ts, i) == Some(TokenView::Bang) && tok(ts, i + 1) == Some(
            TokenView::Ident("tool"@),
        ) && tok(ts, i + 2) == Some(TokenView::Regex(p)) ==> conditions_at(
            ts,
            i,
            vars,
            rule,
        ).value == Err::<RuleView, ErrorView>(
            ErrorView::NegationUnsupported { field: "tool"@ },
        ),
        tok(ts, i) == Some(TokenView::Bang) && tok(ts, i + 1) == Some(
            TokenView::Ident("command"@),
        ) && tok(ts, i + 2) == Some(TokenView::Regex(p)) ==> conditions_at(
            ts,
            i,
            vars,
            rule,
        ).value == Err::<RuleView, ErrorView>(
            ErrorView::NegationUnsupported { field: "command"@ },
        ),
        tok(ts, i) == Some(TokenView::Bang) && tok(ts, i + 1) == Some(
            TokenView::Ident("file_path"@),
        ) && tok(ts, i + 2) == Some(TokenView::Regex(p)) ==> conditions_at(
            ts,
            i,
            vars,
            rule,
        ).value == Err::<RuleView, ErrorView>(
            ErrorView::NegationUnsupported { field: "file_path"@ },
        ),
        tok(ts, i) == Some(TokenView::Bang) && tok(ts, i + 1) == Some(
            TokenView::Ident("subagent_type"@),
        ) && tok(ts, i + 2) == Some(TokenView::Regex(p)) ==> conditions_at(
            ts,
            i,
            vars,
            rule,
        ).value == Err::<RuleView, ErrorView>(
            ErrorView::NegationUnsupported { field: "subagent_type"@ },
        ),
        tok(ts, i) == Some(TokenView::Bang) && tok(ts, i + 1) == Some(
            TokenView::Ident("prompt"@),
        ) && tok(ts, i + 2) == Some(TokenView::Regex(p)) ==> conditions_at(
            ts,
            i,
            vars,
            rule,
        ).value == Err::<RuleView, ErrorView>(
            ErrorView::NegationUnsupported { field: "prompt"@ },
        ),
        tok(ts, i) == Some(TokenView::Bang) && tok(ts, i + 1) == Some(
            TokenView::Ident("cwd"@),
        ) && tok(ts, i + 2) == Some(TokenView::Regex(p)) ==> conditions_at(ts, i, vars, rule)
            == conditions_at(ts, i + 3, vars, RuleView { cwd_not: Some(p), ..rule }),
        tok(ts, i) == Some(TokenView::Bang) && tok(ts, i + 1) == Some(
            TokenView::Ident("arg"@),
        ) && tok(ts, i + 2) == Some(TokenView::Regex(p)) ==> conditions_at(ts, i, vars, rule)
            == conditions_at(ts, i + 3, vars, RuleView { arg_not: Some(p), ..rule }),
        tok(ts, i) == Some(TokenView::Bang) && tok(ts, i + 1) == Some(
            TokenView::Ident("stdin"@),
        ) && tok(ts, i + 2) == Some(TokenView::Regex(p)) ==> conditions_at(ts, i, vars, rule)
            == conditions_at(ts, i + 3, vars, RuleView { stdin_not: Some(p), ..rule }),
        tok(ts, i) == Some(TokenView::Bang) && tok(ts, i + 1) == Some(
            TokenView::Ident("stdout"@),
        ) && tok(ts, i + 2) == Some(TokenView::Regex(p)) ==> conditions_at(ts, i, vars, rule)
            == conditions_at(ts, i + 3, vars, RuleView { stdout_not: Some(p), ..rule }),
        tok(ts, i) == Some(TokenView::Bang) && tok(ts, i + 1) == Some(
            TokenView::Ident("env"@),
        ) && tok(ts, i + 2) == Some(TokenView::Regex(p)) ==> conditions_at(ts, i, vars, rule)
            == conditions_at(ts, i + 3, vars, RuleView { env_not: Some(p), ..rule }),
        tok(ts, i) == Some(TokenView::Bang) && tok(ts, i + 1) == Some(
            TokenView::Ident("has_file"@),
        ) && tok(ts, i + 2) == Some(TokenView::Str(p)) ==> conditions_at(ts, i, vars, rule)
            == conditions_at(ts, i + 3, vars, RuleView { has_file_not: Some(p), ..rule }),
        tok(ts, i) == Some(TokenView::Arrow) ==> conditions_at(ts, i, vars, rule) == (Parsed {
            value: Ok(rule),
            end: i,
        }),
{
    lemma_keywords();
}

/// The tokens of one condition, if it is set.
pub open spec fn condition_tokens(
    keyword: Seq<char>,
    p: Option<Seq<char>>,
    negated: bool,
) -> Seq<TokenView> {
    match p {
        Some(p) => (if negated {
            seq![TokenView::Bang]
        } else {
            Seq::empty()
        }) + seq![
            TokenView::Ident(keyword),
            if keyword == "has_file"@ {
                TokenView::Str(p)
            } else {
                TokenView::Regex(p)
            },
        ],
        None => Seq::empty(),
    }
}

/// The tokens of condition number `k` of a rule, in the order in which they are written.
pub open spec fn part(rule: RuleView, k: int) -> Seq<TokenView> {
    if k == 0 {
        condition_tokens("tool"@, rule.tool, false)
    } else if k == 1 {
        condition_tokens("command"@, rule.command, false)
    } else if k == 2 {
        condition_tokens("file_path"@, rule.file_path, false)
    } else if k == 3 {
        condition_tokens("subagent_type"@, rule.subagent_type, false)
    } else if k == 4 {
        condition_tokens("prompt"@, rule.prompt, false)
    } else if k == 5 {
        condition_tokens("cwd"@, rule.cwd, false)
    } else if k == 6 {
        condition_tokens("arg"@, rule.arg, false)
    } else if k == 7 {
        condition_tokens("stdin"@, rule.stdin, false)
    } else if k == 8 {
        condition_tokens("stdout"@, rule.stdout, false)
    } else if k == 9 {
        condition_tokens("env"@, rule.env, false)
    } else if k == 10 {
        condition_tokens("has_file"@, rule.has_file, false)
    } else if k == 11 {
        condition_tokens("cwd"@, rule.cwd_not, true)
    } else if k == 12 {
        condition_tokens("arg"@, rule.arg_not, true)
    } else if k == 13 {
        condition_tokens("stdin"@, rule.stdin_not, true)
    } else if k == 14 {
        condition_tokens("stdout"@, rule.stdout_not, true)
    } else if k == 15 {
        condition_tokens("env"@, rule.env_not, true)
    } else if k == 16 {
        condition_tokens("has_file"@, rule.has_file_not, true)
    } else {
        Seq::empty()
    }
}

/// The tokens of the conditions of a rule from number `k` on.
pub open spec fn parts_from(rule: RuleView, k: int) -> Seq<TokenView>
    decreases 17 - k,
{
    if k >= 17 {
        Seq::empty()
    } else {
        part(rule, k) + parts_from(rule, k + 1)
    }
}

/// The tokens of the list of flags that take an argument.
pub open spec fn opts_tokens(opts: Seq<Seq<char>>) -> Seq<TokenView> {
    opts.map_values(|f: Seq<char>| TokenView::FlagLit(f))
}

/// The tokens of the action of a rule.
pub open spec fn action_tokens(rule: RuleView) -> Seq<TokenView> {
    match rule.action {
        Action::Allow => seq![TokenView::Allow],
        Action::Deny => seq![TokenView::Deny],
        Action::Passthrough => seq![TokenView::Passthrough],
        Action::ForcePassthrough => seq![TokenView::Force, TokenView::Passthrough],
        Action::Forward => seq![TokenView::Forward, TokenView::Ident(rule.target->0)],
        Action::Evaluate => seq![TokenView::Evaluate] + (match rule.target {
            Some(name) => seq![TokenView::Ident("target"@), TokenView::Ident(name)],
            None => Seq::empty(),
        }) + (match rule.flag_arg {
            Some(flag) => seq![TokenView::Flag, TokenView::FlagLit(flag)],
            None => Seq::empty(),
        }) + (match rule.positional {
            Some(n) => seq![TokenView::Skip, TokenView::Number(n as nat)],
            None => Seq::empty(),
        }) + (if rule.opts_with_args.len() > 0 {
            seq![TokenView::Opts, TokenView::LBracket] + opts_tokens(rule.opts_with_args) + seq![
                TokenView::RBracket,
            ]
        } else {
            Seq::empty()
        }),
    }
}

/// The tokens of a rule.
pub open spec fn rule_tokens(rule: RuleView) -> Seq<TokenView> {
    parts_from(rule, 0) + seq![TokenView::Arrow] + action_tokens(rule) + (match rule.reason {
        Some(reason) => seq![TokenView::Str(reason)],
        None => Seq::empty(),
    })
}

/// Whether some tokens stand at a position.
pub open spec fn stand_at(ts: Seq<SpannedView>, i: int, tokens: Seq<TokenView>) -> bool {
    &&& 0 <= i
    &&& i + tokens.len() <= ts.len()
    &&& forall|k: int| 0 <= k < tokens.len() ==> #[trigger] ts[i + k].token == tokens[k]
}

/// Whether a rule has what its action takes, and nothing else.
pub open spec fn suits_its_action(rule: RuleView) -> bool {
    &&& rule.action == Action::Forward ==> rule.target is Some
    &&& rule.action != Action::Forward && rule.action != Action::Evaluate ==> rule.target is None
    &&& rule.action != Action::Evaluate ==> rule.flag_arg is None && rule.positional is None
        && rule.opts_with_args.len() == 0
}

pub proof fn lemma_stand_apart(
    ts: Seq<SpannedView>,
    i: int,
    a: Seq<TokenView>,
    b: Seq<TokenView>,
)
    requires
        stand_at(ts, i, a + b),
    ensures
        stand_at(ts, i, a),
        stand_at(ts, i + a.len(), b),
{
    let all = a + b;
    assert forall|k: int| 0 <= k < a.len() implies #[trigger] ts[i + k].token == a[k] by {
        assert(all[k] == a[k]);
    }
    let j = i + a.len();
    assert forall|k: int| 0 <= k < b.len() implies #[trigger] ts[j + k].token == b[k] by {
        assert(all[a.len() + k] == b[k]);
        assert(ts[i + (a.len() + k)].token == all[a.len() + k]);
    }
}

proof fn lemma_one_condition(
    ts: Seq<SpannedView>,
    i: int,
    vars: Map<Seq<char>, Seq<char>>,
    rule: RuleView,
    keyword: Seq<char>,
    p: Seq<char>,
    negated: bool,
)
    requires
        stand_at(ts, i, condition_tokens(keyword, Some(p), negated)),
    ensures
        tok(ts, i) == Some(if negated { TokenView::Bang } else { TokenView::Ident(keyword) }),
        !negated ==> tok(ts, i + 1) == Some(
            if keyword == "has_file"@ {
                TokenView::Str(p)
            } else {
                TokenView::Regex(p)
            },
        ),
        negated ==> tok(ts, i + 1) == Some(TokenView::Ident(keyword)),
        negated ==> tok(ts, i + 2) == Some(
            if keyword == "has_file"@ {
                TokenView::Str(p)
            } else {
                TokenView::Regex(p)
            },
        ),
{
    let tokens = condition_tokens(keyword, Some(p), negated);
    assert(ts[i + 0].token == tokens[0]);
    assert(ts[i + 1].token == tokens[1]);
    if negated {
        assert(ts[i + 2].token == tokens[2]);
    }
}

/// `rule` with its first `n` conditions only, in the order in which they are written.
spec fn begun(rule: RuleView, n: int) -> RuleView {
    RuleView {
        tool: if n > 0 {
            rule.tool
        } else {
            None
        },
        command: if n > 1 {
            rule.command
        } else {
            None
        },
        file_path: if n > 2 {
            rule.file_path
        } else {
            None
        },
        subagent_type: if n > 3 {
            rule.subagent_type
        } else {
            None
        },
        prompt: if n > 4 {
            rule.prompt
        } else {
            None
        },
        cwd: if n > 5 {
            rule.cwd
        } else {
            None
        },
        arg: if n > 6 {
            rule.arg
        } else {
            None
        },
        stdin: if n > 7 {
            rule.stdin
        } else {
            None
        },
        stdout: if n > 8 {
            rule.stdout
        } else {
            None
        },
        env: if n > 9 {
            rule.env
        } else {
            None
        },
        has_file: if n > 10 {
            rule.has_file
        } else {
            None
        },
        cwd_not: if n > 11 {
            rule.cwd_not
        } else {
            None
        },
        arg_not: if n > 12 {
            rule.arg_not
        } else {
            None
        },
        stdin_not: if n > 13 {
            rule.stdin_not
        } else {
            None
        },
        stdout_not: if n > 14 {
            rule.stdout_not
        } else {
            None
        },
        env_not: if n > 15 {
            rule.env_not
        } else {
            None
        },
        has_file_not: if n > 16 {
            rule.has_file_not
        } else {
            None
        },
        action: Action::Deny,
        reason: None,
        target: None,
        flag_arg: None,
        positional: None,
        opts_with_args: Seq::empty(),
    }
}

proof fn lemma_read_parts(
    ts: Seq<SpannedView>,
    i: int,
    vars: Map<Seq<char>, Seq<char>>,
    rule: RuleView,
    k: int,
)
    requires
        0 <= k <= 17,
        stand_at(ts, i, parts_from(rule, k)),
        tok(ts, i + parts_from(rule, k).len()) == Some(TokenView::Arrow),
    ensures
        conditions_at(ts, i, vars, begun(rule, k)) == (Parsed {
            value: Ok(begun(rule, 17)),
            end: i + parts_from(rule, k).len(),
        }),
    decreases 17 - k,
{
    if k < 17 {
        let rest = parts_from(rule, k + 1);
        lemma_stand_apart(ts, i, part(rule, k), rest);
        let j = i + part(rule, k).len();
        lemma_read_parts(ts, j, vars, rule, k + 1);
        lemma_read_part(ts, i, vars, rule, k);
    } else {
        assert(conditions_at(ts, i, vars, begun(rule, k)).value == Ok::<RuleView, ErrorView>(
            begun(rule, k),
        ));
    }
}

#[verifier::rlimit(40)]
#[verifier::spinoff_prover]
proof fn lemma_read_part(
    ts: Seq<SpannedView>,
    i: int,
    vars: Map<Seq<char>, Seq<char>>,
    rule: RuleView,
    k: int,
)
    requires
        0 <= k < 17,
        stand_at(ts, i, part(rule, k)),
    ensures
        conditions_at(ts, i, vars, begun(rule, k)) == conditions_at(
            ts,
            i + part(rule, k).len(),
            vars,
            begun(rule, k + 1),
        ),
{
    lemma_keywords();
    if k == 0 {
        if rule.tool is Some {
            let p = rule.tool->0;
            lemma_one_condition(ts, i, vars, rule, "tool"@, p, false);
            conditions_set_the_field_of_their_name(ts, i, vars, begun(rule, k), p);
        }
        assert(begun(rule, k + 1) == (RuleView {
            tool: rule.tool,
            ..begun(rule, k)
        }));
    } else if k == 1 {
        if rule.command is Some {
            let p = rule.command->0;
            lemma_one_condition(ts, i, vars, rule, "command"@, p, false);
            conditions_set_the_field_of_their_name(ts, i, vars, begun(rule, k), p);
        }
        assert(begun(rule, k + 1) == (RuleView {
            command: rule.command,
            ..begun(rule, k)
        }));
    } else if k == 2 {
        if rule.file_path is Some {
            let p = rule.file_path->0;
            lemma_one_condition(ts, i, vars, rule, "file_path"@, p, false);
            conditions_set_the_field_of_their_name(ts, i, vars, begun(rule, k), p);
        }
        assert(begun(rule, k + 1) == (RuleView {
            file_path: rule.file_path,
            ..begun(rule, k)
        }));
    } else if k == 3 {
        if rule.subagent_type is Some {
            let p = rule.subagent_type->0;
            lemma_one_condition(ts, i, vars, rule, "subagent_type"@, p, false);
            conditions_set_the_field_of_their_name(ts, i, vars, begun(rule, k), p);
        }
        assert(begun(rule, k + 1) == (RuleView {
            subagent_type: rule.subagent_type,
            ..begun(rule, k)
        }));
    } else if k == 4 {
        if rule.prompt is Some {
            let p = rule.prompt->0;
            lemma_one_condition(ts, i, vars, rule, "prompt"@, p, false);
            conditions_set_the_field_of_their_name(ts, i, vars, begun(rule, k), p);
        }
        assert(begun(rule, k + 1) == (RuleView {
            prompt: rule.prompt,
            ..begun(rule, k)
        }));
    } else if k == 5 {
        if rule.cwd is Some {
            let p = rule.cwd->0;
            lemma_one_condition(ts, i, vars, rule, "cwd"@, p, false);
            conditions_set_the_field_of_their_name(ts, i, vars, begun(rule, k), p);
        }
        assert(begun(rule, k + 1) == (RuleView {
            cwd: rule.cwd,
            ..begun(rule, k)
        }));
    } else if k == 6 {
        if rule.arg is Some {
            let p = rule.arg->0;
            lemma_one_condition(ts, i, vars, rule, "arg"@, p, false);
            conditions_set_the_field_of_their_name(ts, i, vars, begun(rule, k), p);
        }
        assert(begun(rule, k + 1) == (RuleView {
            arg: rule.arg,
            ..begun(rule, k)
        }));
    } else if k == 7 {
        if rule.stdin is Some {
            let p = rule.stdin->0;
            lemma_one_condition(ts, i, vars, rule, "stdin"@, p, false);
            conditions_set_the_field_of_their_name(ts, i, vars, begun(rule, k), p);
        }
        assert(begun(rule, k + 1) == (RuleView {
            stdin: rule.stdin,
            ..begun(rule, k)
        }));
    } else if k == 8 {
        if rule.stdout is Some {
            let p = rule.stdout->0;
            lemma_one_condition(ts, i, vars, rule, "stdout"@, p, false);
            conditions_set_the_field_of_their_name(ts, i, vars, begun(rule, k), p);
        }
        assert(begun(rule, k + 1) == (RuleView {
            stdout: rule.stdout,
            ..begun(rule, k)
        }));
    } else if k == 9 {
        if rule.env is Some {
            let p = rule.env->0;
            lemma_one_condition(ts, i, vars, rule, "env"@, p, false);
            conditions_set_the_field_of_their_name(ts, i, vars, begun(rule, k), p);
        }
        assert(begun(rule, k + 1) == (RuleView {
            env: rule.env,
            ..begun(rule, k)
        }));
    } else if k == 10 {
        if rule.has_file is Some {
            let p = rule.has_file->0;
            lemma_one_condition(ts, i, vars, rule, "has_file"@, p, false);
            conditions_set_the_field_of_their_name(ts, i, vars, begun(rule, k), p);
        }
        assert(begun(rule, k + 1) == (RuleView {
            has_file: rule.has_file,
            ..begun(rule, k)
        }));
    } else if k == 11 {
        if rule.cwd_not is Some {
            let p = rule.cwd_not->0;
            lemma_one_condition(ts, i, vars, rule, "cwd"@, p, true);
            conditions_set_the_field_of_their_name(ts, i, vars, begun(rule, k), p);
        }
        assert(begun(rule, k + 1) == (RuleView {
            cwd_not: rule.cwd_not,
            ..begun(rule, k)
        }));
    } else if k == 12 {
        if rule.arg_not is Some {
            let p = rule.arg_not->0;
            lemma_one_condition(ts, i, vars, rule, "arg"@, p, true);
            conditions_set_the_field_of_their_name(ts, i, vars, begun(rule, k), p);
        }
        assert(begun(rule, k + 1) == (RuleView {
            arg_not: rule.arg_not,
            ..begun(rule, k)
        }));
    } else if k == 13 {
        if rule.stdin_not is Some {
            let p = rule.stdin_not->0;
            lemma_one_condition(ts, i, vars, rule, "stdin"@, p, true);
            conditions_set_the_field_of_their_name(ts, i, vars, begun(rule, k), p);
        }
        assert(begun(rule, k + 1) == (RuleView {
            stdin_not: rule.stdin_not,
            ..begun(rule, k)
        }));
    } else if k == 14 {
        if rule.stdout_not is Some {
            let p = rule.stdout_not->0;
            lemma_one_condition(ts, i, vars, rule, "stdout"@, p, true);
            conditions_set_the_field_of_their_name(ts, i, vars, begun(rule, k), p);
        }
        assert(begun(rule, k + 1) == (RuleView {
            stdout_not: rule.stdout_not,
            ..begun(rule, k)
        }));
    } else if k == 15 {
        if rule.env_not is Some {
            let p = rule.env_not->0;
            lemma_one_condition(ts, i, vars, rule, "env"@, p, true);
            conditions_set_the_field_of_their_name(ts, i, vars, begun(rule, k), p);
        }
        assert(begun(rule, k + 1) == (RuleView {
            env_not: rule.env_not,
            ..begun(rule, k)
        }));
    } else if k == 16 {
        if rule.has_file_not is Some {
            let p = rule.has_file_not->0;
            lemma_one_condition(ts, i, vars, rule, "has_file"@, p, true);
            conditions_set_the_field_of_their_name(ts, i, vars, begun(rule, k), p);
        }
        assert(begun(rule, k + 1) == (RuleView {
            has_file_not: rule.has_file_not,
            ..begun(rule, k)
        }));
    }
}

proof fn lemma_first_part(ts: Seq<SpannedView>, i: int, rule: RuleView, k: int)
    requires
        0 <= k <= 17,
        stand_at(ts, i, parts_from(rule, k)),
        tok(ts, i + parts_from(rule, k).len()) == Some(TokenView::Arrow),
    ensures
        tool_at(ts, i).1 == i,
        tool_at(ts, i).0 == begun(rule, 0),
    decreases 17 - k,
{
    if k < 17 {
        lemma_stand_apart(ts, i, part(rule, k), parts_from(rule, k + 1));
        if part(rule, k).len() == 0 {
            lemma_first_part(ts, i, rule, k + 1);
        } else {
            assert(ts[i + 0].token == part(rule, k)[0]);
        }
    }
}

proof fn lemma_opts(ts: Seq<SpannedView>, i: int, opts: Seq<Seq<char>>, acc: Seq<Seq<char>>)
    requires
        stand_at(ts, i, opts_tokens(opts)),
        tok(ts, i + opts.len()) == Some(TokenView::RBracket),
    ensures
        opts_at(ts, i, acc) == (Parsed {
            value: Ok::<Seq<Seq<char>>, ErrorView>(acc + opts),
            end: i + opts.len() + 1,
        }),
    decreases opts.len(),
{
    if opts.len() > 0 {
        let tokens = opts_tokens(opts);
        let rest = opts.skip(1);
        assert(tokens =~= seq![TokenView::FlagLit(opts[0])] + opts_tokens(rest));
        lemma_stand_apart(ts, i, seq![TokenView::FlagLit(opts[0])], opts_tokens(rest));
        assert(ts[i + 0].token == tokens[0]);
        lemma_opts(ts, i + 1, rest, acc.push(opts[0]));
        assert(acc.push(opts[0]) + rest =~= acc + opts);
    } else {
        assert(acc + opts =~= acc);
    }
}

/// Whether nothing at a position goes on with a rule.
pub open spec fn rule_ends(ts: Seq<SpannedView>, i: int) -> bool {
    tok(ts, i) is None || tok(ts, i) == Some(TokenView::Newline) || tok(ts, i) == Some(
        TokenView::RBrace,
    )
}

/// Whether nothing at a position goes on with an action.
spec fn action_ends(ts: Seq<SpannedView>, i: int) -> bool {
    rule_ends(ts, i) || tok(ts, i) matches Some(TokenView::Str(_))
}

proof fn lemma_params(ts: Seq<SpannedView>, i: int, rule: RuleView, begun: RuleView)
    requires
        ({
            let tokens = (match rule.flag_arg {
                Some(flag) => seq![TokenView::Flag, TokenView::FlagLit(flag)],
                None => Seq::empty(),
            }) + (match rule.positional {
                Some(n) => seq![TokenView::Skip, TokenView::Number(n as nat)],
                None => Seq::empty(),
            }) + (if rule.opts_with_args.len() > 0 {
                seq![TokenView::Opts, TokenView::LBracket] + opts_tokens(rule.opts_with_args)
                    + seq![TokenView::RBracket]
            } else {
                Seq::empty()
            });
            stand_at(ts, i, tokens) && action_ends(ts, i + tokens.len())
        }),
        begun.flag_arg is None,
        begun.positional is None,
        begun.opts_with_args.len() == 0,
    ensures
        params_at(ts, i, begun).value == Ok::<RuleView, ErrorView>(
            RuleView {
                flag_arg: rule.flag_arg,
                positional: rule.positional,
                opts_with_args: rule.opts_with_args,
                ..begun
            },
        ),
        params_at(ts, i, begun).end == i + (if rule.flag_arg is Some { 2int } else { 0 }) + (
        if rule.positional is Some { 2int } else { 0 }) + (if rule.opts_with_args.len() > 0 {
            rule.opts_with_args.len() + 3
        } else {
            0
        }),
{
    let a = match rule.flag_arg {
        Some(flag) => seq![TokenView::Flag, TokenView::FlagLit(flag)],
        None => Seq::empty(),
    };
    let b = match rule.positional {
        Some(n) => seq![TokenView::Skip, TokenView::Number(n as nat)],
        None => Seq::empty(),
    };
    let opts = rule.opts_with_args;
    let c = if opts.len() > 0 {
        seq![TokenView::Opts, TokenView::LBracket] + opts_tokens(opts) + seq![TokenView::RBracket]
    } else {
        Seq::empty()
    };
    let one = RuleView { flag_arg: rule.flag_arg, ..begun };
    let two = RuleView { positional: rule.positional, ..one };
    let three = RuleView { opts_with_args: opts, ..two };
    lemma_stand_apart(ts, i, a + b, c);
    lemma_stand_apart(ts, i, a, b);
    let j = i + a.len();
    let k = j + b.len();
    let end = k + c.len();
    assert(i + (a + b + c).len() == end);
    assert(params_at(ts, end, three) == (Parsed { value: Ok::<RuleView, ErrorView>(three), end }));
    if opts.len() > 0 {
        lemma_stand_apart(
            ts,
            k,
            seq![TokenView::Opts, TokenView::LBracket] + opts_tokens(opts),
            seq![TokenView::RBracket],
        );
        lemma_stand_apart(
            ts,
            k,
            seq![TokenView::Opts, TokenView::LBracket],
            opts_tokens(opts),
        );
        let head = seq![TokenView::Opts, TokenView::LBracket];
        assert(ts[k + 0].token == head[0]);
        assert(ts[k + 1].token == head[1]);
        let at = k + (head + opts_tokens(opts)).len();
        assert(at == k + 2 + opts.len());
        assert(ts[at + 0].token == seq![TokenView::RBracket][0]);
        lemma_opts(ts, k + 2, opts, Seq::empty());
        assert(Seq::<Seq<char>>::empty() + opts =~= opts);
        assert(params_at(ts, k, two) == params_at(ts, end, three));
    } else {
        assert(opts =~= two.opts_with_args);
        assert(three == two);
    }
    if rule.positional is Some {
        assert(ts[j + 0].token == b[0]);
        assert(ts[j + 1].token == b[1]);
        assert(params_at(ts, j, one) == params_at(ts, k, two));
    } else {
        assert(two == one);
    }
    if rule.flag_arg is Some {
        assert(ts[i + 0].token == a[0]);
        assert(ts[i + 1].token == a[1]);
        assert(params_at(ts, i, begun) == params_at(ts, j, one));
    } else {
        assert(one == begun);
    }
}

proof fn lemma_action(ts: Seq<SpannedView>, i: int, rule: RuleView, begun: RuleView)
    requires
        suits_its_action(rule),
        stand_at(ts, i, action_tokens(rule)),
        action_ends(ts, i + action_tokens(rule).len()),
        begun.target is None,
        begun.flag_arg is None,
        begun.positional is None,
        begun.opts_with_args.len() == 0,
    ensures
        action_at(ts, i, begun) == (Parsed {
            value: Ok::<RuleView, ErrorView>(
                RuleView {
                    action: rule.action,
                    target: rule.target,
                    flag_arg: rule.flag_arg,
                    positional: rule.positional,
                    opts_with_args: rule.opts_with_args,
                    ..begun
                },
            ),
            end: i + action_tokens(rule).len(),
        }),
{
    let tokens = action_tokens(rule);
    assert(ts[i + 0].token == tokens[0]);
    if rule.action != Action::Evaluate {
        assert(rule.opts_with_args =~= begun.opts_with_args);
        if rule.action == Action::ForcePassthrough || rule.action == Action::Forward {
            assert(ts[i + 1].token == tokens[1]);
        }
    } else {
        let target = match rule.target {
            Some(name) => seq![TokenView::Ident("target"@), TokenView::Ident(name)],
            None => Seq::empty(),
        };
        let flag = match rule.flag_arg {
            Some(flag) => seq![TokenView::Flag, TokenView::FlagLit(flag)],
            None => Seq::empty(),
        };
        let skip = match rule.positional {
            Some(n) => seq![TokenView::Skip, TokenView::Number(n as nat)],
            None => Seq::empty(),
        };
        let opts = if rule.opts_with_args.len() > 0 {
            seq![TokenView::Opts, TokenView::LBracket] + opts_tokens(rule.opts_with_args) + seq![
                TokenView::RBracket,
            ]
        } else {
            Seq::empty()
        };
        let head = seq![TokenView::Evaluate];
        let params = flag + skip + opts;
        assert(tokens =~= head + target + params);
        lemma_stand_apart(ts, i, head + target, params);
        lemma_stand_apart(ts, i, head, target);
        let j = i + 1 + target.len();
        assert(i + (head + target).len() == j);
        let started = RuleView { action: Action::Evaluate, ..begun };
        let aimed = RuleView { target: rule.target, ..started };
        lemma_params(ts, j, rule, aimed);
        if rule.target is Some {
            assert(ts[i + 1 + 0].token == target[0]);
            assert(ts[i + 1 + 1].token == target[1]);
            assert(params_at(ts, i + 1, started) == params_at(ts, j, aimed));
        } else {
            assert(aimed == started);
            if params.len() > 0 {
                assert(ts[j + 0].token == params[0]);
            }
        }
    }
}

/// A rule reads as what is written: whatever conditions it has, whatever its action, with or
/// without a reason, the tokens of the rule read as the rule, up to their end.
pub proof fn rules_read_as_written(
    ts: Seq<SpannedView>,
    i: int,
    vars: Map<Seq<char>, Seq<char>>,
    rule: RuleView,
)
    requires
        suits_its_action(rule),
        stand_at(ts, i, rule_tokens(rule)),
        rule_ends(ts, i + rule_tokens(rule).len()),
    ensures
        rule_at(ts, i, vars) == (Parsed {
            value: Ok::<RuleView, ErrorView>(rule),
            end: i + rule_tokens(rule).len(),
        }),
{
    let conditions = parts_from(rule, 0);
    let arrow = seq![TokenView::Arrow];
    let action = action_tokens(rule);
    let reason = match rule.reason {
        Some(reason) => seq![TokenView::Str(reason)],
        None => Seq::empty(),
    };
    lemma_stand_apart(ts, i, conditions + arrow + action, reason);
    lemma_stand_apart(ts, i, conditions + arrow, action);
    lemma_stand_apart(ts, i, conditions, arrow);
    let j = i + conditions.len();
    let k = j + 1 + action.len();
    assert(i + (conditions + arrow).len() == j + 1);
    assert(i + (conditions + arrow + action).len() == k);
    assert(i + rule_tokens(rule).len() == k + reason.len());
    assert(ts[j + 0].token == arrow[0]);
    if rule.reason is Some {
        assert(ts[k + 0].token == reason[0]);
    }
    lemma_first_part(ts, i, rule, 0);
    lemma_read_parts(ts, i, vars, rule, 0);
    lemma_action(ts, j + 1, rule, begun(rule, 17));
}

proof fn lemma_parts_behind_the_tool(rule: RuleView, tool: Option<Seq<char>>, k: int)
    requires
        1 <= k <= 17,
    ensures
        parts_from(RuleView { tool, ..rule }, k) == parts_from(rule, k),
    decreases 17 - k,
{
    if k < 17 {
        lemma_parts_behind_the_tool(rule, tool, k + 1);
    }
}

/// A rule may begin with the name of a tool, any word that is no keyword of a condition. It
/// stands for the pattern that the name alone matches.
pub proof fn a_rule_may_begin_with_a_tool(
    ts: Seq<SpannedView>,
    i: int,
    vars: Map<Seq<char>, Seq<char>>,
    word: Seq<char>,
    rule: RuleView,
)
    requires
        suits_its_action(rule),
        rule.tool is None,
        stand_at(ts, i, seq![TokenView::Ident(word)] + rule_tokens(rule)),
        rule_ends(ts, i + 1 + rule_tokens(rule).len()),
        word != "tool"@,
        word != "command"@,
        word != "file_path"@,
        word != "subagent_type"@,
        word != "prompt"@,
        word != "cwd"@,
        word != "arg"@,
        word != "stdin"@,
        word != "stdout"@,
        word != "env"@,
        word != "has_file"@,
    ensures
        rule_at(ts, i, vars) == (Parsed {
            value: Ok::<RuleView, ErrorView>(
                RuleView { tool: Some("^"@ + escaped(word) + "$"@), ..rule },
            ),
            end: i + 1 + rule_tokens(rule).len(),
        }),
{
    let tool = Some("^"@ + escaped(word) + "$"@);
    let whole = RuleView { tool, ..rule };
    let head = seq![TokenView::Ident(word)];
    lemma_stand_apart(ts, i, head, rule_tokens(rule));
    assert(ts[i + 0].token == head[0]);
    let at = i + 1;
    let conditions = parts_from(rule, 0);
    let arrow = seq![TokenView::Arrow];
    let action = action_tokens(rule);
    let reason = match rule.reason {
        Some(reason) => seq![TokenView::Str(reason)],
        None => Seq::empty(),
    };
    lemma_stand_apart(ts, at, conditions + arrow + action, reason);
    lemma_stand_apart(ts, at, conditions + arrow, action);
    lemma_stand_apart(ts, at, conditions, arrow);
    let j = at + conditions.len();
    let k = j + 1 + action.len();
    assert(at + (conditions + arrow).len() == j + 1);
    assert(at + (conditions + arrow + action).len() == k);
    assert(at + rule_tokens(rule).len() == k + reason.len());
    assert(ts[j + 0].token == arrow[0]);
    if rule.reason is Some {
        assert(ts[k + 0].token == reason[0]);
    }
    assert(conditions =~= parts_from(rule, 1));
    lemma_parts_behind_the_tool(rule, tool, 1);
    lemma_read_parts(ts, at, vars, whole, 1);
    assert(tool_at(ts, i).0 == begun(whole, 1));
    assert(action_tokens(whole) == action);
    lemma_action(ts, j + 1, whole, begun(whole, 17));
}

/// The parameters of `evaluate` stand in any order, and each sets what it names: `flag` the
/// flag in front of the wrapped command, `skip` the number of arguments to skip, `opts` the
/// flags that take an argument, with or without commas, and `target` the table. The table
/// may also stand alone, right behind `evaluate`.
pub proof fn parameters_set_what_they_name(
    ts: Seq<SpannedView>,
    i: int,
    rule: RuleView,
    name: Seq<char>,
    n: usize,
    opts: Seq<Seq<char>>,
)
    requires
        0 <= i,
    ensures
        stand_at(ts, i, seq![TokenView::Flag, TokenView::FlagLit(name)]) ==> params_at(ts, i, rule)
            == params_at(ts, i + 2, RuleView { flag_arg: Some(name), ..rule }),
        stand_at(ts, i, seq![TokenView::Skip, TokenView::Number(n as nat)]) ==> params_at(
            ts,
            i,
            rule,
        ) == params_at(ts, i + 2, RuleView { positional: Some(n), ..rule }),
        stand_at(ts, i, seq![TokenView::Ident("target"@), TokenView::Ident(name)]) ==> params_at(
            ts,
            i,
            rule,
        ) == params_at(ts, i + 2, RuleView { target: Some(name), ..rule }),
        stand_at(
            ts,
            i,
            seq![TokenView::Opts, TokenView::LBracket] + opts_tokens(opts) + seq![
                TokenView::RBracket,
            ],
        ) ==> params_at(ts, i, rule) == params_at(
            ts,
            i + 3 + opts.len(),
            RuleView { opts_with_args: opts, ..rule },
        ),
        tok(ts, i) == Some(TokenView::Comma) ==> opts_at(ts, i, opts) == opts_at(ts, i + 1, opts),
        stand_at(ts, i, seq![TokenView::Evaluate, TokenView::Ident(name)]) && !(tok(
            ts,
            i + 2,
        ) is Some && tok(ts, i + 2)->0 is Ident) ==> action_at(ts, i, rule) == params_at(
            ts,
            i + 2,
            RuleView { action: Action::Evaluate, target: Some(name), ..rule },
        ),
{
    let a = seq![TokenView::Flag, TokenView::FlagLit(name)];
    let b = seq![TokenView::Skip, TokenView::Number(n as nat)];
    let c = seq![TokenView::Ident("target"@), TokenView::Ident(name)];
    let d = seq![TokenView::Opts, TokenView::LBracket];
    let e = seq![TokenView::Evaluate, TokenView::Ident(name)];
    if stand_at(ts, i, a) {
        assert(ts[i + 0].token == a[0] && ts[i + 1].token == a[1]);
    }
    if stand_at(ts, i, b) {
        assert(ts[i + 0].token == b[0] && ts[i + 1].token == b[1]);
    }
    if stand_at(ts, i, c) {
        assert(ts[i + 0].token == c[0] && ts[i + 1].token == c[1]);
    }
    if stand_at(ts, i, e) {
        assert(ts[i + 0].token == e[0] && ts[i + 1].token == e[1]);
    }
    if stand_at(ts, i, d + opts_tokens(opts) + seq![TokenView::RBracket]) {
        lemma_stand_apart(ts, i, d + opts_tokens(opts), seq![TokenView::RBracket]);
        lemma_stand_apart(ts, i, d, opts_tokens(opts));
        assert(ts[i + 0].token == d[0] && ts[i + 1].token == d[1]);
        let at = i + (d + opts_tokens(opts)).len();
        assert(at == i + 2 + opts.len());
        assert(ts[at + 0].token == seq![TokenView::RBracket][0]);
        lemma_opts(ts, i + 2, opts, Seq::empty());
        assert(Seq::<Seq<char>>::empty() + opts =~= opts);
    }
}

/// The tokens of the default action of a table.
pub open spec fn default_tokens(action: Action) -> Seq<TokenView> {
    match action {
        Action::Allow => seq![TokenView::Allow],
        Action::Deny => seq![TokenView::Deny],
        Action::Passthrough => seq![TokenView::Passthrough],
        _ => seq![TokenView::Force, TokenView::Passthrough],
    }
}

/// The tokens of some rules, each on a line of its own.
pub open spec fn lines_tokens(rules: Seq<RuleView>) -> Seq<TokenView>
    decreases rules.len(),
{
    if rules.len() == 0 {
        Seq::empty()
    } else {
        rule_tokens(rules[0]) + seq![TokenView::Newline] + lines_tokens(rules.skip(1))
    }
}

/// The tokens of a table.
pub open spec fn table_tokens(name: Seq<char>, table: TableView) -> Seq<TokenView> {
    seq![TokenView::Table, TokenView::Ident(name), TokenView::Default] + default_tokens(
        table.default,
    ) + seq![TokenView::LBrace, TokenView::Newline] + lines_tokens(table.rules) + seq![
        TokenView::RBrace,
    ]
}

/// Whether all rules have what their actions take.
pub open spec fn all_suit(rules: Seq<RuleView>) -> bool {
    forall|k: int| 0 <= k < rules.len() ==> suits_its_action(#[trigger] rules[k])
}

proof fn lemma_rule_starts(ts: Seq<SpannedView>, i: int, rule: RuleView)
    requires
        stand_at(ts, i, rule_tokens(rule)),
    ensures
        rule_tokens(rule).len() >= 2,
        tok(ts, i) != Some(TokenView::Newline),
        tok(ts, i) != Some(TokenView::RBrace),
        tok(ts, i) != Some(TokenView::Let),
        tok(ts, i) != Some(TokenView::Table),
        tok(ts, i) != Some(TokenView::Entry),
        tok(ts, i) != Some(TokenView::Audit),
        tok(ts, i) is Some,
{
    let conditions = parts_from(rule, 0);
    let arrow = seq![TokenView::Arrow];
    let action = action_tokens(rule);
    let reason = match rule.reason {
        Some(reason) => seq![TokenView::Str(reason)],
        None => Seq::empty(),
    };
    lemma_stand_apart(ts, i, conditions + arrow + action, reason);
    lemma_stand_apart(ts, i, conditions + arrow, action);
    lemma_stand_apart(ts, i, conditions, arrow);
    let j = i + conditions.len();
    assert(ts[j + 0].token == arrow[0]);
    lemma_start(ts, i, rule, 0);
}

proof fn lemma_start(ts: Seq<SpannedView>, i: int, rule: RuleView, k: int)
    requires
        0 <= k <= 17,
        stand_at(ts, i, parts_from(rule, k)),
        tok(ts, i + parts_from(rule, k).len()) == Some(TokenView::Arrow),
    ensures
        tok(ts, i) == Some(TokenView::Arrow) || tok(ts, i) == Some(TokenView::Bang) || (tok(
            ts,
            i,
        ) is Some && tok(ts, i)->0 is Ident),
    decreases 17 - k,
{
    if k < 17 {
        lemma_stand_apart(ts, i, part(rule, k), parts_from(rule, k + 1));
        if part(rule, k).len() == 0 {
            lemma_start(ts, i, rule, k + 1);
        } else {
            assert(ts[i + 0].token == part(rule, k)[0]);
        }
    }
}

proof fn lemma_lines(
    ts: Seq<SpannedView>,
    i: int,
    vars: Map<Seq<char>, Seq<char>>,
    rules: Seq<RuleView>,
    acc: Seq<RuleView>,
)
    requires
        all_suit(rules),
        stand_at(ts, i, lines_tokens(rules)),
        tok(ts, i + lines_tokens(rules).len()) == Some(TokenView::RBrace),
    ensures
        rules_at(ts, i, vars, acc) == (Parsed {
            value: Ok::<Seq<RuleView>, ErrorView>(acc + rules),
            end: i + lines_tokens(rules).len(),
        }),
    decreases rules.len(),
{
    if rules.len() == 0 {
        assert(acc + rules =~= acc);
    } else {
        let one = rule_tokens(rules[0]);
        let newline = seq![TokenView::Newline];
        let rest = rules.skip(1);
        lemma_stand_apart(ts, i, one + newline, lines_tokens(rest));
        lemma_stand_apart(ts, i, one, newline);
        let j = i + one.len();
        assert(ts[j + 0].token == newline[0]);
        assert(i + (one + newline).len() == j + 1);
        assert(suits_its_action(rules[0]));
        rules_read_as_written(ts, i, vars, rules[0]);
        lemma_rule_starts(ts, i, rules[0]);
        assert forall|k: int| 0 <= k < rest.len() implies suits_its_action(
            #[trigger] rest[k],
        ) by {
            assert(rest[k] == rules[k + 1]);
        }
        if rest.len() > 0 {
            lemma_stand_apart(
                ts,
                j + 1,
                rule_tokens(rest[0]) + newline,
                lines_tokens(rest.skip(1)),
            );
            lemma_stand_apart(ts, j + 1, rule_tokens(rest[0]), newline);
            lemma_rule_starts(ts, j + 1, rest[0]);
        }
        assert(skip_newlines(ts, j + 1) == j + 1);
        assert(skip_newlines(ts, j) == j + 1);
        lemma_lines(ts, j + 1, vars, rest, acc.push(rules[0]));
        assert(acc.push(rules[0]) + rest =~= acc + rules);
    }
}

#[verifier::rlimit(60)]
#[verifier::spinoff_prover]
proof fn lemma_table(
    ts: Seq<SpannedView>,
    i: int,
    vars: Map<Seq<char>, Seq<char>>,
    name: Seq<char>,
    table: TableView,
)
    requires
        table.default != Action::Forward,
        table.default != Action::Evaluate,
        all_suit(table.rules),
        stand_at(ts, i, table_tokens(name, table)),
    ensures
        tok(ts, i) == Some(TokenView::Table),
        table_at(ts, i + 1, vars) == (Parsed {
            value: Ok::<(Seq<char>, TableView), ErrorView>((name, table)),
            end: i + table_tokens(name, table).len(),
        }),
{
    let head = seq![TokenView::Table, TokenView::Ident(name), TokenView::Default];
    let default = default_tokens(table.default);
    let open = seq![TokenView::LBrace, TokenView::Newline];
    let lines = lines_tokens(table.rules);
    let close = seq![TokenView::RBrace];
    lemma_stand_apart(ts, i, head + default + open + lines, close);
    lemma_stand_apart(ts, i, head + default + open, lines);
    lemma_stand_apart(ts, i, head + default, open);
    lemma_stand_apart(ts, i, head, default);
    let j = i + 3;
    let k = j + default.len();
    let from = k + 2;
    let end = from + lines.len();
    assert(i + (head + default).len() == k);
    assert(i + (head + default + open).len() == from);
    assert(i + (head + default + open + lines).len() == end);
    assert(ts[i + 0].token == head[0] && ts[i + 1].token == head[1] && ts[i + 2].token == head[2]);
    assert(ts[j + 0].token == default[0]);
    if default.len() > 1 {
        assert(ts[j + 1].token == default[1]);
    }
    assert(ts[k + 0].token == open[0] && ts[k + 1].token == open[1]);
    assert(ts[end + 0].token == close[0]);
    if table.rules.len() > 0 {
        let one = rule_tokens(table.rules[0]);
        let newline = seq![TokenView::Newline];
        lemma_stand_apart(ts, from, one + newline, lines_tokens(table.rules.skip(1)));
        lemma_stand_apart(ts, from, one, newline);
        lemma_rule_starts(ts, from, table.rules[0]);
    }
    assert(skip_newlines(ts, from) == from);
    assert(skip_newlines(ts, k + 1) == from);
    lemma_lines(ts, from, vars, table.rules, Seq::empty());
    assert(Seq::<RuleView>::empty() + table.rules =~= table.rules);
    let read = ident_at(ts, i + 1);
    assert(read == (Parsed { value: Ok::<Seq<char>, ErrorView>(name), end: i + 2 }));
    assert(default_action_at(ts, j) == (Parsed {
        value: Ok::<Action, ErrorView>(table.default),
        end: k,
    }));
}

/// A table reads as what is written: its name is bound to a table with its default and all
/// its rules in order, and nothing else of the configuration changes.
pub proof fn tables_read_as_written(
    ts: Seq<SpannedView>,
    i: int,
    built: Built,
    name: Seq<char>,
    table: TableView,
)
    requires
        table.default != Action::Forward,
        table.default != Action::Evaluate,
        all_suit(table.rules),
        stand_at(ts, i, table_tokens(name, table)),
    ensures
        ({
            let read = statement_at(ts, i, built);
            &&& read.end == i + table_tokens(name, table).len()
            &&& read.value is Ok
            &&& read.value->Ok_0.vars == built.vars
            &&& read.value->Ok_0.config == (ConfigView {
                tables: read.value->Ok_0.config.tables,
                ..built.config
            })
            &&& dict(read.value->Ok_0.config.tables) == dict(built.config.tables).insert(
                name,
                table,
            )
            &&& !dict(built.config.tables).dom().contains(name) ==> read.value->Ok_0.config.tables
                == built.config.tables.push((name, table))
        }),
{
    lemma_table(ts, i, built.vars, name, table);
    lemma_dict_inserted(built.config.tables, name, table);
    lemma_key_from(built.config.tables, name, 0);
}

/// Every other statement sets what it names, and nothing else: `entry` the table that
/// evaluation starts in, `let` a variable, `local_rules` whether projects add rules, `audit
/// file` and `audit level` where and what is logged, in one line or in two.
pub proof fn settings_read_as_written(
    ts: Seq<SpannedView>,
    i: int,
    built: Built,
    name: Seq<char>,
    p: Seq<char>,
    on: bool,
)
    requires
        0 <= i,
    ensures
        stand_at(ts, i, seq![TokenView::Entry, TokenView::Ident(name)]) ==> statement_at(
            ts,
            i,
            built,
        ) == (Parsed {
            value: Ok::<Built, ErrorView>(
                Built { config: ConfigView { entry_table: name, ..built.config }, ..built },
            ),
            end: i + 2,
        }),
        stand_at(
            ts,
            i,
            seq![TokenView::Let, TokenView::Ident(name), TokenView::Equals, TokenView::Regex(p)],
        ) ==> statement_at(ts, i, built) == (Parsed {
            value: Ok::<Built, ErrorView>(Built { vars: built.vars.insert(name, p), ..built }),
            end: i + 4,
        }),
        stand_at(
            ts,
            i,
            seq![
                TokenView::Ident("local_rules"@),
                TokenView::Equals,
                TokenView::Ident(
                    if on {
                        "true"@
                    } else {
                        "false"@
                    },
                ),
            ],
        ) ==> statement_at(ts, i, built) == (Parsed {
            value: Ok::<Built, ErrorView>(
                Built { config: ConfigView { local_rules: on, ..built.config }, ..built },
            ),
            end: i + 3,
        }),
        stand_at(
            ts,
            i,
            seq![
                TokenView::Ident("local_rules"@),
                TokenView::Ident(
                    if on {
                        "true"@
                    } else {
                        "false"@
                    },
                ),
            ],
        ) ==> statement_at(ts, i, built) == (Parsed {
            value: Ok::<Built, ErrorView>(
                Built { config: ConfigView { local_rules: on, ..built.config }, ..built },
            ),
            end: i + 2,
        }),
        stand_at(
            ts,
            i,
            seq![TokenView::Audit, TokenView::Ident("file"@), TokenView::Str(p)],
        ) && (tok(ts, i + 3) is None || tok(ts, i + 3) == Some(TokenView::Newline)) ==> {
            let audit = AuditView { audit_file: Some(p), ..built.config.audit };
            statement_at(ts, i, built) == (Parsed {
                value: Ok::<Built, ErrorView>(
                    Built { config: ConfigView { audit, ..built.config }, ..built },
                ),
                end: i + 3,
            })
        },
        tok(ts, i) == Some(TokenView::Newline) ==> statement_at(ts, i, built) == (Parsed {
            value: Ok::<Built, ErrorView>(built),
            end: i + 1,
        }),
{
    lemma_true_is_not_false();
    let a = seq![TokenView::Entry, TokenView::Ident(name)];
    let b = seq![TokenView::Let, TokenView::Ident(name), TokenView::Equals, TokenView::Regex(p)];
    let word = TokenView::Ident(
        if on {
            "true"@
        } else {
            "false"@
        },
    );
    let c = seq![TokenView::Ident("local_rules"@), TokenView::Equals, word];
    let d = seq![TokenView::Ident("local_rules"@), word];
    let e = seq![TokenView::Audit, TokenView::Ident("file"@), TokenView::Str(p)];
    if stand_at(ts, i, a) {
        assert(ts[i + 0].token == a[0] && ts[i + 1].token == a[1]);
    }
    if stand_at(ts, i, b) {
        assert(ts[i + 0].token == b[0] && ts[i + 1].token == b[1] && ts[i + 2].token == b[2]
            && ts[i + 3].token == b[3]);
    }
    if stand_at(ts, i, c) {
        assert(ts[i + 0].token == c[0] && ts[i + 1].token == c[1] && ts[i + 2].token == c[2]);
    }
    if stand_at(ts, i, d) {
        assert(ts[i + 0].token == d[0] && ts[i + 1].token == d[1]);
    }
    if stand_at(ts, i, e) {
        assert(ts[i + 0].token == e[0] && ts[i + 1].token == e[1] && ts[i + 2].token == e[2]);
        reveal_with_fuel(audit_at, 2);
    }
}

proof fn lemma_true_is_not_false()
    ensures
        "true"@ != "false"@,
        "file"@ != "level"@,
{
    reveal_strlit("true");
    reveal_strlit("false");
    reveal_strlit("file");
    reveal_strlit("level");
    assert("true"@.len() == 4 && "false"@.len() == 5 && "file"@.len() == 4 && "level"@.len() == 5);
}

/// The words of an `audit` line stand in any order, and each sets what it names.
pub proof fn audit_lines_read_as_written(
    ts: Seq<SpannedView>,
    i: int,
    start: int,
    audit: AuditView,
    path: Seq<char>,
)
    requires
        0 <= i,
    ensures
        stand_at(ts, i, seq![TokenView::Ident("file"@), TokenView::Str(path)]) ==> audit_at(
            ts,
            i,
            start,
            audit,
        ) == audit_at(ts, i + 2, start, AuditView { audit_file: Some(path), ..audit }),
        stand_at(ts, i, seq![TokenView::Ident("level"@), TokenView::Ident("off"@)]) ==> audit_at(
            ts,
            i,
            start,
            audit,
        ) == audit_at(ts, i + 2, start, AuditView { audit_level: AuditLevel::Off, ..audit }),
        stand_at(ts, i, seq![TokenView::Ident("level"@), TokenView::Ident("matched"@)])
            ==> audit_at(ts, i, start, audit) == audit_at(
            ts,
            i + 2,
            start,
            AuditView { audit_level: AuditLevel::Matched, ..audit },
        ),
        stand_at(ts, i, seq![TokenView::Ident("level"@), TokenView::Ident("all"@)]) ==> audit_at(
            ts,
            i,
            start,
            audit,
        ) == audit_at(ts, i + 2, start, AuditView { audit_level: AuditLevel::All, ..audit }),
        tok(ts, i) is None || tok(ts, i) == Some(TokenView::Newline) ==> audit_at(
            ts,
            i,
            start,
            audit,
        ) == (Parsed { value: Ok::<AuditView, ErrorView>(audit), end: i }),
{
    lemma_true_is_not_false();
    reveal_strlit("off");
    reveal_strlit("matched");
    reveal_strlit("all");
    assert("off"@.len() == 3 && "matched"@.len() == 7 && "all"@.len() == 3);
    assert("off"@[0] == 'o' && "all"@[0] == 'a');
    let a = seq![TokenView::Ident("file"@), TokenView::Str(path)];
    let b = seq![TokenView::Ident("level"@), TokenView::Ident("off"@)];
    let c = seq![TokenView::Ident("level"@), TokenView::Ident("matched"@)];
    let d = seq![TokenView::Ident("level"@), TokenView::Ident("all"@)];
    if stand_at(ts, i, a) {
        assert(ts[i + 0].token == a[0] && ts[i + 1].token == a[1]);
    }
    if stand_at(ts, i, b) {
        assert(ts[i + 0].token == b[0] && ts[i + 1].token == b[1]);
    }
    if stand_at(ts, i, c) {
        assert(ts[i + 0].token == c[0] && ts[i + 1].token == c[1]);
    }
    if stand_at(ts, i, d) {
        assert(ts[i + 0].token == d[0] && ts[i + 1].token == d[1]);
    }
}

/// The statements of a text apply in turn; behind the last the variables are the constants
/// of the configuration. Before the first, evaluation starts in the table `input`, projects
/// add no rules, nothing is logged, and there are no tables.
pub proof fn statements_apply_in_turn(
    ts: Seq<SpannedView>,
    i: int,
    built: Built,
    more: Built,
    end: int,
    input: Seq<char>,
)
    ensures
        0 <= i < end <= ts.len() && statement_at(ts, i, built) == (Parsed {
            value: Ok::<Built, ErrorView>(more),
            end,
        }) ==> program_at(ts, i, built) == program_at(ts, end, more),
        i == ts.len() ==> program_at(ts, i, built).value == Ok::<ConfigView, ErrorView>(
            ConfigView { constants: built.vars, ..built.config },
        ),
        tokens_of(input) matches Ok(tokens) ==> {
            let none = Built {
                config: ConfigView {
                    entry_table: "input"@,
                    local_rules: false,
                    audit: AuditView { audit_file: None, audit_level: AuditLevel::Off },
                    constants: Map::empty(),
                    tables: Seq::empty(),
                },
                vars: Map::empty(),
            };
            let read = program_at(tokens, 0, none).value;
            &&& read is Err ==> config_of(input) == read
            &&& config_of(input) is Ok ==> config_of(input) == read
        },
{
}

/// The rules of a project's file are all its rules, in order.
pub proof fn project_files_read_as_written(
    ts: Seq<SpannedView>,
    i: int,
    vars: Map<Seq<char>, Seq<char>>,
    rules: Seq<RuleView>,
    acc: Seq<RuleView>,
    source: Seq<char>,
)
    requires
        all_suit(rules),
        forall|k: int|
            0 <= k < rules.len() ==> ((#[trigger] rules[k]).action == Action::Allow
                || rules[k].action == Action::Deny || rules[k].action == Action::Passthrough)
                && rules[k].has_file is None && rules[k].has_file_not is None,
        stand_at(ts, i, lines_tokens(rules)),
        i + lines_tokens(rules).len() == ts.len(),
    ensures
        local_rules_at(ts, i, vars, acc, source) == Ok::<Seq<RuleView>, ErrorView>(acc + rules),
    decreases rules.len(),
{
    if rules.len() == 0 {
        assert(acc + rules =~= acc);
    } else {
        let one = rule_tokens(rules[0]);
        let newline = seq![TokenView::Newline];
        let rest = rules.skip(1);
        lemma_stand_apart(ts, i, one + newline, lines_tokens(rest));
        lemma_stand_apart(ts, i, one, newline);
        let j = i + one.len();
        assert(ts[j + 0].token == newline[0]);
        assert(i + (one + newline).len() == j + 1);
        assert(suits_its_action(rules[0]));
        rules_read_as_written(ts, i, vars, rules[0]);
        lemma_rule_starts(ts, i, rules[0]);
        assert forall|k: int| 0 <= k < rest.len() implies suits_its_action(#[trigger] rest[k]) && (
        rest[k].action == Action::Allow || rest[k].action == Action::Deny || rest[k].action
            == Action::Passthrough) && rest[k].has_file is None && rest[k].has_file_not is None by {
            assert(rest[k] == rules[k + 1]);
        }
        project_files_read_as_written(ts, j + 1, vars, rest, acc.push(rules[0]), source);
        assert(local_rules_at(ts, j, vars, acc.push(rules[0]), source) == local_rules_at(
            ts,
            j + 1,
            vars,
            acc.push(rules[0]),
            source,
        ));
        assert(acc.push(rules[0]) + rest =~= acc + rules);
    }
}

/// A project may not take an action of the global rules, look outside for a file, or state
/// anything but rules and variables.
pub proof fn project_files_are_limited(
    ts: Seq<SpannedView>,
    i: int,
    vars: Map<Seq<char>, Seq<char>>,
    acc: Seq<RuleView>,
    source: Seq<char>,
    rule: RuleView,
)
    requires
        0 <= i < ts.len(),
    ensures
        ts[i].token is Table || ts[i].token is Entry || ts[i].token is Audit ==> local_rules_at(
            ts,
            i,
            vars,
            acc,
            source,
        ) is Err,
        ts[i].token is Newline ==> local_rules_at(ts, i, vars, acc, source) == local_rules_at(
            ts,
            i + 1,
            vars,
            acc,
            source,
        ),
        suits_its_action(rule) && stand_at(ts, i, rule_tokens(rule)) && rule_ends(
            ts,
            i + rule_tokens(rule).len(),
        ) ==> {
            let rest = local_rules_at(
                ts,
                i + rule_tokens(rule).len(),
                vars,
                acc.push(rule),
                source,
            );
            let read = local_rules_at(ts, i, vars, acc, source);
            &&& rule.action == Action::Forward || rule.action == Action::Evaluate || rule.action
                == Action::ForcePassthrough ==> read == Err::<Seq<RuleView>, ErrorView>(
                ErrorView::LocalAction { source, action: rule.action },
            )
            &&& rule.action == Action::Allow || rule.action == Action::Deny || rule.action
                == Action::Passthrough ==> {
                &&& rule.has_file is Some && is_outside(rule.has_file->0) ==> read is Err
                &&& rule.has_file_not is Some && is_outside(rule.has_file_not->0) ==> read is Err
                &&& (rule.has_file is None || !is_outside(rule.has_file->0)) && (
                rule.has_file_not is None || !is_outside(rule.has_file_not->0)) ==> read == rest
            }
        },
{
    if suits_its_action(rule) && stand_at(ts, i, rule_tokens(rule)) && rule_ends(
        ts,
        i + rule_tokens(rule).len(),
    ) {
        rules_read_as_written(ts, i, vars, rule);
        lemma_rule_starts(ts, i, rule);
    }
}

/// Whether a token can begin a condition.
pub open spec fn begins_condition(token: TokenView) -> bool {
    token is Ident && (token->Ident_0 == "tool"@ || token->Ident_0 == "command"@ || token->Ident_0
        == "file_path"@ || token->Ident_0 == "subagent_type"@ || token->Ident_0 == "prompt"@
        || token->Ident_0 == "cwd"@ || token->Ident_0 == "arg"@ || token->Ident_0 == "stdin"@
        || token->Ident_0 == "stdout"@ || token->Ident_0 == "env"@ || token->Ident_0
        == "has_file"@)
}

/// What is no rule is an error: conditions without an arrow behind them on their line,
/// something between conditions that is none, a keyword without a pattern, `has_file`
/// without a path in quotes, and a variable that is not defined.
pub proof fn what_is_no_condition_is_an_error(
    ts: Seq<SpannedView>,
    i: int,
    vars: Map<Seq<char>, Seq<char>>,
    rule: RuleView,
)
    requires
        0 <= i < ts.len(),
    ensures
        ts[i].token is Newline ==> conditions_at(ts, i, vars, rule).value == Err::<
            RuleView,
            ErrorView,
        >(ErrorView::MissingArrow { line: ts[i].line, col: ts[i].col }),
        conditions_at(ts, ts.len() as int, vars, rule).value is Err,
        !(ts[i].token is Arrow) && !(ts[i].token is Newline) && !(ts[i].token is Bang)
            && !begins_condition(ts[i].token) ==> conditions_at(ts, i, vars, rule).value is Err,
        ts[i].token is Bang && (tok(ts, i + 1) is None || !begins_condition(tok(ts, i + 1)->0))
            ==> conditions_at(ts, i, vars, rule).value is Err,
        begins_condition(ts[i].token) && ts[i].token->Ident_0 != "has_file"@ && !(tok(
            ts,
            i + 1,
        ) is Some && (tok(ts, i + 1)->0 is Regex || tok(ts, i + 1)->0 is VarRef))
            ==> conditions_at(ts, i, vars, rule).value is Err,
        ts[i].token == TokenView::Ident("has_file"@) && !(tok(ts, i + 1) is Some && tok(
            ts,
            i + 1,
        )->0 is Str) ==> conditions_at(ts, i, vars, rule).value is Err,
        begins_condition(ts[i].token) && ts[i].token->Ident_0 != "has_file"@ && i + 1 < ts.len()
            && (ts[i + 1].token matches TokenView::VarRef(name) && !vars.dom().contains(name))
            ==> conditions_at(ts, i, vars, rule).value == Err::<RuleView, ErrorView>(
            ErrorView::UnknownVariable {
                name: ts[i + 1].token->VarRef_0,
                line: ts[i + 1].line,
                col: ts[i + 1].col,
            },
        ),
{
}

/// What is no action is an error: another token behind the arrow, `force` without
/// `passthrough`, `forward` without a table, and a parameter of `evaluate` without what it
/// takes.
pub proof fn what_is_no_action_is_an_error(
    ts: Seq<SpannedView>,
    i: int,
    rule: RuleView,
    acc: Seq<Seq<char>>,
)
    requires
        0 <= i < ts.len(),
    ensures
        action_at(ts, ts.len() as int, rule).value is Err,
        !(ts[i].token is Allow) && !(ts[i].token is Deny) && !(ts[i].token is Passthrough) && !(
        ts[i].token is Force) && !(ts[i].token is Forward) && !(ts[i].token is Evaluate)
            ==> action_at(ts, i, rule).value is Err,
        ts[i].token is Force && tok(ts, i + 1) != Some(TokenView::Passthrough) ==> action_at(
            ts,
            i,
            rule,
        ).value is Err,
        ts[i].token is Forward && !(tok(ts, i + 1) is Some && tok(ts, i + 1)->0 is Ident)
            ==> action_at(ts, i, rule).value is Err,
        ts[i].token is Flag && !(tok(ts, i + 1) is Some && tok(ts, i + 1)->0 is FlagLit)
            ==> params_at(ts, i, rule).value is Err,
        ts[i].token is Skip && !(tok(ts, i + 1) is Some && tok(ts, i + 1)->0 is Number)
            ==> params_at(ts, i, rule).value is Err,
        ts[i].token is Opts && tok(ts, i + 1) != Some(TokenView::LBracket) ==> params_at(
            ts,
            i,
            rule,
        ).value is Err,
        !(ts[i].token is RBracket) && !(ts[i].token is Comma) && !(ts[i].token is FlagLit)
            ==> opts_at(ts, i, acc).value is Err,
        opts_at(ts, ts.len() as int, acc).value is Err,
{
}

/// What is no statement is an error: another token at the beginning of one, a table without
/// a name, a default, a default action or braces, one with a rule in error or that is not
/// closed, an entry without a name, and a variable without a name or a pattern. An error in
/// a statement is an error of the text.
pub proof fn what_is_no_statement_is_an_error(ts: Seq<SpannedView>, i: int, built: Built)
    requires
        0 <= i < ts.len(),
    ensures
        !(ts[i].token is Let) && !(ts[i].token is Table) && !(ts[i].token is Entry) && !(
        ts[i].token is Audit) && !(ts[i].token is Newline) && ts[i].token != TokenView::Ident(
            "local_rules"@,
        ) ==> statement_at(ts, i, built).value == Err::<Built, ErrorView>(
            ErrorView::UnexpectedTopLevel {
                token: ts[i].token,
                line: ts[i].line,
                col: ts[i].col,
            },
        ),
        ts[i].token is Table && !(tok(ts, i + 1) is Some && tok(ts, i + 1)->0 is Ident)
            ==> statement_at(ts, i, built).value is Err,
        ts[i].token is Table && (tok(ts, i + 1) is Some && tok(ts, i + 1)->0 is Ident) && tok(
            ts,
            i + 2,
        ) != Some(TokenView::Default) ==> statement_at(ts, i, built).value is Err,
        ts[i].token is Entry && !(tok(ts, i + 1) is Some && tok(ts, i + 1)->0 is Ident)
            ==> statement_at(ts, i, built).value is Err,
        ts[i].token is Let && !(tok(ts, i + 1) is Some && tok(ts, i + 1)->0 is Ident)
            ==> statement_at(ts, i, built).value is Err,
        ts[i].token is Let && (tok(ts, i + 1) is Some && tok(ts, i + 1)->0 is Ident) && tok(
            ts,
            i + 2,
        ) != Some(TokenView::Equals) ==> statement_at(ts, i, built).value is Err,
        ts[i].token is Let && (tok(ts, i + 1) is Some && tok(ts, i + 1)->0 is Ident) && tok(
            ts,
            i + 2,
        ) == Some(TokenView::Equals) && !(tok(ts, i + 3) is Some && (tok(ts, i + 3)->0 is Regex
            || tok(ts, i + 3)->0 is VarRef)) ==> statement_at(ts, i, built).value is Err,
        rules_at(ts, i, built.vars, Seq::empty()).value is Ok ==> tok(
            ts,
            rules_at(ts, i, built.vars, Seq::empty()).end,
        ) is None || tok(ts, rules_at(ts, i, built.vars, Seq::empty()).end) == Some(
            TokenView::RBrace,
        ),
        !(ts[i].token is RBrace) && rule_at(ts, i, built.vars).value is Err ==> rules_at(
            ts,
            i,
            built.vars,
            Seq::empty(),
        ).value is Err,
        statement_at(ts, i, built).value matches Err(e) ==> program_at(ts, i, built).value == Err::<
            ConfigView,
            ErrorView,
        >(e),
{
    lemma_rules_to_the_brace(ts, i, built.vars, Seq::empty());
}

proof fn lemma_rules_to_the_brace(
    ts: Seq<SpannedView>,
    i: int,
    vars: Map<Seq<char>, Seq<char>>,
    acc: Seq<RuleView>,
)
    requires
        0 <= i <= ts.len(),
    ensures
        ({
            let read = rules_at(ts, i, vars, acc);
            read.value is Ok ==> tok(ts, read.end) is None || tok(ts, read.end) == Some(
                TokenView::RBrace,
            )
        }),
    decreases ts.len() - i,
{
    if !(tok(ts, i) is None || tok(ts, i) == Some(TokenView::RBrace)) {
        let one = rule_at(ts, i, vars);
        if one.value is Ok {
            lemma_rule_order(ts, i, vars);
            lemma_skipped(ts, one.end);
            let next = skip_newlines(ts, one.end);
            assert(i < next <= ts.len());
            lemma_rules_to_the_brace(ts, next, vars, acc.push(one.value->Ok_0));
        }
    }
}

proof fn lemma_skipped(ts: Seq<SpannedView>, i: int)
    requires
        0 <= i <= ts.len(),
    ensures
        i <= skip_newlines(ts, i) <= ts.len(),
    decreases ts.len() - i,
{
    if i < ts.len() && ts[i].token == TokenView::Newline {
        lemma_skipped(ts, i + 1);
    }
}

} // verus!

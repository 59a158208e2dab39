//! What holds of configurations that have been checked.
use vstd::prelude::*;
use crate::config::{
    blank_config, checked, is_outside, pattern_field, prepared, resolved_rule, resolved_rules,
    resolved_tables, rule_fault, rule_pattern_fault, rules_fault, rules_pattern_fault, tables_fault,
    tables_pattern_fault, with_pattern, Action, ConfigView, PATTERN_FIELDS, RuleView, TableView,
};
use crate::constants::{reference_at, substituted, substituted_from};
use crate::dsl_grammar::{config_of, program_at, statement_at, table_at, tok, Built};
use crate::engine_model::{
    call_eval, command_ctx, commands_eval, decision_of, field_ctx, field_text, fields_eval,
    fields_of, found_above, lemma_unvisited_drops, lemma_unvisited_push, merged, own_fields,
    rule_matches, rules_eval, settled_value, table_eval, target_of, unvisited, wrapped_command,
    wrapped_commands, CtxView, Decision, FactsView, MAX_WRAPPER_DEPTH, ResultView, WorldView,
};
use crate::error::ErrorView;
use crate::lexer::{tokens_of, SpannedView, TokenView};
use crate::paths::parent;
use crate::patterns::pattern_error;
use crate::shell_grammar::{commands_of, CommandView};
use crate::strmap::{inserted, key_from, lemma_key_from, lookup};

verus! {

proof fn lemma_rules_fault(
    tables: Seq<(Seq<char>, TableView)>,
    table: Seq<char>,
    rules: Seq<RuleView>,
    from: int,
    i: int,
)
    requires
        0 <= from <= i < rules.len(),
        rules_fault(tables, table, rules, from) is None,
    ensures
        rule_fault(tables, table, i as nat, rules[i]) is None,
    decreases i - from,
{
    if from < i {
        lemma_rules_fault(tables, table, rules, from + 1, i);
    }
}

proof fn lemma_tables_fault(tables: Seq<(Seq<char>, TableView)>, from: int, t: int)
    requires
        0 <= from <= t < tables.len(),
        tables_fault(tables, from) is None,
    ensures
        rules_fault(tables, tables[t].0, tables[t].1.rules, 0) is None,
    decreases t - from,
{
    if from < t {
        lemma_tables_fault(tables, from + 1, t);
    }
}

proof fn lemma_rule_pattern_fault(rule: RuleView, from: int, k: int)
    requires
        0 <= from <= k < PATTERN_FIELDS,
        rule_pattern_fault(rule, from) is None,
    ensures
        pattern_field(rule, k) matches Some(p) ==> pattern_error(p) is None,
    decreases k - from,
{
    if from < k {
        lemma_rule_pattern_fault(rule, from + 1, k);
    }
}

proof fn lemma_rules_pattern_fault(rules: Seq<RuleView>, from: int, i: int)
    requires
        0 <= from <= i < rules.len(),
        rules_pattern_fault(rules, from) is None,
    ensures
        rule_pattern_fault(rules[i], 0) is None,
    decreases i - from,
{
    if from < i {
        lemma_rules_pattern_fault(rules, from + 1, i);
    }
}

proof fn lemma_tables_pattern_fault(tables: Seq<(Seq<char>, TableView)>, from: int, t: int)
    requires
        0 <= from <= t < tables.len(),
        tables_pattern_fault(tables, from) is None,
    ensures
        rules_pattern_fault(tables[t].1.rules, 0) is None,
    decreases t - from,
{
    if from < t {
        lemma_tables_pattern_fault(tables, from + 1, t);
    }
}

/// In a configuration that has been checked the entry table exists, and so does every
/// target of a rule; `forward` has a target; `evaluate` has one way to find the wrapped
/// command; paths stay inside; and all patterns compile.
pub proof fn checked_config_is_in_order(config: ConfigView, t: int, i: int, k: int)
    requires
        checked(config) is Ok,
        0 <= t < config.tables.len(),
        0 <= i < config.tables[t].1.rules.len(),
        0 <= k < PATTERN_FIELDS,
    ensures
        lookup(config.tables, config.entry_table) is Some,
        ({
            let rule = config.tables[t].1.rules[i];
            &&& rule.action == Action::Forward ==> rule.target is Some
            &&& (rule.action == Action::Forward || rule.action == Action::Evaluate)
                && rule.target is Some ==> lookup(config.tables, rule.target->0) is Some
            &&& rule.action == Action::Evaluate ==> rule.flag_arg is None || rule.positional is None
            &&& rule.has_file is Some ==> !is_outside(rule.has_file->0)
            &&& rule.has_file_not is Some ==> !is_outside(rule.has_file_not->0)
            &&& pattern_field(rule, k) matches Some(p) ==> pattern_error(p) is None
        }),
{
    lemma_tables_fault(config.tables, 0, t);
    lemma_rules_fault(config.tables, config.tables[t].0, config.tables[t].1.rules, 0, i);
    lemma_tables_pattern_fault(config.tables, 0, t);
    lemma_rules_pattern_fault(config.tables[t].1.rules, 0, i);
    lemma_rule_pattern_fault(config.tables[t].1.rules[i], 0, k);
}

/// Whether every default of a configuration is an action that decides.
pub open spec fn defaults_decide(config: ConfigView) -> bool {
    forall|t: int|
        0 <= t < config.tables.len() ==> decision_of(
            (#[trigger] config.tables[t]).1.default,
        ) is Some
}

/// Whether a rule leads only to tables that exist, and all its patterns compile.
spec fn usable(config: ConfigView, rule: RuleView) -> bool {
    &&& rule.action == Action::Forward ==> rule.target is Some
    &&& (rule.action == Action::Forward || rule.action == Action::Evaluate) && rule.target is Some
        ==> key_from(config.tables, rule.target->0, 0) is Some
    &&& forall|k: int|
        0 <= k < PATTERN_FIELDS ==> match #[trigger] pattern_field(rule, k) {
            Some(p) => pattern_error(p) is None,
            None => true,
        }
}

spec fn all_usable(config: ConfigView, rules: Seq<RuleView>) -> bool {
    forall|i: int| 0 <= i < rules.len() ==> usable(config, #[trigger] rules[i])
}

proof fn lemma_all_usable(config: ConfigView, t: int)
    requires
        checked(config) is Ok,
        0 <= t < config.tables.len(),
    ensures
        all_usable(config, config.tables[t].1.rules),
{
    let rules = config.tables[t].1.rules;
    assert forall|i: int| 0 <= i < rules.len() implies usable(config, #[trigger] rules[i]) by {
        checked_config_is_in_order(config, t, i, 0);
        assert forall|k: int| 0 <= k < PATTERN_FIELDS implies match #[trigger] pattern_field(
            rules[i],
            k,
        ) {
            Some(p) => pattern_error(p) is None,
            None => true,
        } by {
            checked_config_is_in_order(config, t, i, k);
        }
    }
}

/// Whether the only thing that keeps a result back is that a path is not known.
pub open spec fn only_unprobed<T>(value: Result<T, ErrorView>) -> bool {
    value is Err ==> value->Err_0 is Unprobed
}

proof fn lemma_search_only_unprobed(files: FactsView, path: Seq<char>, dir: Seq<char>)
    ensures
        only_unprobed(found_above(files, path, dir)),
    decreases dir.len(),
{
    match parent(dir) {
        Some(up) => {
            if up.len() < dir.len() {
                lemma_search_only_unprobed(files, path, up);
            }
        },
        None => {},
    }
}

proof fn lemma_rule_only_unprobed(
    config: ConfigView,
    rule: RuleView,
    ctx: CtxView,
    files: FactsView,
)
    requires
        usable(config, rule),
    ensures
        only_unprobed(rule_matches(rule, ctx, files)),
{
    if rule.has_file is Some {
        lemma_search_only_unprobed(files, rule.has_file->0, ctx.cwd);
    }
    if rule.has_file_not is Some {
        lemma_search_only_unprobed(files, rule.has_file_not->0, ctx.cwd);
    }
    assert(pattern_field(rule, 0) == rule.tool);
    assert(pattern_field(rule, 1) == rule.command);
    assert(pattern_field(rule, 2) == rule.file_path);
    assert(pattern_field(rule, 3) == rule.subagent_type);
    assert(pattern_field(rule, 4) == rule.prompt);
    assert(pattern_field(rule, 5) == rule.cwd);
    assert(pattern_field(rule, 6) == rule.cwd_not);
}

proof fn lemma_entry_known(config: ConfigView)
    requires
        checked(config) is Ok,
    ensures
        key_from(config.tables, config.entry_table, 0) is Some,
{
}

proof fn lemma_decides_table(
    config: ConfigView,
    name: Seq<char>,
    ctx: CtxView,
    visited: Seq<Seq<char>>,
    world: WorldView,
    depth: nat,
)
    requires
        checked(config) is Ok,
        defaults_decide(config),
        key_from(config.tables, name, 0) is Some,
    ensures
        only_unprobed(settled_value(table_eval(config, name, ctx, visited, world, depth).value)),
    decreases
            MAX_WRAPPER_DEPTH - depth,
            unvisited(config.tables, visited, config.tables.len() as int),
            0int,
{
    if !visited.contains(name) {
        lemma_key_from(config.tables, name, 0);
        match key_from(config.tables, name, 0) {
            Some(t) => {
                lemma_unvisited_drops(config.tables, visited, t, config.tables.len() as int);
                lemma_all_usable(config, t);
                lemma_decides_rules(
                    config,
                    name,
                    config.tables[t].1,
                    0,
                    ctx,
                    visited.push(name),
                    world,
                    depth,
                );
            },
            None => {},
        }
    }
}

proof fn lemma_decides_rules(
    config: ConfigView,
    name: Seq<char>,
    table: TableView,
    i: int,
    ctx: CtxView,
    visited: Seq<Seq<char>>,
    world: WorldView,
    depth: nat,
)
    requires
        checked(config) is Ok,
        defaults_decide(config),
        all_usable(config, table.rules),
        decision_of(table.default) is Some,
    ensures
        only_unprobed(
            settled_value(
                rules_eval(config, name, table, i, ctx, visited, world, depth).value,
            ),
        ),
    decreases
            MAX_WRAPPER_DEPTH - depth,
            unvisited(config.tables, visited, config.tables.len() as int),
            table.rules.len() - i,
{
    if 0 <= i < table.rules.len() {
        let rule = table.rules[i];
        lemma_rule_only_unprobed(config, rule, ctx, world.files);
        lemma_entry_known(config);
        match rule_matches(rule, ctx, world.files) {
            Err(_) => {},
            Ok(false) => {
                lemma_decides_rules(config, name, table, i + 1, ctx, visited, world, depth);
            },
            Ok(true) => {
                if decision_of(rule.action) is None {
                    if rule.action == Action::Forward {
                        lemma_decides_table(config, target_of(rule), ctx, visited, world, depth);
                    } else if depth < MAX_WRAPPER_DEPTH {
                        match wrapped_command(rule, ctx.written) {
                            Some(text) => {
                                lemma_decides_commands(
                                    config,
                                    ctx.tool_name,
                                    ctx.fields,
                                    wrapped_commands(text, ctx, world.home),
                                    match rule.target {
                                        Some(target) => target,
                                        None => config.entry_table,
                                    },
                                    world,
                                    depth + 1,
                                    0,
                                    None,
                                );
                            },
                            None => {},
                        }
                        lemma_decides_rules(config, name, table, i + 1, ctx, visited, world, depth);
                    }
                }
            },
        }
    }
}

proof fn lemma_decides_commands(
    config: ConfigView,
    tool: Seq<char>,
    own: Map<Seq<char>, Seq<char>>,
    commands: Seq<CommandView>,
    name: Seq<char>,
    world: WorldView,
    depth: nat,
    j: int,
    acc: Option<ResultView>,
)
    requires
        checked(config) is Ok,
        defaults_decide(config),
        key_from(config.tables, name, 0) is Some,
    ensures
        only_unprobed(commands_eval(config, tool, own, commands, name, world, depth, j, acc).value),
    decreases
            MAX_WRAPPER_DEPTH - depth,
            config.tables.len() + 1,
            commands.len() - j,
{
    if 0 <= j < commands.len() {
        lemma_unvisited_push(
            config.tables,
            Seq::empty(),
            Seq::empty(),
            config.tables.len() as int,
        );
        let ctx = command_ctx(tool, own, commands[j], world.env);
        lemma_decides_table(config, name, ctx, Seq::empty(), world, depth);
        let one = table_eval(config, name, ctx, Seq::empty(), world, depth);
        match settled_value(one.value) {
            Err(_) => {},
            Ok(result) => {
                let so_far = merged(acc, result);
                if so_far.decision != Decision::Deny {
                    lemma_decides_commands(
                        config,
                        tool,
                        own,
                        commands,
                        name,
                        world,
                        depth,
                        j + 1,
                        Some(so_far),
                    );
                }
            },
        }
    }
}

proof fn lemma_decides_fields(
    config: ConfigView,
    tool: Seq<char>,
    input: Map<Seq<char>, Seq<char>>,
    cwd: Seq<char>,
    world: WorldView,
    fields: Seq<Seq<char>>,
    j: int,
    acc: Option<ResultView>,
)
    requires
        checked(config) is Ok,
        defaults_decide(config),
    ensures
        only_unprobed(fields_eval(config, tool, input, cwd, world, fields, j, acc).value),
    decreases fields.len() - j,
{
    if 0 <= j < fields.len() {
        let ctx = field_ctx(
            tool,
            own_fields(tool, input),
            fields[j],
            field_text(input, fields[j]),
            cwd,
            world.env,
        );
        lemma_entry_known(config);
        lemma_decides_table(config, config.entry_table, ctx, Seq::empty(), world, 0);
        let one = settled_value(
            table_eval(config, config.entry_table, ctx, Seq::empty(), world, 0).value,
        );
        if one is Ok {
            lemma_decides_fields(
                config,
                tool,
                input,
                cwd,
                world,
                fields,
                j + 1,
                Some(merged(acc, one->Ok_0)),
            );
        }
    }
}

/// Every tool call comes to a result by a configuration that has been checked and whose
/// defaults decide, unless a path must be looked up first.
pub proof fn checked_config_decides(
    config: ConfigView,
    tool: Seq<char>,
    input: Map<Seq<char>, Seq<char>>,
    cwd: Seq<char>,
    world: WorldView,
)
    requires
        checked(config) is Ok,
        defaults_decide(config),
    ensures
        only_unprobed(call_eval(config, tool, input, cwd, world).value),
{
    lemma_entry_known(config);
    lemma_decides_commands(
        config,
        tool,
        own_fields(tool, input),
        commands_of(field_text(input, "command"@), cwd, world.home),
        config.entry_table,
        world,
        0,
        0,
        None,
    );
    lemma_decides_fields(config, tool, input, cwd, world, fields_of(tool), 0, None);
    lemma_decides_table(
        config,
        config.entry_table,
        field_ctx(tool, own_fields(tool, input), "tool"@, tool, cwd, world.env),
        Seq::empty(),
        world,
        0,
    );
}

proof fn lemma_statement_defaults(ts: Seq<SpannedView>, i: int, built: Built)
    requires
        defaults_decide(built.config),
        statement_at(ts, i, built).value is Ok,
    ensures
        defaults_decide(statement_at(ts, i, built).value->Ok_0.config),
{
    let before = built.config.tables;
    let after = statement_at(ts, i, built).value->Ok_0.config.tables;
    if tok(ts, i) == Some(TokenView::Table) {
        let (name, table) = table_at(ts, i + 1, built.vars).value->Ok_0;
        lemma_key_from(before, name, 0);
        assert(after == inserted(before, name, table));
        assert(decision_of(table.default) is Some);
        assert forall|t: int| 0 <= t < after.len() implies decision_of(
            (#[trigger] after[t]).1.default,
        ) is Some by {
            if t < before.len() {
                assert(decision_of(before[t].1.default) is Some);
            }
        }
    } else {
        assert(after == before);
    }
}

proof fn lemma_program_defaults(ts: Seq<SpannedView>, i: int, built: Built)
    requires
        defaults_decide(built.config),
    ensures
        program_at(ts, i, built).value matches Ok(config) ==> defaults_decide(config),
    decreases ts.len() - i,
{
    if tok(ts, i) is Some {
        let one = statement_at(ts, i, built);
        if one.value is Ok {
            lemma_statement_defaults(ts, i, built);
            if i < one.end <= ts.len() {
                lemma_program_defaults(ts, one.end, one.value->Ok_0);
            }
        }
    }
}

/// Every tool call comes to a result by a configuration that is written in the rule
/// language and was accepted, unless a path must be looked up first.
pub proof fn accepted_config_decides(
    text: Seq<char>,
    tool: Seq<char>,
    input: Map<Seq<char>, Seq<char>>,
    cwd: Seq<char>,
    world: WorldView,
)
    requires
        config_of(text) is Ok,
    ensures
        only_unprobed(call_eval(config_of(text)->Ok_0, tool, input, cwd, world).value),
{
    lemma_program_defaults(
        tokens_of(text)->Ok_0,
        0,
        Built { config: blank_config(), vars: Map::empty() },
    );
    checked_config_decides(config_of(text)->Ok_0, tool, input, cwd, world);
}

proof fn lemma_no_reference(
    s: Seq<char>,
    i: int,
    constants: Map<Seq<char>, Seq<char>>,
)
    requires
        0 <= i <= s.len(),
        forall|k: int| 0 <= k < s.len() ==> s[k] != '$',
    ensures
        substituted_from(s, i, constants, s.take(i)) == Ok::<Seq<char>, ErrorView>(s),
    decreases s.len() - i,
{
    if i < s.len() {
        lemma_no_reference(s, i + 1, constants);
        assert(s.take(i).push(s[i]) =~= s.take(i + 1));
    } else {
        assert(s.take(i) =~= s);
    }
}

/// A pattern without `$` stays as it is.
pub proof fn patterns_without_references_stay(s: Seq<char>, constants: Map<Seq<char>, Seq<char>>)
    requires
        forall|k: int| 0 <= k < s.len() ==> s[k] != '$',
    ensures
        substituted(s, constants) == Ok::<Seq<char>, ErrorView>(s),
{
    lemma_no_reference(s, 0, constants);
    assert(s.take(0) =~= Seq::empty());
}

/// A constant stands for its value: a pattern that is one reference becomes the value.
pub proof fn reference_becomes_value(s: Seq<char>, constants: Map<Seq<char>, Seq<char>>)
    requires
        reference_at(s, 0) is Some,
        (reference_at(s, 0)->0).1 == s.len(),
        s.len() > 0,
    ensures
        substituted(s, constants) == if constants.dom().contains((reference_at(s, 0)->0).0) {
            Ok::<Seq<char>, ErrorView>(constants[(reference_at(s, 0)->0).0])
        } else {
            Err(
                ErrorView::UnknownConstant { name: (reference_at(s, 0)->0).0, pattern: s },
            )
        },
{
    let name = (reference_at(s, 0)->0).0;
    assert(Seq::<char>::empty() + constants[name] =~= constants[name]);
    assert(substituted_from(s, s.len() as int, constants, constants[name]) == Ok::<
        Seq<char>,
        ErrorView,
    >(constants[name]));
}

proof fn lemma_other_patterns(rule: RuleView, k: int, p: Seq<char>, j: int)
    requires
        0 <= k < PATTERN_FIELDS,
        0 <= j < PATTERN_FIELDS,
        j != k,
    ensures
        pattern_field(with_pattern(rule, k, p), j) == pattern_field(rule, j),
{
}

proof fn lemma_resolved_rule(
    rule: RuleView,
    from: int,
    constants: Map<Seq<char>, Seq<char>>,
    k: int,
)
    requires
        0 <= from <= k < PATTERN_FIELDS,
        resolved_rule(rule, from, constants) is Ok,
    ensures
        pattern_field(rule, k) matches Some(p) ==> substituted(p, constants) is Ok,
    decreases k - from,
{
    if from < k {
        match pattern_field(rule, from) {
            Some(p) => {
                let text = substituted(p, constants)->Ok_0;
                lemma_other_patterns(rule, from, text, k);
                lemma_resolved_rule(with_pattern(rule, from, text), from + 1, constants, k);
            },
            None => {
                lemma_resolved_rule(rule, from + 1, constants, k);
            },
        }
    }
}

proof fn lemma_resolved_rules(
    rules: Seq<RuleView>,
    from: int,
    constants: Map<Seq<char>, Seq<char>>,
    acc: Seq<RuleView>,
    i: int,
)
    requires
        0 <= from <= i < rules.len(),
        resolved_rules(rules, from, constants, acc) is Ok,
    ensures
        resolved_rule(rules[i], 0, constants) is Ok,
    decreases i - from,
{
    if from < i {
        let rule = resolved_rule(rules[from], 0, constants)->Ok_0;
        lemma_resolved_rules(rules, from + 1, constants, acc.push(rule), i);
    }
}

proof fn lemma_resolved_tables(
    tables: Seq<(Seq<char>, TableView)>,
    from: int,
    constants: Map<Seq<char>, Seq<char>>,
    acc: Seq<(Seq<char>, TableView)>,
    t: int,
)
    requires
        0 <= from <= t < tables.len(),
        resolved_tables(tables, from, constants, acc) is Ok,
    ensures
        resolved_rules(tables[t].1.rules, 0, constants, Seq::empty()) is Ok,
    decreases t - from,
{
    if from < t {
        let rules = resolved_rules(tables[from].1.rules, 0, constants, Seq::empty())->Ok_0;
        lemma_resolved_tables(
            tables,
            from + 1,
            constants,
            acc.push((tables[from].0, TableView { rules, ..tables[from].1 })),
            t,
        );
    }
}

/// A reference to a constant that is not defined, in any pattern field of any rule, is an
/// error.
pub proof fn undefined_constants_are_errors(config: ConfigView, t: int, i: int, k: int)
    requires
        0 <= t < config.tables.len(),
        0 <= i < config.tables[t].1.rules.len(),
        0 <= k < PATTERN_FIELDS,
        pattern_field(config.tables[t].1.rules[i], k) is Some,
        substituted(
            pattern_field(config.tables[t].1.rules[i], k)->0,
            config.constants,
        ) is Err,
    ensures
        prepared(config) is Err,
{
    if prepared(config) is Ok {
        lemma_resolved_tables(config.tables, 0, config.constants, Seq::empty(), t);
        lemma_resolved_rules(
            config.tables[t].1.rules,
            0,
            config.constants,
            Seq::empty(),
            i,
        );
        lemma_resolved_rule(config.tables[t].1.rules[i], 0, config.constants, k);
    }
}

} // verus!

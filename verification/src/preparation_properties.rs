//! How a configuration is put in order before it is used.
use vstd::prelude::*;
use crate::config::{
    checked, is_outside, pattern_field, prepared, resolved_rule, resolved_rules, resolved_tables,
    rule_fault, rule_pattern_fault, rules_fault, rules_pattern_fault, summary_text, table_line,
    table_lines, tables_fault, tables_pattern_fault, with_pattern, Action, ConfigView, RuleView,
    TableView,
};
use crate::config_properties::checked_config_is_in_order;
use crate::constants::{name_end, reference_at, run_end, substituted, substituted_from};
use crate::error::ErrorView;
use crate::patterns::pattern_error;
use crate::strmap::{lemma_key_from, lookup};
use crate::text::decimal;

verus! {

/// A pattern with constants put in place, if there is one.
pub open spec fn put_in_place(
    p: Option<Seq<char>>,
    constants: Map<Seq<char>, Seq<char>>,
) -> Option<Seq<char>> {
    match p {
        Some(p) => Some(substituted(p, constants)->Ok_0),
        None => None,
    }
}

/// Whether constants can be put in place in a pattern, if there is one.
pub open spec fn can_be_put(
    p: Option<Seq<char>>,
    constants: Map<Seq<char>, Seq<char>>,
) -> bool {
    p matches Some(p) ==> substituted(p, constants) is Ok
}

/// `rule` with constants put in place in its first `n` pattern fields.
spec fn partly(rule: RuleView, n: int, constants: Map<Seq<char>, Seq<char>>) -> RuleView {
    RuleView {
        tool: if n > 0 {
            put_in_place(rule.tool, constants)
        } else {
            rule.tool
        },
        command: if n > 1 {
            put_in_place(rule.command, constants)
        } else {
            rule.command
        },
        file_path: if n > 2 {
            put_in_place(rule.file_path, constants)
        } else {
            rule.file_path
        },
        subagent_type: if n > 3 {
            put_in_place(rule.subagent_type, constants)
        } else {
            rule.subagent_type
        },
        prompt: if n > 4 {
            put_in_place(rule.prompt, constants)
        } else {
            rule.prompt
        },
        cwd: if n > 5 {
            put_in_place(rule.cwd, constants)
        } else {
            rule.cwd
        },
        cwd_not: if n > 6 {
            put_in_place(rule.cwd_not, constants)
        } else {
            rule.cwd_not
        },
        arg: if n > 7 {
            put_in_place(rule.arg, constants)
        } else {
            rule.arg
        },
        arg_not: if n > 8 {
            put_in_place(rule.arg_not, constants)
        } else {
            rule.arg_not
        },
        stdin: if n > 9 {
            put_in_place(rule.stdin, constants)
        } else {
            rule.stdin
        },
        stdin_not: if n > 10 {
            put_in_place(rule.stdin_not, constants)
        } else {
            rule.stdin_not
        },
        stdout: if n > 11 {
            put_in_place(rule.stdout, constants)
        } else {
            rule.stdout
        },
        stdout_not: if n > 12 {
            put_in_place(rule.stdout_not, constants)
        } else {
            rule.stdout_not
        },
        env: if n > 13 {
            put_in_place(rule.env, constants)
        } else {
            rule.env
        },
        env_not: if n > 14 {
            put_in_place(rule.env_not, constants)
        } else {
            rule.env_not
        },
        ..rule
    }
}

spec fn all_can_be_put(rule: RuleView, constants: Map<Seq<char>, Seq<char>>) -> bool {
    forall|j: int| 0 <= j < 15 ==> can_be_put(#[trigger] pattern_field(rule, j), constants)
}

proof fn lemma_partly(rule: RuleView, k: int, constants: Map<Seq<char>, Seq<char>>)
    requires
        0 <= k <= 15,
        all_can_be_put(rule, constants),
    ensures
        resolved_rule(partly(rule, k, constants), k, constants) == Ok::<RuleView, ErrorView>(
            partly(rule, 15, constants),
        ),
    decreases 15 - k,
{
    if k < 15 {
        lemma_partly(rule, k + 1, constants);
        assert(can_be_put(pattern_field(rule, k), constants));
        let now = partly(rule, k, constants);
        assert(pattern_field(now, k) == pattern_field(rule, k));
        if pattern_field(rule, k) is Some {
            let text = substituted(pattern_field(rule, k)->0, constants)->Ok_0;
            assert(with_pattern(now, k, text) == partly(rule, k + 1, constants));
        } else {
            assert(now == partly(rule, k + 1, constants));
        }
    }
}

proof fn lemma_unputtable(
    rule: RuleView,
    j: int,
    constants: Map<Seq<char>, Seq<char>>,
    k: int,
)
    requires
        0 <= j <= k < 15,
    ensures
        !can_be_put(pattern_field(rule, k), constants) ==> resolved_rule(
            rule,
            j,
            constants,
        ) is Err,
    decreases k - j,
{
    if j < k {
        match pattern_field(rule, j) {
            Some(p) => {
                if substituted(p, constants) is Ok {
                    let next = with_pattern(rule, j, substituted(p, constants)->Ok_0);
                    assert(pattern_field(next, k) == pattern_field(rule, k));
                    lemma_unputtable(next, j + 1, constants, k);
                }
            },
            None => lemma_unputtable(rule, j + 1, constants, k),
        }
    }
}

/// Constants are put in place in every pattern of a rule, and nowhere else: its paths, its
/// action and what belongs to the action stay as they are. Where one cannot be put in place
/// the rule is in error.
pub proof fn constants_are_put_in_place_in_every_pattern(
    rule: RuleView,
    constants: Map<Seq<char>, Seq<char>>,
)
    ensures
        ({
            &&& can_be_put(rule.tool, constants)
            &&& can_be_put(rule.command, constants)
            &&& can_be_put(rule.file_path, constants)
            &&& can_be_put(rule.subagent_type, constants)
            &&& can_be_put(rule.prompt, constants)
            &&& can_be_put(rule.cwd, constants)
            &&& can_be_put(rule.cwd_not, constants)
            &&& can_be_put(rule.arg, constants)
            &&& can_be_put(rule.arg_not, constants)
            &&& can_be_put(rule.stdin, constants)
            &&& can_be_put(rule.stdin_not, constants)
            &&& can_be_put(rule.stdout, constants)
            &&& can_be_put(rule.stdout_not, constants)
            &&& can_be_put(rule.env, constants)
            &&& can_be_put(rule.env_not, constants)
        }) ==> resolved_rule(rule, 0, constants) == Ok::<RuleView, ErrorView>(
            RuleView {
                tool: put_in_place(rule.tool, constants),
                command: put_in_place(rule.command, constants),
                file_path: put_in_place(rule.file_path, constants),
                subagent_type: put_in_place(rule.subagent_type, constants),
                prompt: put_in_place(rule.prompt, constants),
                cwd: put_in_place(rule.cwd, constants),
                cwd_not: put_in_place(rule.cwd_not, constants),
                arg: put_in_place(rule.arg, constants),
                arg_not: put_in_place(rule.arg_not, constants),
                stdin: put_in_place(rule.stdin, constants),
                stdin_not: put_in_place(rule.stdin_not, constants),
                stdout: put_in_place(rule.stdout, constants),
                stdout_not: put_in_place(rule.stdout_not, constants),
                env: put_in_place(rule.env, constants),
                env_not: put_in_place(rule.env_not, constants),
                ..rule
            },
        ),
        !can_be_put(rule.tool, constants) ==> resolved_rule(rule, 0, constants) is Err,
        !can_be_put(rule.command, constants) ==> resolved_rule(rule, 0, constants) is Err,
        !can_be_put(rule.file_path, constants) ==> resolved_rule(rule, 0, constants) is Err,
        !can_be_put(rule.subagent_type, constants) ==> resolved_rule(rule, 0, constants) is Err,
        !can_be_put(rule.prompt, constants) ==> resolved_rule(rule, 0, constants) is Err,
        !can_be_put(rule.cwd, constants) ==> resolved_rule(rule, 0, constants) is Err,
        !can_be_put(rule.cwd_not, constants) ==> resolved_rule(rule, 0, constants) is Err,
        !can_be_put(rule.arg, constants) ==> resolved_rule(rule, 0, constants) is Err,
        !can_be_put(rule.arg_not, constants) ==> resolved_rule(rule, 0, constants) is Err,
        !can_be_put(rule.stdin, constants) ==> resolved_rule(rule, 0, constants) is Err,
        !can_be_put(rule.stdin_not, constants) ==> resolved_rule(rule, 0, constants) is Err,
        !can_be_put(rule.stdout, constants) ==> resolved_rule(rule, 0, constants) is Err,
        !can_be_put(rule.stdout_not, constants) ==> resolved_rule(rule, 0, constants) is Err,
        !can_be_put(rule.env, constants) ==> resolved_rule(rule, 0, constants) is Err,
        !can_be_put(rule.env_not, constants) ==> resolved_rule(rule, 0, constants) is Err,
{
    if all_can_be_put(rule, constants) {
        lemma_partly(rule, 0, constants);
        assert(partly(rule, 0, constants) == rule);
    }
    lemma_unputtable(rule, 0, constants, 0);
    lemma_unputtable(rule, 0, constants, 1);
    lemma_unputtable(rule, 0, constants, 2);
    lemma_unputtable(rule, 0, constants, 3);
    lemma_unputtable(rule, 0, constants, 4);
    lemma_unputtable(rule, 0, constants, 5);
    lemma_unputtable(rule, 0, constants, 6);
    lemma_unputtable(rule, 0, constants, 7);
    lemma_unputtable(rule, 0, constants, 8);
    lemma_unputtable(rule, 0, constants, 9);
    lemma_unputtable(rule, 0, constants, 10);
    lemma_unputtable(rule, 0, constants, 11);
    lemma_unputtable(rule, 0, constants, 12);
    lemma_unputtable(rule, 0, constants, 13);
    lemma_unputtable(rule, 0, constants, 14);
}

proof fn lemma_rules_in_place(
    rules: Seq<RuleView>,
    i: int,
    constants: Map<Seq<char>, Seq<char>>,
    acc: Seq<RuleView>,
    done: Seq<RuleView>,
)
    requires
        0 <= i <= rules.len(),
        acc.len() == i,
        done.len() == rules.len(),
        forall|k: int| 0 <= k < i ==> #[trigger] acc[k] == done[k],
        forall|k: int|
            0 <= k < rules.len() ==> resolved_rule(#[trigger] rules[k], 0, constants) == Ok::<
                RuleView,
                ErrorView,
            >(done[k]),
    ensures
        resolved_rules(rules, i, constants, acc) == Ok::<Seq<RuleView>, ErrorView>(done),
    decreases rules.len() - i,
{
    if i < rules.len() {
        assert(resolved_rule(rules[i], 0, constants) == Ok::<RuleView, ErrorView>(done[i]));
        lemma_rules_in_place(rules, i + 1, constants, acc.push(done[i]), done);
    } else {
        assert(acc =~= done);
    }
}

proof fn lemma_tables_in_place(
    tables: Seq<(Seq<char>, TableView)>,
    t: int,
    constants: Map<Seq<char>, Seq<char>>,
    acc: Seq<(Seq<char>, TableView)>,
    done: Seq<(Seq<char>, TableView)>,
)
    requires
        0 <= t <= tables.len(),
        acc.len() == t,
        done.len() == tables.len(),
        forall|k: int| 0 <= k < t ==> #[trigger] acc[k] == done[k],
        forall|k: int|
            0 <= k < tables.len() ==> is_in_place(#[trigger] tables[k], done[k], constants),
    ensures
        resolved_tables(tables, t, constants, acc) == Ok::<
            Seq<(Seq<char>, TableView)>,
            ErrorView,
        >(done),
    decreases tables.len() - t,
{
    if t < tables.len() {
        assert(is_in_place(tables[t], done[t], constants));
        lemma_rules_in_place(
            tables[t].1.rules,
            0,
            constants,
            Seq::empty(),
            done[t].1.rules,
        );
        lemma_tables_in_place(tables, t + 1, constants, acc.push(done[t]), done);
    } else {
        assert(acc =~= done);
    }
}

/// Whether a table is another with constants put in place in all its rules.
pub open spec fn is_in_place(
    entry: (Seq<char>, TableView),
    done: (Seq<char>, TableView),
    constants: Map<Seq<char>, Seq<char>>,
) -> bool {
    &&& done.0 == entry.0
    &&& done.1.default == entry.1.default
    &&& done.1.rules.len() == entry.1.rules.len()
    &&& forall|k: int|
        0 <= k < entry.1.rules.len() ==> resolved_rule(
            #[trigger] entry.1.rules[k],
            0,
            constants,
        ) == Ok::<RuleView, ErrorView>(done.1.rules[k])
}

/// To prepare a configuration is to put constants in place in all rules of all tables, in
/// order, and to check what comes of it; nothing else of it changes.
pub proof fn preparing_reaches_every_rule(
    config: ConfigView,
    done: Seq<(Seq<char>, TableView)>,
)
    requires
        done.len() == config.tables.len(),
        forall|t: int|
            0 <= t < config.tables.len() ==> is_in_place(
                #[trigger] config.tables[t],
                done[t],
                config.constants,
            ),
    ensures
        prepared(config) == checked(ConfigView { tables: done, ..config }),
        prepared(config) is Ok ==> prepared(config)->Ok_0 == (ConfigView {
            tables: done,
            ..config
        }),
{
    lemma_tables_in_place(config.tables, 0, config.constants, Seq::empty(), done);
}

/// Whether a table of a name exists.
pub open spec fn exists_in(tables: Seq<(Seq<char>, TableView)>, name: Seq<char>) -> bool {
    exists|t: int| 0 <= t < tables.len() && (#[trigger] tables[t]).0 == name
}

proof fn lemma_exists_in(tables: Seq<(Seq<char>, TableView)>, name: Seq<char>)
    ensures
        lookup(tables, name) is Some <==> exists_in(tables, name),
{
    lemma_key_from(tables, name, 0);
}

/// Whether a path may be looked for: it is relative, and holds no two dots in a row.
pub open spec fn may_be_looked_for(path: Option<Seq<char>>) -> bool {
    path matches Some(path) ==> !(path.len() > 0 && path[0] == '/') && forall|i: int|
        0 <= i && i + 1 < path.len() ==> !(#[trigger] path[i] == '.' && path[i + 1] == '.')
}

/// Whether a rule is in order: `forward` has a target, targets exist, `evaluate` does not
/// have both a flag and a number of arguments to skip, and its paths may be looked for.
pub open spec fn is_in_order(tables: Seq<(Seq<char>, TableView)>, rule: RuleView) -> bool {
    &&& rule.action == Action::Forward ==> rule.target is Some && exists_in(
        tables,
        rule.target->0,
    )
    &&& rule.action == Action::Evaluate ==> !(rule.flag_arg is Some && rule.positional is Some)
    &&& rule.action == Action::Evaluate && rule.target is Some ==> exists_in(
        tables,
        rule.target->0,
    )
    &&& may_be_looked_for(rule.has_file)
    &&& may_be_looked_for(rule.has_file_not)
}

proof fn lemma_outside(path: Seq<char>)
    ensures
        is_outside(path) <==> !may_be_looked_for(Some(path)),
{
}

/// A rule is found at fault if and only if it is not in order, and the fault says what is
/// wrong, with the number of the rule and its table.
pub proof fn faults_say_what_is_wrong(
    tables: Seq<(Seq<char>, TableView)>,
    table: Seq<char>,
    i: nat,
    rule: RuleView,
)
    ensures
        rule_fault(tables, table, i, rule) is None <==> is_in_order(tables, rule),
        rule.action == Action::Forward && rule.target is None ==> rule_fault(
            tables,
            table,
            i,
            rule,
        ) == Some(ErrorView::ForwardWithoutTarget { rule: i, table }),
        rule.action == Action::Forward && rule.target is Some && !exists_in(
            tables,
            rule.target->0,
        ) ==> rule_fault(tables, table, i, rule) == Some(
            ErrorView::ForwardToUnknown { rule: i, table, target: rule.target->0 },
        ),
        rule.action == Action::Evaluate && rule.flag_arg is Some && rule.positional is Some
            ==> rule_fault(tables, table, i, rule) == Some(
            ErrorView::FlagAndPositional { rule: i, table },
        ),
        rule.action == Action::Evaluate && !(rule.flag_arg is Some && rule.positional is Some)
            && rule.target is Some && !exists_in(tables, rule.target->0) ==> rule_fault(
            tables,
            table,
            i,
            rule,
        ) == Some(ErrorView::EvaluateToUnknown { rule: i, table, target: rule.target->0 }),
        rule.action != Action::Forward && rule.action != Action::Evaluate && !may_be_looked_for(
            rule.has_file,
        ) ==> rule_fault(tables, table, i, rule) == Some(
            ErrorView::HasFilePath { rule: i, table, negated: false, path: rule.has_file->0 },
        ),
        rule.action != Action::Forward && rule.action != Action::Evaluate && may_be_looked_for(
            rule.has_file,
        ) && !may_be_looked_for(rule.has_file_not) ==> rule_fault(tables, table, i, rule) == Some(
            ErrorView::HasFilePath { rule: i, table, negated: true, path: rule.has_file_not->0 },
        ),
{
    if rule.target is Some {
        lemma_exists_in(tables, rule.target->0);
    }
    if rule.has_file is Some {
        lemma_outside(rule.has_file->0);
    }
    if rule.has_file_not is Some {
        lemma_outside(rule.has_file_not->0);
    }
}

proof fn lemma_rules_in_order(
    tables: Seq<(Seq<char>, TableView)>,
    table: Seq<char>,
    rules: Seq<RuleView>,
    from: int,
    k: int,
)
    requires
        0 <= from <= k <= rules.len(),
        forall|i: int| 0 <= i < k ==> is_in_order(tables, #[trigger] rules[i]),
    ensures
        rules_fault(tables, table, rules, from) == rules_fault(tables, table, rules, k),
    decreases k - from,
{
    if from < k {
        assert(is_in_order(tables, rules[from]));
        faults_say_what_is_wrong(tables, table, from as nat, rules[from]);
        lemma_rules_in_order(tables, table, rules, from + 1, k);
    }
}

proof fn lemma_tables_in_order(tables: Seq<(Seq<char>, TableView)>, from: int, t: int)
    requires
        0 <= from <= t <= tables.len(),
        forall|s: int, i: int|
            0 <= s < t && 0 <= i < tables[s].1.rules.len() ==> is_in_order(
                tables,
                #[trigger] tables[s].1.rules[i],
            ),
    ensures
        tables_fault(tables, from) == tables_fault(tables, t),
    decreases t - from,
{
    if from < t {
        let rules = tables[from].1.rules;
        assert forall|i: int| 0 <= i < rules.len() implies is_in_order(
            tables,
            #[trigger] rules[i],
        ) by {
            assert(is_in_order(tables, tables[from].1.rules[i]));
        }
        lemma_rules_in_order(tables, tables[from].0, rules, 0, rules.len() as int);
        lemma_tables_in_order(tables, from + 1, t);
    }
}

/// Whether all patterns of a rule compile.
pub open spec fn all_compile(rule: RuleView) -> bool {
    &&& rule.tool matches Some(p) ==> pattern_error(p) is None
    &&& rule.command matches Some(p) ==> pattern_error(p) is None
    &&& rule.file_path matches Some(p) ==> pattern_error(p) is None
    &&& rule.subagent_type matches Some(p) ==> pattern_error(p) is None
    &&& rule.prompt matches Some(p) ==> pattern_error(p) is None
    &&& rule.cwd matches Some(p) ==> pattern_error(p) is None
    &&& rule.cwd_not matches Some(p) ==> pattern_error(p) is None
    &&& rule.arg matches Some(p) ==> pattern_error(p) is None
    &&& rule.arg_not matches Some(p) ==> pattern_error(p) is None
    &&& rule.stdin matches Some(p) ==> pattern_error(p) is None
    &&& rule.stdin_not matches Some(p) ==> pattern_error(p) is None
    &&& rule.stdout matches Some(p) ==> pattern_error(p) is None
    &&& rule.stdout_not matches Some(p) ==> pattern_error(p) is None
    &&& rule.env matches Some(p) ==> pattern_error(p) is None
    &&& rule.env_not matches Some(p) ==> pattern_error(p) is None
}

/// Whether the pattern fields of a rule from number `k` on compile.
spec fn compile_from(rule: RuleView, k: int) -> bool {
    forall|j: int|
        k <= j < 15 ==> (#[trigger] pattern_field(rule, j) matches Some(p) ==> pattern_error(
            p,
        ) is None)
}

proof fn lemma_compile_from(rule: RuleView, k: int)
    requires
        0 <= k <= 15,
    ensures
        rule_pattern_fault(rule, k) is None <==> compile_from(rule, k),
    decreases 15 - k,
{
    if k < 15 {
        lemma_compile_from(rule, k + 1);
        if compile_from(rule, k + 1) && (pattern_field(rule, k) matches Some(p) ==> pattern_error(
            p,
        ) is None) {
            assert(compile_from(rule, k));
        }
        if compile_from(rule, k) {
            assert(compile_from(rule, k + 1));
        }
    }
}

proof fn lemma_rule_compiles(rule: RuleView)
    ensures
        rule_pattern_fault(rule, 0) is None <==> all_compile(rule),
{
    lemma_compile_from(rule, 0);
    if compile_from(rule, 0) {
        assert(pattern_field(rule, 0) == rule.tool);
        assert(pattern_field(rule, 1) == rule.command);
        assert(pattern_field(rule, 2) == rule.file_path);
        assert(pattern_field(rule, 3) == rule.subagent_type);
        assert(pattern_field(rule, 4) == rule.prompt);
        assert(pattern_field(rule, 5) == rule.cwd);
        assert(pattern_field(rule, 6) == rule.cwd_not);
        assert(pattern_field(rule, 7) == rule.arg);
        assert(pattern_field(rule, 8) == rule.arg_not);
        assert(pattern_field(rule, 9) == rule.stdin);
        assert(pattern_field(rule, 10) == rule.stdin_not);
        assert(pattern_field(rule, 11) == rule.stdout);
        assert(pattern_field(rule, 12) == rule.stdout_not);
        assert(pattern_field(rule, 13) == rule.env);
        assert(pattern_field(rule, 14) == rule.env_not);
    }
}

proof fn lemma_rules_compile(rules: Seq<RuleView>, from: int, k: int)
    requires
        0 <= from <= k <= rules.len(),
        forall|i: int| 0 <= i < k ==> all_compile(#[trigger] rules[i]),
    ensures
        rules_pattern_fault(rules, from) == rules_pattern_fault(rules, k),
    decreases k - from,
{
    if from < k {
        assert(all_compile(rules[from]));
        lemma_rule_compiles(rules[from]);
        lemma_rules_compile(rules, from + 1, k);
    }
}

proof fn lemma_tables_compile(tables: Seq<(Seq<char>, TableView)>, from: int, t: int)
    requires
        0 <= from <= t <= tables.len(),
        forall|s: int, i: int|
            0 <= s < t && 0 <= i < tables[s].1.rules.len() ==> all_compile(
                #[trigger] tables[s].1.rules[i],
            ),
    ensures
        tables_pattern_fault(tables, from) == tables_pattern_fault(tables, t),
    decreases t - from,
{
    if from < t {
        let rules = tables[from].1.rules;
        assert forall|i: int| 0 <= i < rules.len() implies all_compile(#[trigger] rules[i]) by {
            assert(all_compile(tables[from].1.rules[i]));
        }
        lemma_rules_compile(rules, 0, rules.len() as int);
        lemma_tables_compile(tables, from + 1, t);
    }
}

/// A configuration whose entry table exists, whose rules are in order and whose patterns
/// compile is accepted as it is.
pub proof fn configurations_in_order_are_accepted(config: ConfigView)
    requires
        exists_in(config.tables, config.entry_table),
        forall|t: int, i: int|
            0 <= t < config.tables.len() && 0 <= i < config.tables[t].1.rules.len()
                ==> is_in_order(config.tables, #[trigger] config.tables[t].1.rules[i]),
        forall|t: int, i: int|
            0 <= t < config.tables.len() && 0 <= i < config.tables[t].1.rules.len()
                ==> all_compile(#[trigger] config.tables[t].1.rules[i]),
    ensures
        checked(config) == Ok::<ConfigView, ErrorView>(config),
{
    lemma_exists_in(config.tables, config.entry_table);
    lemma_tables_in_order(config.tables, 0, config.tables.len() as int);
    lemma_tables_compile(config.tables, 0, config.tables.len() as int);
}

/// A configuration is refused for the first thing that is wrong with it: an entry table that
/// does not exist, or else the first rule that is not in order, or else the first rule with a
/// pattern that does not compile.
pub proof fn the_first_fault_is_told(config: ConfigView, t: int, i: int)
    ensures
        !exists_in(config.tables, config.entry_table) ==> checked(config) == Err::<
            ConfigView,
            ErrorView,
        >(ErrorView::EntryNotFound { entry: config.entry_table }),
        exists_in(config.tables, config.entry_table) && 0 <= t < config.tables.len() && 0 <= i
            < config.tables[t].1.rules.len() && (forall|s: int, k: int|
            (0 <= s < t && 0 <= k < config.tables[s].1.rules.len() || s == t && 0 <= k < i)
                ==> is_in_order(config.tables, #[trigger] config.tables[s].1.rules[k]))
            && !is_in_order(config.tables, config.tables[t].1.rules[i]) ==> checked(config)
            == Err::<ConfigView, ErrorView>(
            rule_fault(
                config.tables,
                config.tables[t].0,
                i as nat,
                config.tables[t].1.rules[i],
            )->0,
        ),
        exists_in(config.tables, config.entry_table) && 0 <= t < config.tables.len() && 0 <= i
            < config.tables[t].1.rules.len() && !all_compile(config.tables[t].1.rules[i])
            ==> checked(config) is Err,
{
    lemma_exists_in(config.tables, config.entry_table);
    if 0 <= t < config.tables.len() && 0 <= i < config.tables[t].1.rules.len() {
        let rules = config.tables[t].1.rules;
        let name = config.tables[t].0;
        if (forall|s: int, k: int|
            (0 <= s < t && 0 <= k < config.tables[s].1.rules.len() || s == t && 0 <= k < i)
                ==> is_in_order(config.tables, #[trigger] config.tables[s].1.rules[k]))
            && !is_in_order(config.tables, rules[i]) {
            lemma_tables_in_order(config.tables, 0, t);
            assert forall|k: int| 0 <= k < i implies is_in_order(
                config.tables,
                #[trigger] rules[k],
            ) by {
                assert(is_in_order(config.tables, config.tables[t].1.rules[k]));
            }
            lemma_rules_in_order(config.tables, name, rules, 0, i);
            faults_say_what_is_wrong(config.tables, name, i as nat, rules[i]);
        }
        if !all_compile(rules[i]) && checked(config) is Ok {
            lemma_bad_pattern(config, t, i);
        }
    }
}

proof fn lemma_bad_pattern(config: ConfigView, t: int, i: int)
    requires
        checked(config) is Ok,
        0 <= t < config.tables.len(),
        0 <= i < config.tables[t].1.rules.len(),
    ensures
        all_compile(config.tables[t].1.rules[i]),
{
    let rule = config.tables[t].1.rules[i];
    checked_config_is_in_order(config, t, i, 0);
    checked_config_is_in_order(config, t, i, 1);
    checked_config_is_in_order(config, t, i, 2);
    checked_config_is_in_order(config, t, i, 3);
    checked_config_is_in_order(config, t, i, 4);
    checked_config_is_in_order(config, t, i, 5);
    checked_config_is_in_order(config, t, i, 6);
    checked_config_is_in_order(config, t, i, 7);
    checked_config_is_in_order(config, t, i, 8);
    checked_config_is_in_order(config, t, i, 9);
    checked_config_is_in_order(config, t, i, 10);
    checked_config_is_in_order(config, t, i, 11);
    checked_config_is_in_order(config, t, i, 12);
    checked_config_is_in_order(config, t, i, 13);
    checked_config_is_in_order(config, t, i, 14);
}

/// Whether a name can be that of a constant: letters, digits and `_`, and no digit first.
pub open spec fn is_constant_name(name: Seq<char>) -> bool {
    &&& name.len() > 0
    &&& !('0' <= name[0] <= '9')
    &&& forall|k: int| 0 <= k < name.len() ==> can_be_in_a_name(#[trigger] name[k])
}

/// Whether a character can stand in the name of a constant.
pub open spec fn can_be_in_a_name(c: char) -> bool {
    'a' <= c <= 'z' || 'A' <= c <= 'Z' || '0' <= c <= '9' || c == '_'
}

proof fn lemma_run(s: Seq<char>, i: int, e: int)
    requires
        0 <= i <= e <= s.len(),
        forall|k: int| i <= k < e ==> can_be_in_a_name(#[trigger] s[k]),
        e == s.len() || !can_be_in_a_name(s[e]),
    ensures
        run_end(s, i) == e,
    decreases e - i,
{
    if i < e {
        assert(can_be_in_a_name(s[i]));
        lemma_run(s, i + 1, e);
    }
}

proof fn lemma_run_shift(s: Seq<char>, front: int, b: Seq<char>, j: int)
    requires
        0 <= front,
        s.len() == front + b.len(),
        forall|k: int| 0 <= k < b.len() ==> #[trigger] s[front + k] == b[k],
        0 <= j,
    ensures
        run_end(s, front + j) == front + run_end(b, j),
        run_end(b, j) >= j,
        j <= b.len() ==> run_end(b, j) <= b.len(),
    decreases b.len() - j,
{
    if j < b.len() {
        assert(s[front + j] == b[j]);
        lemma_run_shift(s, front, b, j + 1);
    }
}

proof fn lemma_reference_shift(s: Seq<char>, front: int, b: Seq<char>, j: int)
    requires
        0 <= front,
        s.len() == front + b.len(),
        forall|k: int| 0 <= k < b.len() ==> #[trigger] s[front + k] == b[k],
        0 <= j < b.len(),
    ensures
        match reference_at(b, j) {
            Some((name, end)) => reference_at(s, front + j) == Some((name, front + end)) && j < end
                <= b.len(),
            None => reference_at(s, front + j) is None,
        },
{
    assert(s[front + j] == b[j]);
    if j + 1 < b.len() {
        assert(s[front + (j + 1)] == b[j + 1]);
    }
    if j + 2 < b.len() {
        assert(s[front + (j + 2)] == b[j + 2]);
    }
    lemma_run_shift(s, front, b, j + 2);
    lemma_run_shift(s, front, b, j + 3);
    let braced = name_end(b, j + 2);
    if j + 2 < braced < b.len() {
        assert(s[front + braced] == b[braced]);
        let there = s.subrange(front + j + 2, front + braced);
        let here = b.subrange(j + 2, braced);
        assert forall|k: int| 0 <= k < here.len() implies there[k] == here[k] by {
            assert(s[front + (j + 2 + k)] == b[j + 2 + k]);
        }
        assert(there =~= here);
    }
    let bare = name_end(b, j + 1);
    if j + 1 < bare <= b.len() {
        let there = s.subrange(front + j + 1, front + bare);
        let here = b.subrange(j + 1, bare);
        assert forall|k: int| 0 <= k < here.len() implies there[k] == here[k] by {
            assert(s[front + (j + 1 + k)] == b[j + 1 + k]);
        }
        assert(there =~= here);
    }
}

proof fn lemma_rest_substituted(
    s: Seq<char>,
    front: int,
    b: Seq<char>,
    j: int,
    constants: Map<Seq<char>, Seq<char>>,
    acc: Seq<char>,
    own: Seq<char>,
)
    requires
        0 <= front,
        s.len() == front + b.len(),
        forall|k: int| 0 <= k < b.len() ==> #[trigger] s[front + k] == b[k],
        0 <= j,
        substituted_from(b, j, constants, own) is Ok,
    ensures
        ({
            let r = substituted_from(b, j, constants, own)->Ok_0;
            &&& own.len() <= r.len()
            &&& r.take(own.len() as int) == own
            &&& substituted_from(s, front + j, constants, acc) == Ok::<Seq<char>, ErrorView>(
                acc + r.skip(own.len() as int),
            )
        }),
    decreases b.len() - j,
{
    let r = substituted_from(b, j, constants, own)->Ok_0;
    if j >= b.len() {
        assert(r.take(own.len() as int) =~= own);
        assert(acc + r.skip(own.len() as int) =~= acc);
    } else {
        lemma_reference_shift(s, front, b, j);
        assert(s[front + j] == b[j]);
        match reference_at(b, j) {
            Some((name, end)) => {
                let value = constants[name];
                lemma_rest_substituted(s, front, b, end, constants, acc + value, own + value);
                assert(r.take(own.len() as int) =~= r.take((own + value).len() as int).take(
                    own.len() as int,
                ));
                assert((own + value).take(own.len() as int) =~= own);
                assert(acc + value + r.skip((own + value).len() as int) =~= acc + r.skip(
                    own.len() as int,
                )) by {
                    let tail = r.skip(own.len() as int);
                    let split = value + r.skip((own + value).len() as int);
                    assert forall|k: int| 0 <= k < tail.len() implies tail[k] == split[k] by {
                        if k < value.len() {
                            assert(r.take((own + value).len() as int)[own.len() + k] == (own
                                + value)[own.len() + k]);
                        }
                    }
                    assert(tail =~= split);
                }
            },
            None => {
                let c = b[j];
                lemma_rest_substituted(s, front, b, j + 1, constants, acc.push(c), own.push(c));
                assert(r.take(own.len() as int) =~= r.take(own.push(c).len() as int).take(
                    own.len() as int,
                ));
                assert(own.push(c).take(own.len() as int) =~= own);
                assert(acc.push(c) + r.skip(own.push(c).len() as int) =~= acc + r.skip(
                    own.len() as int,
                )) by {
                    assert(r.take(own.push(c).len() as int)[own.len() as int] == c);
                }
            },
        }
    }
}

proof fn lemma_front_substituted(
    s: Seq<char>,
    n: int,
    i: int,
    constants: Map<Seq<char>, Seq<char>>,
)
    requires
        0 <= i <= n <= s.len(),
        forall|k: int| 0 <= k < n ==> #[trigger] s[k] != '$',
    ensures
        substituted_from(s, i, constants, s.take(i)) == substituted_from(
            s,
            n,
            constants,
            s.take(n),
        ),
    decreases n - i,
{
    if i < n {
        assert(s[i] != '$');
        assert(s.take(i).push(s[i]) =~= s.take(i + 1));
        lemma_front_substituted(s, n, i + 1, constants);
    }
}

/// Every reference to a constant in a pattern becomes the value of the constant, whether
/// written `$name` or `${name}`, and what stands around it stays. A reference to a constant
/// that is not defined is an error. A `$` in front of something else stays.
pub proof fn references_become_values(
    a: Seq<char>,
    name: Seq<char>,
    braced: bool,
    b: Seq<char>,
    constants: Map<Seq<char>, Seq<char>>,
)
    requires
        forall|k: int| 0 <= k < a.len() ==> #[trigger] a[k] != '$',
        is_constant_name(name),
        !braced ==> b.len() == 0 || !can_be_in_a_name(b[0]),
    ensures
        ({
            let reference = if braced {
                seq!['$', '{'] + name + seq!['}']
            } else {
                seq!['$'] + name
            };
            let whole = substituted(a + reference + b, constants);
            &&& constants.dom().contains(name) && substituted(b, constants) is Ok ==> whole == Ok::<
                Seq<char>,
                ErrorView,
            >(a + constants[name] + substituted(b, constants)->Ok_0)
            &&& !constants.dom().contains(name) ==> whole == Err::<Seq<char>, ErrorView>(
                ErrorView::UnknownConstant { name, pattern: a + reference + b },
            )
        }),
        (b.len() == 0 || !can_be_in_a_name(b[0]) && b[0] != '{') && substituted(b, constants) is Ok
            ==> substituted(a + seq!['$'] + b, constants) == Ok::<Seq<char>, ErrorView>(
            a + seq!['$'] + substituted(b, constants)->Ok_0,
        ),
{
    let reference = if braced {
        seq!['$', '{'] + name + seq!['}']
    } else {
        seq!['$'] + name
    };
    let s = a + reference + b;
    let n = a.len() as int;
    let lead = if braced { 2int } else { 1 };
    let from = n + lead;
    let end = from + name.len();
    assert(s.take(0) =~= Seq::empty());
    assert(s.take(n) =~= a);
    assert forall|k: int| 0 <= k < n implies #[trigger] s[k] != '$' by {
        assert(s[k] == a[k]);
    }
    lemma_front_substituted(s, n, 0, constants);
    assert(s[n] == reference[0]);
    if braced {
        assert(s[n + 1] == reference[1]);
        assert(s[end] == reference[end - n]);
    }
    assert forall|k: int| from <= k < end implies can_be_in_a_name(#[trigger] s[k]) && s[k]
        == name[k - from] by {
        assert(s[k] == reference[k - n]);
        assert(can_be_in_a_name(name[k - from]));
    }
    assert(s[from] == name[0]);
    assert(can_be_in_a_name(name[0]));
    if !braced && b.len() > 0 {
        assert(s[end] == b[0]);
    }
    lemma_run(s, from + 1, end);
    assert(s.subrange(from, end) =~= name);
    let behind = if braced { end + 1 } else { end };
    assert(reference_at(s, n) == Some((name, behind)));
    assert(behind == n + reference.len());
    let empty = Seq::<char>::empty();
    if constants.dom().contains(name) && substituted(b, constants) is Ok {
        assert forall|k: int| 0 <= k < b.len() implies #[trigger] s[behind + k] == b[k] by {}
        lemma_rest_substituted(s, behind, b, 0, constants, a + constants[name], empty);
        let r = substituted(b, constants)->Ok_0;
        assert(r.skip(0) =~= r);
    }
    if (b.len() == 0 || !can_be_in_a_name(b[0]) && b[0] != '{') && substituted(
        b,
        constants,
    ) is Ok {
        let t = a + seq!['$'] + b;
        assert(t.take(0) =~= empty);
        assert(t.take(n) =~= a);
        assert forall|k: int| 0 <= k < n implies #[trigger] t[k] != '$' by {
            assert(t[k] == a[k]);
        }
        lemma_front_substituted(t, n, 0, constants);
        assert(t[n] == '$');
        if b.len() > 0 {
            assert(t[n + 1] == b[0]);
        }
        assert(reference_at(t, n) is None);
        assert forall|k: int| 0 <= k < b.len() implies #[trigger] t[n + 1 + k] == b[k] by {}
        lemma_rest_substituted(t, n + 1, b, 0, constants, a.push('$'), empty);
        let r = substituted(b, constants)->Ok_0;
        assert(r.skip(0) =~= r);
        assert(a.push('$') + r =~= a + seq!['$'] + r);
    }
}

proof fn lemma_lines_from(
    tables: Seq<(Seq<char>, TableView)>,
    more: Seq<(Seq<char>, TableView)>,
    n: int,
)
    requires
        0 <= n <= tables.len() <= more.len(),
        forall|k: int| 0 <= k < n ==> #[trigger] tables[k] == more[k],
    ensures
        table_lines(tables, n) == table_lines(more, n),
    decreases n,
{
    if n > 0 {
        lemma_lines_from(tables, more, n - 1);
        assert(tables[n - 1] == more[n - 1]);
    }
}

/// The summary of a configuration names the entry table, and then every table on a line of
/// its own, in order, with the number of its rules and its default.
pub proof fn summaries_tell_of_every_table(
    config: ConfigView,
    name: Seq<char>,
    table: TableView,
)
    ensures
        summary_text(ConfigView { tables: Seq::empty(), ..config }) == "Entry table: "@
            + config.entry_table,
        summary_text(ConfigView { tables: config.tables.push((name, table)), ..config })
            == summary_text(config) + ("\n  Table '"@ + name + "': "@ + decimal(table.rules.len())
            + " rules, default="@ + match table.default {
            Action::Allow => "Allow"@,
            Action::Deny => "Deny"@,
            Action::Passthrough => "Passthrough"@,
            Action::ForcePassthrough => "ForcePassthrough"@,
            Action::Forward => "Forward"@,
            Action::Evaluate => "Evaluate"@,
        }),
{
    let more = config.tables.push((name, table));
    let n = config.tables.len() as int;
    lemma_lines_from(config.tables, more, n);
    let front = "Entry table: "@ + config.entry_table;
    assert(front + Seq::<char>::empty() =~= front);
    assert(more[n] == (name, table));
    assert(front + (table_lines(config.tables, n) + table_line((name, table))) =~= front
        + table_lines(config.tables, n) + table_line((name, table)));
}

} // verus!

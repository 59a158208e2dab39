//! What is decided, and why: the results themselves, and how they combine.
use vstd::prelude::*;
use crate::config::{Action, AuditLevel, AuditView, ConfigView, TableView};
use crate::engine_model::{
    call_eval, call_eval_with_local, command_ctx, commands_eval, contexts_eval, contexts_of,
    field_ctx, fields_eval, flat_eval, merged, own_fields, rule_matches, rules_eval, settled_value,
    table_eval, unmatched, wrapped_command, CallEval, CtxView, Decision, FactsView, LocalView,
    RecordView, ResultView, WorldView,
};
use crate::error::ErrorView;
use crate::shell_grammar::{check_text, commands_from, commands_of, CommandView, Place};
use crate::strmap::{lemma_key_at, lemma_key_from};
use crate::text::decimal;

verus! {

proof fn lemma_rules_from(
    config: ConfigView,
    name: Seq<char>,
    table: TableView,
    from: int,
    k: int,
    ctx: CtxView,
    visited: Seq<Seq<char>>,
    world: WorldView,
    depth: nat,
)
    requires
        0 <= from <= k <= table.rules.len(),
        forall|i: int|
            0 <= i < k ==> rule_matches(#[trigger] table.rules[i], ctx, world.files) == Ok::<
                bool,
                ErrorView,
            >(false),
    ensures
        rules_eval(config, name, table, from, ctx, visited, world, depth) == rules_eval(
            config,
            name,
            table,
            k,
            ctx,
            visited,
            world,
            depth,
        ),
    decreases k - from,
{
    if from < k {
        assert(rule_matches(table.rules[from], ctx, world.files) == Ok::<bool, ErrorView>(false));
        lemma_rules_from(config, name, table, from + 1, k, ctx, visited, world, depth);
    }
}

/// The first rule of a table that matches decides. The result says what the rule says, gives
/// its reason, and names the table and the number of the rule; a denial without a reason
/// says by which rule it was denied. `forward` yields what its target yields. `evaluate`
/// yields what the wrapped commands come to in its target, or in the entry table; it is a
/// denial where wrappers are nested five deep, and where it finds nothing wrapped it is
/// passed over.
pub proof fn the_first_rule_that_matches_decides(
    config: ConfigView,
    name: Seq<char>,
    t: int,
    k: int,
    ctx: CtxView,
    visited: Seq<Seq<char>>,
    world: WorldView,
    depth: nat,
)
    requires
        0 <= t < config.tables.len(),
        config.tables[t].0 == name,
        forall|j: int| 0 <= j < t ==> (#[trigger] config.tables[j]).0 != name,
        !visited.contains(name),
        0 <= k < config.tables[t].1.rules.len(),
        forall|i: int|
            0 <= i < k ==> rule_matches(
                #[trigger] config.tables[t].1.rules[i],
                ctx,
                world.files,
            ) == Ok::<bool, ErrorView>(false),
        rule_matches(config.tables[t].1.rules[k], ctx, world.files) == Ok::<bool, ErrorView>(true),
    ensures
        ({
            let rule = config.tables[t].1.rules[k];
            let read = table_eval(config, name, ctx, visited, world, depth);
            let decides = ResultView {
                decision: Decision::Allow,
                reason: rule.reason,
                table: Some(name),
                rule_index: Some(k as usize),
                source: "global"@,
            };
            &&& rule.action == Action::Allow ==> read.value == Ok::<ResultView, ErrorView>(decides)
            &&& rule.action == Action::Deny && rule.reason is Some ==> read.value == Ok::<
                ResultView,
                ErrorView,
            >(ResultView { decision: Decision::Deny, ..decides })
            &&& rule.action == Action::Deny && rule.reason is None ==> read.value == Ok::<
                ResultView,
                ErrorView,
            >(
                ResultView {
                    decision: Decision::Deny,
                    reason: Some(
                        "Denied by rule "@ + decimal(k as nat) + " in table '"@ + name + "'"@,
                    ),
                    ..decides
                },
            )
            &&& rule.action == Action::Passthrough ==> read.value == Ok::<ResultView, ErrorView>(
                ResultView { decision: Decision::Passthrough, ..decides },
            )
            &&& rule.action == Action::ForcePassthrough ==> read.value == Ok::<
                ResultView,
                ErrorView,
            >(ResultView { decision: Decision::ForcePassthrough, ..decides })
            &&& rule.action == Action::Forward && rule.target is Some ==> read == table_eval(
                config,
                rule.target->0,
                ctx,
                visited.push(name),
                world,
                depth,
            )
            &&& rule.action == Action::Evaluate && depth >= 5 ==> read.value == Ok::<
                ResultView,
                ErrorView,
            >(
                ResultView {
                    decision: Decision::Deny,
                    reason: Some("Maximum wrapper depth exceeded"@),
                    ..decides
                },
            )
            &&& rule.action == Action::Evaluate && depth < 5 && wrapped_command(
                rule,
                ctx.written,
            ) is Some ==> {
                let inner = commands_eval(
                    config,
                    ctx.tool_name,
                    ctx.fields,
                    commands_from(
                        wrapped_command(rule, ctx.written)->0,
                        Place { dir: ctx.cwd, moved: ctx.moved, pending: Seq::empty() },
                        world.home,
                    ),
                    if rule.target is Some {
                        rule.target->0
                    } else {
                        config.entry_table
                    },
                    world,
                    depth + 1,
                    0,
                    None,
                );
                &&& inner.value matches Ok(Some(result)) ==> read.value == Ok::<
                    ResultView,
                    ErrorView,
                >(result) && read.log == inner.log
                &&& inner.value matches Err(e) ==> read.value == Err::<ResultView, ErrorView>(e)
                &&& inner.value matches Ok(None) ==> read == rules_eval(
                    config,
                    name,
                    config.tables[t].1,
                    k + 1,
                    ctx,
                    visited.push(name),
                    world,
                    depth,
                )
            }
            &&& rule.action == Action::Evaluate && depth < 5 && wrapped_command(
                rule,
                ctx.written,
            ) is None ==> read == rules_eval(
                config,
                name,
                config.tables[t].1,
                k + 1,
                ctx,
                visited.push(name),
                world,
                depth,
            )
            &&& rule.action != Action::Forward && rule.action != Action::Evaluate
                ==> read.log.len() == 0
        }),
{
    lemma_key_at(config.tables, name, 0, t);
    lemma_rules_from(
        config,
        name,
        config.tables[t].1,
        0,
        k,
        ctx,
        visited.push(name),
        world,
        depth,
    );
}

/// Where no rule of a table matches, its default decides: the result says so, names the
/// table, and no rule. A table that does not exist is an error, and so is one that
/// forwarding comes back to.
pub proof fn the_default_decides_where_no_rule_matches(
    config: ConfigView,
    name: Seq<char>,
    t: int,
    ctx: CtxView,
    visited: Seq<Seq<char>>,
    world: WorldView,
    depth: nat,
)
    ensures
        visited.contains(name) ==> table_eval(config, name, ctx, visited, world, depth).value
            == Err::<ResultView, ErrorView>(ErrorView::Cycle { table: name }),
        !visited.contains(name) && (forall|j: int|
            0 <= j < config.tables.len() ==> (#[trigger] config.tables[j]).0 != name)
            ==> table_eval(config, name, ctx, visited, world, depth).value == Err::<
            ResultView,
            ErrorView,
        >(ErrorView::TableNotFound { table: name }),
        !visited.contains(name) && 0 <= t < config.tables.len() && config.tables[t].0 == name && (
        forall|j: int| 0 <= j < t ==> (#[trigger] config.tables[j]).0 != name) && (forall|i: int|
            0 <= i < config.tables[t].1.rules.len() ==> rule_matches(
                #[trigger] config.tables[t].1.rules[i],
                ctx,
                world.files,
            ) == Ok::<bool, ErrorView>(false)) ==> {
            let value = table_eval(config, name, ctx, visited, world, depth).value;
            let default = config.tables[t].1.default;
            let decides = ResultView {
                decision: Decision::Allow,
                reason: Some("Default action in table '"@ + name + "'"@),
                table: Some(name),
                rule_index: None,
                source: "global"@,
            };
            &&& default == Action::Allow ==> value == Ok::<ResultView, ErrorView>(decides)
            &&& default == Action::Deny ==> value == Ok::<ResultView, ErrorView>(
                ResultView { decision: Decision::Deny, ..decides },
            )
            &&& default == Action::Passthrough ==> value == Ok::<ResultView, ErrorView>(
                ResultView { decision: Decision::Passthrough, ..decides },
            )
            &&& default == Action::ForcePassthrough ==> value == Ok::<ResultView, ErrorView>(
                ResultView { decision: Decision::ForcePassthrough, ..decides },
            )
            &&& default == Action::Forward || default == Action::Evaluate ==> value is Err
        },
{
    if !visited.contains(name) && 0 <= t < config.tables.len() && config.tables[t].0 == name && (
    forall|j: int| 0 <= j < t ==> (#[trigger] config.tables[j]).0 != name) && (forall|i: int|
        0 <= i < config.tables[t].1.rules.len() ==> rule_matches(
            #[trigger] config.tables[t].1.rules[i],
            ctx,
            world.files,
        ) == Ok::<bool, ErrorView>(false)) {
        lemma_key_at(config.tables, name, 0, t);
        let table = config.tables[t].1;
        let n = table.rules.len() as int;
        lemma_rules_from(config, name, table, 0, n, ctx, visited.push(name), world, depth);
    }
    lemma_key_from(config.tables, name, 0);
}

/// A rule that cannot be decided, because a pattern does not compile or a path is not known,
/// is an error where no rule in front of it matches.
pub proof fn an_undecided_rule_is_an_error(
    config: ConfigView,
    name: Seq<char>,
    t: int,
    k: int,
    ctx: CtxView,
    visited: Seq<Seq<char>>,
    world: WorldView,
    depth: nat,
    e: ErrorView,
)
    requires
        0 <= t < config.tables.len(),
        config.tables[t].0 == name,
        forall|j: int| 0 <= j < t ==> (#[trigger] config.tables[j]).0 != name,
        !visited.contains(name),
        0 <= k < config.tables[t].1.rules.len(),
        forall|i: int|
            0 <= i < k ==> rule_matches(
                #[trigger] config.tables[t].1.rules[i],
                ctx,
                world.files,
            ) == Ok::<bool, ErrorView>(false),
        rule_matches(config.tables[t].1.rules[k], ctx, world.files) == Err::<bool, ErrorView>(e),
    ensures
        table_eval(config, name, ctx, visited, world, depth).value == Err::<ResultView, ErrorView>(
            e,
        ),
{
    lemma_key_at(config.tables, name, 0, t);
    lemma_rules_from(
        config,
        name,
        config.tables[t].1,
        0,
        k,
        ctx,
        visited.push(name),
        world,
        depth,
    );
}

/// What a table decides about a context where evaluation starts in it: what it yields, but
/// where forwarding went in a circle a denial that says so.
pub open spec fn settles(
    config: ConfigView,
    name: Seq<char>,
    ctx: CtxView,
    world: WorldView,
    depth: nat,
    outcome: Result<ResultView, ErrorView>,
) -> bool {
    match table_eval(config, name, ctx, Seq::empty(), world, depth).value {
        Ok(result) => outcome == Ok::<ResultView, ErrorView>(result),
        Err(ErrorView::Cycle { table }) => outcome == Ok::<ResultView, ErrorView>(
            ResultView {
                decision: Decision::Deny,
                reason: Some("Cycle detected: table '"@ + table + "' already visited"@),
                table: Some(table),
                rule_index: None,
                source: "global"@,
            },
        ),
        Err(e) => outcome == Err::<ResultView, ErrorView>(e),
    }
}

/// How strict a decision is: a denial is strictest, then a forced passthrough, then a
/// passthrough, then an allowance.
pub open spec fn rank(d: Decision) -> int {
    match d {
        Decision::Deny => 3,
        Decision::ForcePassthrough => 2,
        Decision::Passthrough => 1,
        Decision::Allow => 0,
    }
}

/// Whether a result is what others come to together: one of them, than which none is
/// stricter; of equally strict ones the last, but of denials the first.
pub open spec fn is_strictest(whole: ResultView, results: Seq<ResultView>) -> bool {
    exists|m: int|
        0 <= m < results.len() && whole == #[trigger] results[m] && leads(results, m)
}

/// Whether result number `m` leads the others.
pub open spec fn leads(results: Seq<ResultView>, m: int) -> bool {
    if results[m].decision == Decision::Deny {
        forall|i: int| 0 <= i < m ==> (#[trigger] results[i]).decision != Decision::Deny
    } else {
        forall|i: int|
            0 <= i < results.len() ==> rank((#[trigger] results[i]).decision) <= rank(
                results[m].decision,
            ) && (i > m ==> rank(results[i].decision) < rank(results[m].decision))
    }
}

/// Whether some results are those of contexts, up to the first denial.
pub open spec fn stop_at_a_denial(results: Seq<ResultView>, n: nat) -> bool {
    &&& 0 < results.len() <= n
    &&& results.len() < n ==> results.last().decision == Decision::Deny
    &&& forall|i: int|
        0 <= i < results.len() - 1 ==> (#[trigger] results[i]).decision != Decision::Deny
}

proof fn lemma_commands_together(
    config: ConfigView,
    tool: Seq<char>,
    own: Map<Seq<char>, Seq<char>>,
    commands: Seq<CommandView>,
    name: Seq<char>,
    world: WorldView,
    depth: nat,
    results: Seq<ResultView>,
    j: int,
    m: int,
)
    requires
        stop_at_a_denial(results, commands.len()),
        forall|i: int|
            0 <= i < results.len() ==> settles(
                config,
                name,
                command_ctx(tool, own, #[trigger] commands[i], world.env),
                world,
                depth,
                Ok(results[i]),
            ),
        0 <= j <= results.len(),
        j > 0 ==> 0 <= m < j && results[m].decision != Decision::Deny,
        j > 0 ==> leads(results.take(j), m),
        j < results.len() || results.last().decision != Decision::Deny,
    ensures
        ({
            let all = commands_eval(
                config,
                tool,
                own,
                commands,
                name,
                world,
                depth,
                j,
                if j > 0 { Some(results[m]) } else { None },
            );
            &&& all.value matches Ok(Some(whole)) && is_strictest(whole, results)
        }),
    decreases results.len() - j,
{
    if j < results.len() {
        assert(settles(
            config,
            name,
            command_ctx(tool, own, commands[j], world.env),
            world,
            depth,
            Ok(results[j]),
        ));
        let one = results[j];
        let later = if j > 0 && rank(one.decision) < rank(results[m].decision) { m } else { j };
        if one.decision == Decision::Deny {
            assert(leads(results, j));
        } else {
            if j > 0 {
                let front = results.take(j);
                assert forall|i: int| 0 <= i < j implies rank((#[trigger] results[i]).decision)
                    <= rank(results[m].decision) && (i > m ==> rank(results[i].decision) < rank(
                    results[m].decision,
                )) by {
                    assert(front[i] == results[i]);
                }
            }
            let more = results.take(j + 1);
            assert forall|i: int| 0 <= i < more.len() implies rank((#[trigger] more[i]).decision)
                <= rank(more[later].decision) && (i > later ==> rank(more[i].decision) < rank(
                more[later].decision,
            )) by {
                assert(more[i] == results[i]);
            }
            assert(leads(more, later));
            lemma_commands_together(
                config,
                tool,
                own,
                commands,
                name,
                world,
                depth,
                results,
                j + 1,
                later,
            );
        }
    } else {
        assert(results.take(j) =~= results);
        assert(leads(results, m));
    }
}

/// Several commands come to one of the results of the commands by themselves, the
/// strictest; of equally strict ones the last. A denial ends it: nothing behind the first
/// denial counts.
pub proof fn commands_come_to_the_strictest(
    config: ConfigView,
    tool: Seq<char>,
    own: Map<Seq<char>, Seq<char>>,
    commands: Seq<CommandView>,
    name: Seq<char>,
    world: WorldView,
    depth: nat,
    results: Seq<ResultView>,
)
    requires
        stop_at_a_denial(results, commands.len()),
        forall|i: int|
            0 <= i < results.len() ==> settles(
                config,
                name,
                command_ctx(tool, own, #[trigger] commands[i], world.env),
                world,
                depth,
                Ok(results[i]),
            ),
    ensures
        commands_eval(
            config,
            tool,
            own,
            commands,
            name,
            world,
            depth,
            0,
            None,
        ).value matches Ok(Some(whole)) && is_strictest(whole, results),
{
    lemma_commands_together(config, tool, own, commands, name, world, depth, results, 0, 0);
}

/// Whether a record of a result belongs in the log: one that has a file, and that is to hold
/// all results, or those of rules where this is one.
pub open spec fn belongs_in_the_log(audit: AuditView, result: ResultView) -> bool {
    audit.audit_file is Some && (audit.audit_level == AuditLevel::All || audit.audit_level
        == AuditLevel::Matched && result.rule_index is Some)
}

proof fn lemma_log_without_acc(
    config: ConfigView,
    tool: Seq<char>,
    own: Map<Seq<char>, Seq<char>>,
    commands: Seq<CommandView>,
    name: Seq<char>,
    world: WorldView,
    depth: nat,
    front: int,
    j: int,
    a: Option<ResultView>,
    b: Option<ResultView>,
)
    requires
        0 <= front <= j <= commands.len(),
        a is Some ==> a->0.decision != Decision::Deny,
        b is Some ==> b->0.decision != Decision::Deny,
    ensures
        commands_eval(config, tool, own, commands, name, world, depth, j, a).log == commands_eval(
            config,
            tool,
            own,
            commands.skip(front),
            name,
            world,
            depth,
            j - front,
            b,
        ).log,
    decreases commands.len() - j,
{
    if j < commands.len() {
        let ctx = command_ctx(tool, own, commands[j], world.env);
        assert(commands.skip(front)[j - front] == commands[j]);
        let one = table_eval(config, name, ctx, Seq::empty(), world, depth);
        if let Ok(result) = settled_value(one.value) {
            if result.decision != Decision::Deny {
                lemma_log_without_acc(
                    config,
                    tool,
                    own,
                    commands,
                    name,
                    world,
                    depth,
                    front,
                    j + 1,
                    Some(merged(a, result)),
                    Some(merged(b, result)),
                );
            }
        }
    }
}

/// The log gets, for each command in turn, what evaluating it logs, and then the record of
/// the command if it belongs there: the tool, the field, the text that was checked, the
/// directory and the result. Behind a denial nothing is logged.
pub proof fn each_command_is_logged(
    config: ConfigView,
    tool: Seq<char>,
    own: Map<Seq<char>, Seq<char>>,
    commands: Seq<CommandView>,
    name: Seq<char>,
    world: WorldView,
    depth: nat,
    result: ResultView,
)
    requires
        commands.len() > 0,
        settles(
            config,
            name,
            command_ctx(tool, own, commands[0], world.env),
            world,
            depth,
            Ok(result),
        ),
    ensures
        ({
            let c = commands[0];
            let ctx = command_ctx(tool, own, c, world.env);
            let inner = table_eval(config, name, ctx, Seq::empty(), world, depth).log;
            let first = if belongs_in_the_log(config.audit, result) {
                inner.push(
                    RecordView {
                        tool,
                        field: "command"@,
                        check_string: check_text(c),
                        cwd: c.effective_cwd,
                        result,
                    },
                )
            } else {
                inner
            };
            let rest = commands_eval(
                config,
                tool,
                own,
                commands.skip(1),
                name,
                world,
                depth,
                0,
                None,
            ).log;
            commands_eval(config, tool, own, commands, name, world, depth, 0, None).log
                == if result.decision == Decision::Deny {
                first
            } else {
                first + rest
            }
        }),
{
    let c = commands[0];
    let ctx = command_ctx(tool, own, c, world.env);
    let inner = table_eval(config, name, ctx, Seq::empty(), world, depth).log;
    let record = RecordView {
        tool,
        field: "command"@,
        check_string: check_text(c),
        cwd: c.effective_cwd,
        result,
    };
    assert(inner + seq![record] =~= inner.push(record));
    assert(inner + Seq::<RecordView>::empty() =~= inner);
    if result.decision != Decision::Deny {
        lemma_log_without_acc(
            config,
            tool,
            own,
            commands,
            name,
            world,
            depth,
            1,
            1,
            Some(result),
            None,
        );
    }
}

/// Where nothing in front of a command is denied and the command comes to an error, all come
/// to that error. Without commands nothing is decided.
pub proof fn an_undecided_command_is_an_error(
    config: ConfigView,
    tool: Seq<char>,
    own: Map<Seq<char>, Seq<char>>,
    commands: Seq<CommandView>,
    name: Seq<char>,
    world: WorldView,
    depth: nat,
    results: Seq<ResultView>,
    e: ErrorView,
    j: int,
    acc: Option<ResultView>,
)
    requires
        acc is Some ==> acc->0.decision != Decision::Deny,
        0 <= j <= results.len() < commands.len(),
        forall|i: int|
            0 <= i < results.len() ==> settles(
                config,
                name,
                command_ctx(tool, own, #[trigger] commands[i], world.env),
                world,
                depth,
                Ok(results[i]),
            ),
        forall|i: int|
            0 <= i < results.len() ==> (#[trigger] results[i]).decision != Decision::Deny,
        settles(
            config,
            name,
            command_ctx(tool, own, commands[results.len() as int], world.env),
            world,
            depth,
            Err(e),
        ),
    ensures
        commands_eval(config, tool, own, commands, name, world, depth, j, acc).value == Err::<
            Option<ResultView>,
            ErrorView,
        >(e),
    decreases results.len() - j,
{
    if j < results.len() {
        assert(settles(
            config,
            name,
            command_ctx(tool, own, commands[j], world.env),
            world,
            depth,
            Ok(results[j]),
        ));
        an_undecided_command_is_an_error(
            config,
            tool,
            own,
            commands,
            name,
            world,
            depth,
            results,
            e,
            j + 1,
            Some(merged(acc, results[j])),
        );
    }
}

proof fn lemma_tool_names()
    ensures
        "Bash"@ != "Read"@,
        "Bash"@ != "Write"@,
        "Bash"@ != "Edit"@,
        "Bash"@ != "MultiEdit"@,
        "Bash"@ != "Glob"@,
        "Bash"@ != "Task"@,
        "Task"@ != "Read"@,
        "Task"@ != "Write"@,
        "Task"@ != "Edit"@,
        "Task"@ != "MultiEdit"@,
        "Task"@ != "Glob"@,
        "subagent_type"@ != "prompt"@,
{
    reveal_strlit("Bash");
    reveal_strlit("Read");
    reveal_strlit("Write");
    reveal_strlit("Edit");
    reveal_strlit("MultiEdit");
    reveal_strlit("Glob");
    reveal_strlit("Task");
    reveal_strlit("subagent_type");
    reveal_strlit("prompt");
    assert("Bash"@[0] == 'B' && "Read"@[0] == 'R' && "Write"@[0] == 'W' && "Edit"@[0] == 'E'
        && "MultiEdit"@[0] == 'M' && "Glob"@[0] == 'G' && "Task"@[0] == 'T');
    assert("subagent_type"@[0] == 's' && "prompt"@[0] == 'p');
}

/// Whether a tool reads or writes a file.
pub open spec fn is_file_tool(tool: Seq<char>) -> bool {
    tool == "Read"@ || tool == "Write"@ || tool == "Edit"@ || tool == "MultiEdit"@ || tool
        == "Glob"@
}

/// The text of a field of a call; a field that is left out is empty.
pub open spec fn given(input: Map<Seq<char>, Seq<char>>, field: Seq<char>) -> Seq<char> {
    if input.dom().contains(field) {
        input[field]
    } else {
        Seq::empty()
    }
}

/// What a call is checked by: a `Bash` call by its commands, a call of a file tool by its
/// path, a `Task` call by its agent type and by its prompt, and a call of any other tool by
/// the name of the tool. The rules see the path, or the agent type and the prompt, as fields
/// of the call.
pub proof fn calls_are_checked_by_what_they_do(
    tool: Seq<char>,
    input: Map<Seq<char>, Seq<char>>,
    cwd: Seq<char>,
    world: WorldView,
)
    ensures
        ({
            let ctxs = contexts_of(tool, input, cwd, world);
            let path = map!["file_path"@ => given(input, "file_path"@)];
            let both = map![
                "subagent_type"@ => given(input, "subagent_type"@),
                "prompt"@ => given(input, "prompt"@)
            ];
            let none = Map::<Seq<char>, Seq<char>>::empty();
            let commands = commands_of(given(input, "command"@), cwd, world.home);
            &&& tool == "Bash"@ && given(input, "command"@).len() > 0 ==> ctxs.len()
                == commands.len() && forall|j: int|
                0 <= j < ctxs.len() ==> #[trigger] ctxs[j] == command_ctx(
                    tool,
                    none,
                    commands[j],
                    world.env,
                )
            &&& tool == "Bash"@ && given(input, "command"@).len() == 0 ==> ctxs.len() == 0
            &&& is_file_tool(tool) ==> ctxs == seq![
                field_ctx(
                    tool,
                    path,
                    "file_path"@,
                    given(input, "file_path"@),
                    cwd,
                    world.env,
                ),
            ]
            &&& tool == "Task"@ ==> ctxs == seq![
                field_ctx(
                    tool,
                    both,
                    "subagent_type"@,
                    given(input, "subagent_type"@),
                    cwd,
                    world.env,
                ),
                field_ctx(tool, both, "prompt"@, given(input, "prompt"@), cwd, world.env),
            ]
            &&& tool != "Bash"@ && tool != "Task"@ && !is_file_tool(tool) ==> ctxs == seq![
                field_ctx(tool, none, "tool"@, tool, cwd, world.env),
            ]
        }),
{
    lemma_tool_names();
    let ctxs = contexts_of(tool, input, cwd, world);
    let path = map!["file_path"@ => given(input, "file_path"@)];
    let both = map![
        "subagent_type"@ => given(input, "subagent_type"@),
        "prompt"@ => given(input, "prompt"@)
    ];
    let none = Map::<Seq<char>, Seq<char>>::empty();
    let own = own_fields(tool, input);
    let two = seq!["subagent_type"@, "prompt"@];
    if is_file_tool(tool) {
        assert(own =~= path) by {
            assert forall|f: Seq<char>| own.dom().contains(f) implies f == "file_path"@ by {
                assert(seq!["file_path"@].contains(f));
            }
            assert(seq!["file_path"@][0] == "file_path"@);
        }
        assert(ctxs =~= seq![
            field_ctx(tool, path, "file_path"@, given(input, "file_path"@), cwd, world.env),
        ]);
    } else if tool == "Task"@ {
        assert(own =~= both) by {
            assert forall|f: Seq<char>| own.dom().contains(f) implies f == "subagent_type"@ || f
                == "prompt"@ by {
                assert(two.contains(f));
            }
            assert(two[0] == "subagent_type"@ && two[1] == "prompt"@);
            assert(two.contains(two[0]) && two.contains(two[1]));
        }
        assert(ctxs =~= seq![
            field_ctx(
                tool,
                both,
                "subagent_type"@,
                given(input, "subagent_type"@),
                cwd,
                world.env,
            ),
            field_ctx(tool, both, "prompt"@, given(input, "prompt"@), cwd, world.env),
        ]);
    } else {
        assert(own =~= none);
    }
}

/// The result that has no opinion.
pub open spec fn passes(reason: Seq<char>) -> ResultView {
    ResultView {
        decision: Decision::Passthrough,
        reason: Some(reason),
        table: None,
        rule_index: None,
        source: "global"@,
    }
}

/// A call comes to what its contexts come to in the entry table, together: to one of their
/// results, the strictest. A `Bash` call without a command, or with a command line that
/// holds none, has no opinion and is not logged.
pub proof fn calls_come_to_the_strictest(
    config: ConfigView,
    tool: Seq<char>,
    input: Map<Seq<char>, Seq<char>>,
    cwd: Seq<char>,
    world: WorldView,
    results: Seq<ResultView>,
)
    requires
        ({
            let ctxs = contexts_of(tool, input, cwd, world);
            ctxs.len() > 0 ==> stop_at_a_denial(results, ctxs.len()) && forall|i: int|
                0 <= i < results.len() ==> settles(
                    config,
                    config.entry_table,
                    #[trigger] ctxs[i],
                    world,
                    0,
                    Ok(results[i]),
                )
        }),
    ensures
        ({
            let ctxs = contexts_of(tool, input, cwd, world);
            let read = call_eval(config, tool, input, cwd, world);
            &&& ctxs.len() > 0 ==> read.value is Ok && is_strictest(read.value->Ok_0, results)
            &&& ctxs.len() == 0 && given(input, "command"@).len() == 0 ==> read == (CallEval {
                value: Ok(passes("Empty command"@)),
                log: Seq::empty(),
            })
            &&& ctxs.len() == 0 && given(input, "command"@).len() > 0 ==> read == (CallEval {
                value: Ok(passes("No commands parsed"@)),
                log: Seq::empty(),
            })
        }),
{
    lemma_tool_names();
    calls_are_checked_by_what_they_do(tool, input, cwd, world);
    let ctxs = contexts_of(tool, input, cwd, world);
    let own = own_fields(tool, input);
    if tool == "Bash"@ {
        let commands = commands_of(given(input, "command"@), cwd, world.home);
        if ctxs.len() > 0 {
            assert forall|i: int| 0 <= i < results.len() implies settles(
                config,
                config.entry_table,
                command_ctx(tool, own, #[trigger] commands[i], world.env),
                world,
                0,
                Ok(results[i]),
            ) by {
                assert(ctxs[i] == command_ctx(tool, own, commands[i], world.env));
            }
            commands_come_to_the_strictest(
                config,
                tool,
                own,
                commands,
                config.entry_table,
                world,
                0,
                results,
            );
        }
    } else if is_file_tool(tool) || tool == "Task"@ {
        assert(settles(config, config.entry_table, ctxs[0], world, 0, Ok(results[0])));
        reveal_with_fuel(fields_eval, 3);
        if results.len() > 1 {
            assert(settles(config, config.entry_table, ctxs[1], world, 0, Ok(results[1])));
            if results[1].decision == Decision::Deny || rank(results[1].decision) >= rank(
                results[0].decision,
            ) {
                assert(leads(results, 1));
            } else {
                assert(leads(results, 0));
            }
        } else {
            assert(leads(results, 0));
        }
    } else {
        assert(settles(config, config.entry_table, ctxs[0], world, 0, Ok(results[0])));
        assert(leads(results, 0));
    }
}

/// What the rules of a project say of a context that none of them matches.
pub open spec fn unmatched_by(source: Seq<char>) -> ResultView {
    ResultView {
        decision: Decision::Passthrough,
        reason: Some("No project rule matched"@),
        table: None,
        rule_index: None,
        source,
    }
}

/// What the rules of a project say of a context.
pub open spec fn says(
    local: LocalView,
    ctx: CtxView,
    files: FactsView,
    result: ResultView,
) -> bool {
    match flat_eval(local.rules, ctx, files, local.source_dir, 0) {
        Ok(Some(one)) => result == one,
        Ok(None) => result == unmatched_by(local.source_dir),
        Err(_) => false,
    }
}

/// Whether a rule of a project matches a context.
pub open spec fn speaks(local: LocalView, ctx: CtxView, files: FactsView) -> bool {
    flat_eval(local.rules, ctx, files, local.source_dir, 0) matches Ok(Some(_))
}

proof fn lemma_contexts_together(
    audit: AuditView,
    local: LocalView,
    ctxs: Seq<CtxView>,
    files: FactsView,
    results: Seq<ResultView>,
    j: int,
    m: int,
    hit: bool,
)
    requires
        stop_at_a_denial(results, ctxs.len()),
        forall|i: int|
            0 <= i < results.len() ==> says(local, #[trigger] ctxs[i], files, results[i]),
        0 <= j <= results.len(),
        j > 0 ==> 0 <= m < j && results[m].decision != Decision::Deny,
        j > 0 ==> leads(results.take(j), m),
        j < results.len() || results.last().decision != Decision::Deny,
        hit <==> exists|i: int| 0 <= i < j && speaks(local, #[trigger] ctxs[i], files),
    ensures
        ({
            let all = contexts_eval(
                audit,
                local,
                ctxs,
                files,
                j,
                if j > 0 { Some(results[m]) } else { None },
                hit,
            );
            let any = exists|i: int|
                0 <= i < results.len() && speaks(local, #[trigger] ctxs[i], files);
            &&& any ==> (all.value matches Ok(Some(whole)) && is_strictest(whole, results))
            &&& !any ==> all.value == Ok::<Option<ResultView>, ErrorView>(None)
        }),
    decreases results.len() - j,
{
    if j < results.len() {
        assert(says(local, ctxs[j], files, results[j]));
        let one = results[j];
        let later = if j > 0 && rank(one.decision) < rank(results[m].decision) { m } else { j };
        if one.decision == Decision::Deny {
            assert(leads(results, j));
            assert(speaks(local, ctxs[j], files));
        } else {
            if j > 0 {
                let front = results.take(j);
                assert forall|i: int| 0 <= i < j implies rank((#[trigger] results[i]).decision)
                    <= rank(results[m].decision) && (i > m ==> rank(results[i].decision) < rank(
                    results[m].decision,
                )) by {
                    assert(front[i] == results[i]);
                }
            }
            let more = results.take(j + 1);
            assert forall|i: int| 0 <= i < more.len() implies rank((#[trigger] more[i]).decision)
                <= rank(more[later].decision) && (i > later ==> rank(more[i].decision) < rank(
                more[later].decision,
            )) by {
                assert(more[i] == results[i]);
            }
            assert(leads(more, later));
            let now = hit || speaks(local, ctxs[j], files);
            assert(now <==> exists|i: int|
                0 <= i < j + 1 && speaks(local, #[trigger] ctxs[i], files)) by {
                if hit {
                    let i = choose|i: int| 0 <= i < j && speaks(local, #[trigger] ctxs[i], files);
                    assert(0 <= i < j + 1 && speaks(local, ctxs[i], files));
                }
            }
            lemma_contexts_together(audit, local, ctxs, files, results, j + 1, later, now);
        }
    } else {
        assert(results.take(j) =~= results);
        assert(leads(results, m));
    }
}

/// The rules of a project decide a call by the strictest of what they say of its contexts;
/// of equally strict ones by the last. A context that none of them matches counts as passed
/// through, but where none matches any context nothing is decided.
pub proof fn project_rules_come_to_the_strictest(
    audit: AuditView,
    local: LocalView,
    ctxs: Seq<CtxView>,
    files: FactsView,
    results: Seq<ResultView>,
)
    requires
        stop_at_a_denial(results, ctxs.len()),
        forall|i: int|
            0 <= i < results.len() ==> says(local, #[trigger] ctxs[i], files, results[i]),
    ensures
        ({
            let all = contexts_eval(audit, local, ctxs, files, 0, None, false);
            let any = exists|i: int|
                0 <= i < results.len() && speaks(local, #[trigger] ctxs[i], files);
            &&& any ==> (all.value matches Ok(Some(whole)) && is_strictest(whole, results))
            &&& !any ==> all.value == Ok::<Option<ResultView>, ErrorView>(None)
        }),
{
    lemma_contexts_together(audit, local, ctxs, files, results, 0, 0, false);
}

proof fn lemma_local_log(
    audit: AuditView,
    local: LocalView,
    ctxs: Seq<CtxView>,
    files: FactsView,
    front: int,
    j: int,
    a: Option<ResultView>,
    b: Option<ResultView>,
    hit: bool,
    other: bool,
)
    requires
        0 <= front <= j <= ctxs.len(),
        a is Some ==> a->0.decision != Decision::Deny,
        b is Some ==> b->0.decision != Decision::Deny,
    ensures
        contexts_eval(audit, local, ctxs, files, j, a, hit).log == contexts_eval(
            audit,
            local,
            ctxs.skip(front),
            files,
            j - front,
            b,
            other,
        ).log,
    decreases ctxs.len() - j,
{
    if j < ctxs.len() {
        assert(ctxs.skip(front)[j - front] == ctxs[j]);
        match flat_eval(local.rules, ctxs[j], files, local.source_dir, 0) {
            Ok(Some(result)) => {
                if result.decision != Decision::Deny {
                    lemma_local_log(
                        audit,
                        local,
                        ctxs,
                        files,
                        front,
                        j + 1,
                        Some(merged(a, result)),
                        Some(merged(b, result)),
                        true,
                        true,
                    );
                }
            },
            Ok(None) => {
                let none = unmatched(local.source_dir);
                lemma_local_log(
                    audit,
                    local,
                    ctxs,
                    files,
                    front,
                    j + 1,
                    Some(merged(a, none)),
                    Some(merged(b, none)),
                    hit,
                    other,
                );
            },
            Err(_) => {},
        }
    }
}

/// Of what the rules of a project say, the log gets the results of rules that match, in
/// turn, as far as they belong there. Behind a denial nothing is logged.
pub proof fn each_match_of_a_project_rule_is_logged(
    audit: AuditView,
    local: LocalView,
    ctxs: Seq<CtxView>,
    files: FactsView,
)
    requires
        ctxs.len() > 0,
        flat_eval(local.rules, ctxs[0], files, local.source_dir, 0) is Ok,
    ensures
        ({
            let log = contexts_eval(audit, local, ctxs, files, 0, None, false).log;
            let rest = contexts_eval(audit, local, ctxs.skip(1), files, 0, None, false).log;
            let one = flat_eval(local.rules, ctxs[0], files, local.source_dir, 0)->Ok_0;
            &&& one is None ==> log == rest
            &&& one matches Some(result) ==> {
                let first = if belongs_in_the_log(audit, result) {
                    seq![
                        RecordView {
                            tool: ctxs[0].tool_name,
                            field: ctxs[0].field_name,
                            check_string: ctxs[0].check_string,
                            cwd: ctxs[0].cwd,
                            result,
                        },
                    ]
                } else {
                    Seq::empty()
                };
                log == if result.decision == Decision::Deny {
                    first
                } else {
                    first + rest
                }
            }
        }),
{
    match flat_eval(local.rules, ctxs[0], files, local.source_dir, 0) {
        Ok(Some(result)) => {
            if result.decision != Decision::Deny {
                lemma_local_log(
                    audit,
                    local,
                    ctxs,
                    files,
                    1,
                    1,
                    Some(result),
                    None,
                    true,
                    false,
                );
            }
        },
        Ok(None) => {
            let none = unmatched(local.source_dir);
            lemma_local_log(audit, local, ctxs, files, 1, 1, Some(none), None, false, false);
        },
        Err(_) => {},
    }
}

/// The fields of a call are logged as its commands are: in turn, each with the tool, the
/// field, the text that was checked, the directory and the result.
pub proof fn each_field_is_logged(
    config: ConfigView,
    tool: Seq<char>,
    input: Map<Seq<char>, Seq<char>>,
    cwd: Seq<char>,
    world: WorldView,
    result: ResultView,
)
    requires
        tool != "Bash"@,
        settles(
            config,
            config.entry_table,
            contexts_of(tool, input, cwd, world)[0],
            world,
            0,
            Ok(result),
        ),
    ensures
        ({
            let ctxs = contexts_of(tool, input, cwd, world);
            let ctx = ctxs[0];
            let inner = table_eval(config, config.entry_table, ctx, Seq::empty(), world, 0).log;
            let log = call_eval(config, tool, input, cwd, world).log;
            let first = if belongs_in_the_log(config.audit, result) {
                inner.push(
                    RecordView {
                        tool,
                        field: if is_file_tool(tool) {
                            "file_path"@
                        } else if tool == "Task"@ {
                            "subagent_type"@
                        } else {
                            "tool"@
                        },
                        check_string: if is_file_tool(tool) {
                            given(input, "file_path"@)
                        } else if tool == "Task"@ {
                            given(input, "subagent_type"@)
                        } else {
                            tool
                        },
                        cwd,
                        result,
                    },
                )
            } else {
                inner
            };
            &&& tool != "Task"@ || result.decision == Decision::Deny ==> log == first
            &&& first.is_prefix_of(log)
        }),
{
    lemma_tool_names();
    calls_are_checked_by_what_they_do(tool, input, cwd, world);
    reveal_with_fuel(fields_eval, 3);
    let ctxs = contexts_of(tool, input, cwd, world);
    let ctx = ctxs[0];
    let inner = table_eval(config, config.entry_table, ctx, Seq::empty(), world, 0).log;
    let record = RecordView {
        tool,
        field: ctx.field_name,
        check_string: ctx.check_string,
        cwd,
        result,
    };
    assert(inner + seq![record] =~= inner.push(record));
    assert(inner + Seq::<RecordView>::empty() =~= inner);
    let first = if belongs_in_the_log(config.audit, result) {
        inner.push(record)
    } else {
        inner
    };
    let log = call_eval(config, tool, input, cwd, world).log;
    if is_file_tool(tool) {
        assert(first + Seq::<RecordView>::empty() =~= first);
    }
    assert(log.take(first.len() as int) =~= first);
}

/// Where the configuration passes a call through and lets the project add rules, the project
/// is asked about the same contexts of the call, and what is logged then stands behind what
/// was logged before.
pub proof fn projects_are_asked_about_the_same_contexts(
    config: ConfigView,
    tool: Seq<char>,
    input: Map<Seq<char>, Seq<char>>,
    cwd: Seq<char>,
    local: LocalView,
    world: WorldView,
)
    requires
        config.local_rules,
        call_eval(config, tool, input, cwd, world).value matches Ok(result) && result.decision
            == Decision::Passthrough,
    ensures
        ({
            let first = call_eval(config, tool, input, cwd, world);
            let second = contexts_eval(
                config.audit,
                local,
                contexts_of(tool, input, cwd, world),
                world.files,
                0,
                None,
                false,
            );
            let both = call_eval_with_local(config, tool, input, cwd, Some(local), world);
            &&& both.log == first.log + second.log
            &&& second.value matches Ok(Some(own)) ==> both.value == Ok::<ResultView, ErrorView>(
                own,
            )
            &&& second.value matches Ok(None) ==> both.value == first.value
            &&& second.value matches Err(e) ==> both.value == Err::<ResultView, ErrorView>(e)
        }),
{
}

/// An error in what is decided about the first context of a call is an error of the call,
/// and so it is where the project is asked.
pub proof fn errors_are_not_passed_over(
    config: ConfigView,
    tool: Seq<char>,
    input: Map<Seq<char>, Seq<char>>,
    cwd: Seq<char>,
    local: LocalView,
    world: WorldView,
    e: ErrorView,
)
    requires
        contexts_of(tool, input, cwd, world).len() > 0,
    ensures
        settles(
            config,
            config.entry_table,
            contexts_of(tool, input, cwd, world)[0],
            world,
            0,
            Err(e),
        ) ==> call_eval(config, tool, input, cwd, world).value == Err::<ResultView, ErrorView>(e),
        flat_eval(
            local.rules,
            contexts_of(tool, input, cwd, world)[0],
            world.files,
            local.source_dir,
            0,
        ) == Err::<Option<ResultView>, ErrorView>(e) ==> contexts_eval(
            config.audit,
            local,
            contexts_of(tool, input, cwd, world),
            world.files,
            0,
            None,
            false,
        ).value == Err::<Option<ResultView>, ErrorView>(e),
{
    lemma_tool_names();
    calls_are_checked_by_what_they_do(tool, input, cwd, world);
}

} // verus!

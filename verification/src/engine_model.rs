//! What the rules decide: the model that [`crate::engine`] is verified against.
use vstd::prelude::*;
use crate::config::{Action, AuditLevel, AuditView, ConfigView, RuleView, TableView};
use crate::error::ErrorView;
use crate::paths::{join_path, parent};
use crate::patterns::match_result;
use crate::shell_grammar::{check_text, commands_from, commands_of, entered, CommandView, Place};
use crate::strmap::{key_from, lemma_key_from};
use crate::text::{decimal, joined};

verus! {

/// What is decided about a tool call.
#[derive(Debug, Clone, Copy, PartialEq, Eq, Structural)]
pub enum Decision {
    Allow,
    Deny,
    Passthrough,
    ForcePassthrough,
}

/// How strict a decision is.
pub open spec fn strictness(d: Decision) -> nat {
    match d {
        Decision::Allow => 0,
        Decision::Passthrough => 1,
        Decision::ForcePassthrough => 2,
        Decision::Deny => 3,
    }
}

/// The stricter of two decisions.
pub open spec fn stricter(a: Decision, b: Decision) -> Decision {
    if strictness(a) >= strictness(b) {
        a
    } else {
        b
    }
}

/// What is known of the file system: for some paths, whether they exist, and whether
/// they are directories.
pub struct FactsView {
    pub present: Map<Seq<char>, bool>,
    pub directory: Map<Seq<char>, bool>,
}

/// What evaluation takes from outside, in mathematical form.
pub struct WorldView {
    pub home: Seq<char>,
    pub env: Seq<Seq<char>>,
    pub files: FactsView,
}

/// What a rule is matched against, in mathematical form.
pub struct CtxView {
    pub tool_name: Seq<char>,
    pub check_string: Seq<char>,
    pub field_name: Seq<char>,
    /// The fields of the call that rules look at.
    pub fields: Map<Seq<char>, Seq<char>>,
    pub cwd: Seq<char>,
    /// Whether a `cd` led to that directory.
    pub moved: bool,
    /// What `arg` patterns are matched against.
    pub args: Seq<Seq<char>>,
    /// The arguments as written.
    pub written: Seq<Seq<char>>,
    pub redirects_in: Seq<Seq<char>>,
    pub redirects_out: Seq<Seq<char>>,
    pub env_vars: Seq<Seq<char>>,
}

/// A result, in mathematical form.
pub struct ResultView {
    pub decision: Decision,
    pub reason: Option<Seq<char>>,
    pub table: Option<Seq<char>>,
    pub rule_index: Option<usize>,
    pub source: Seq<char>,
}

/// An entry of the audit log, in mathematical form.
pub struct RecordView {
    pub tool: Seq<char>,
    pub field: Seq<char>,
    pub check_string: Seq<char>,
    pub cwd: Seq<char>,
    pub result: ResultView,
}

/// Whether a path exists.
pub open spec fn path_exists(files: FactsView, path: Seq<char>) -> Result<bool, ErrorView> {
    if files.present.dom().contains(path) {
        Ok(files.present[path])
    } else {
        Err(ErrorView::Unprobed { path, directory: false })
    }
}

/// Whether a path is a directory.
pub open spec fn path_is_dir(files: FactsView, path: Seq<char>) -> Result<bool, ErrorView> {
    if files.directory.dom().contains(path) {
        Ok(files.directory[path])
    } else {
        Err(ErrorView::Unprobed { path, directory: true })
    }
}

/// Whether a relative path exists in `dir`, or in a directory above it up to the
/// nearest one that holds `.git`.
pub open spec fn found_above(files: FactsView, path: Seq<char>, dir: Seq<char>) -> Result<
    bool,
    ErrorView,
>
    decreases dir.len(),
{
    match path_exists(files, join_path(dir, path)) {
        Ok(false) => match path_exists(files, join_path(dir, ".git"@)) {
            Ok(false) => match parent(dir) {
                Some(up) => if up.len() < dir.len() {
                    found_above(files, path, up)
                } else {
                    Ok(false)
                },
                None => Ok(false),
            },
            Ok(true) => Ok(false),
            Err(e) => Err(e),
        },
        other => other,
    }
}

/// `a`, and if it holds also `b`.
pub open spec fn both(a: Result<bool, ErrorView>, b: Result<bool, ErrorView>) -> Result<
    bool,
    ErrorView,
> {
    match a {
        Ok(true) => b,
        other => other,
    }
}

/// The opposite of `a`.
pub open spec fn opposite(a: Result<bool, ErrorView>) -> Result<bool, ErrorView> {
    match a {
        Ok(b) => Ok(!b),
        Err(e) => Err(e),
    }
}

/// A condition on one text.
pub open spec fn wanted(pattern: Option<Seq<char>>, text: Seq<char>) -> Result<bool, ErrorView> {
    match pattern {
        Some(p) => match_result(p, text),
        None => Ok(true),
    }
}

/// An exception on one text.
pub open spec fn unwanted(pattern: Option<Seq<char>>, text: Seq<char>) -> Result<bool, ErrorView> {
    match pattern {
        Some(p) => opposite(match_result(p, text)),
        None => Ok(true),
    }
}

/// Whether a pattern matches one of some texts. A pattern that does not compile
/// matches nothing.
pub open spec fn matches_any(p: Seq<char>, texts: Seq<Seq<char>>) -> bool {
    exists|i: int|
        0 <= i < texts.len() && match_result(p, #[trigger] texts[i]) == Ok::<bool, ErrorView>(true)
}

/// A condition on several texts, one of which must match.
pub open spec fn some_wanted(pattern: Option<Seq<char>>, texts: Seq<Seq<char>>) -> Result<
    bool,
    ErrorView,
> {
    Ok(pattern is None || matches_any(pattern->0, texts))
}

/// An exception on several texts, none of which may match.
pub open spec fn none_wanted(pattern: Option<Seq<char>>, texts: Seq<Seq<char>>) -> Result<
    bool,
    ErrorView,
> {
    Ok(pattern is None || !matches_any(pattern->0, texts))
}

/// A condition on a path.
pub open spec fn file_wanted(path: Option<Seq<char>>, cwd: Seq<char>, files: FactsView) -> Result<
    bool,
    ErrorView,
> {
    match path {
        Some(p) => found_above(files, p, cwd),
        None => Ok(true),
    }
}

/// An exception on a path.
pub open spec fn file_unwanted(path: Option<Seq<char>>, cwd: Seq<char>, files: FactsView) -> Result<
    bool,
    ErrorView,
> {
    match path {
        Some(p) => opposite(found_above(files, p, cwd)),
        None => Ok(true),
    }
}

/// The fields of a tool call that rules look at.
pub open spec fn fields_of(tool: Seq<char>) -> Seq<Seq<char>> {
    if tool == "Read"@ || tool == "Write"@ || tool == "Edit"@ || tool == "MultiEdit"@ || tool
        == "Glob"@ {
        seq!["file_path"@]
    } else if tool == "Task"@ {
        seq!["subagent_type"@, "prompt"@]
    } else {
        Seq::empty()
    }
}

/// The text of a field of a tool call; empty if there is none.
pub open spec fn field_text(input: Map<Seq<char>, Seq<char>>, field: Seq<char>) -> Seq<char> {
    if input.dom().contains(field) {
        input[field]
    } else {
        Seq::empty()
    }
}

/// The fields of a call of a tool that rules look at. One that the call leaves out is empty.
pub open spec fn own_fields(
    tool: Seq<char>,
    input: Map<Seq<char>, Seq<char>>,
) -> Map<Seq<char>, Seq<char>> {
    Map::new(|f: Seq<char>| fields_of(tool).contains(f), |f: Seq<char>| field_text(input, f))
}

/// What a condition on a field is matched against: the text that is checked, where it is
/// that field; or else the field of the call, if calls of the tool have one of that name.
pub open spec fn call_field(ctx: CtxView, field: Seq<char>) -> Option<Seq<char>> {
    if ctx.field_name == field {
        Some(ctx.check_string)
    } else if ctx.fields.dom().contains(field) {
        Some(ctx.fields[field])
    } else {
        None
    }
}

/// A condition on a field of the call. A field that calls of the tool do not have matches
/// nothing.
pub open spec fn field_condition(
    pattern: Option<Seq<char>>,
    ctx: CtxView,
    field: Seq<char>,
) -> Result<bool, ErrorView> {
    match (pattern, call_field(ctx, field)) {
        (None, _) => Ok(true),
        (Some(p), Some(text)) => match_result(p, text),
        (Some(_), None) => Ok(false),
    }
}

/// The conditions on the fields of the call.
pub open spec fn field_wanted(rule: RuleView, ctx: CtxView) -> Result<bool, ErrorView> {
    both(
        field_condition(rule.command, ctx, "command"@),
        both(
            field_condition(rule.file_path, ctx, "file_path"@),
            both(
                field_condition(rule.subagent_type, ctx, "subagent_type"@),
                field_condition(rule.prompt, ctx, "prompt"@),
            ),
        ),
    )
}

/// Whether all conditions of a rule hold. They are looked at in order, up to the first
/// that does not hold or cannot be decided.
pub open spec fn rule_matches(rule: RuleView, ctx: CtxView, files: FactsView) -> Result<
    bool,
    ErrorView,
> {
    both(
        wanted(rule.tool, ctx.tool_name),
        both(
            wanted(rule.cwd, ctx.cwd),
            both(
                unwanted(rule.cwd_not, ctx.cwd),
                both(
                    some_wanted(rule.arg, ctx.args),
                    both(
                        none_wanted(rule.arg_not, ctx.args),
                        both(
                            some_wanted(rule.stdin, ctx.redirects_in),
                            both(
                                none_wanted(rule.stdin_not, ctx.redirects_in),
                                both(
                                    some_wanted(rule.stdout, ctx.redirects_out),
                                    both(
                                        none_wanted(rule.stdout_not, ctx.redirects_out),
                                        both(
                                            some_wanted(rule.env, ctx.env_vars),
                                            both(
                                                none_wanted(rule.env_not, ctx.env_vars),
                                                both(
                                                    file_wanted(rule.has_file, ctx.cwd, files),
                                                    both(
                                                        file_unwanted(
                                                            rule.has_file_not,
                                                            ctx.cwd,
                                                            files,
                                                        ),
                                                        field_wanted(rule, ctx),
                                                    ),
                                                ),
                                            ),
                                        ),
                                    ),
                                ),
                            ),
                        ),
                    ),
                ),
            ),
        ),
    )
}

/// The first position at or after `from` that holds `text`.
pub open spec fn position_of(texts: Seq<Seq<char>>, text: Seq<char>, from: int) -> Option<int>
    decreases texts.len() - from,
{
    if from < 0 || from >= texts.len() {
        None
    } else if texts[from] == text {
        Some(from)
    } else {
        position_of(texts, text, from + 1)
    }
}

/// The command line that stands behind a flag.
pub open spec fn behind_flag(args: Seq<Seq<char>>, flag: Seq<char>) -> Option<Seq<char>> {
    match position_of(args, flag, 0) {
        Some(i) => if i + 1 < args.len() {
            Some(args[i + 1])
        } else {
            None
        },
        None => None,
    }
}

/// Whether an argument is a flag: a `-` with something behind it.
pub open spec fn is_flag(arg: Seq<char>) -> bool {
    arg.len() > 1 && arg[0] == '-'
}

/// The command line that begins behind `skip` positional arguments, read from number
/// `i` on. Flags are passed over, some of them together with the argument behind them;
/// behind `--` nothing is a flag.
pub open spec fn behind_positionals(
    args: Seq<Seq<char>>,
    opts: Seq<Seq<char>>,
    skip: nat,
    i: int,
    options_ended: bool,
) -> Option<Seq<char>>
    decreases args.len() + 1 - i,
{
    if i < 0 || i >= args.len() {
        None
    } else if !options_ended && args[i] == "--"@ {
        behind_positionals(args, opts, skip, i + 1, true)
    } else if !options_ended && is_flag(args[i]) {
        behind_positionals(
            args,
            opts,
            skip,
            if opts.contains(args[i]) { i + 2 } else { i + 1 },
            options_ended,
        )
    } else if skip > 0 {
        behind_positionals(args, opts, (skip - 1) as nat, i + 1, options_ended)
    } else {
        Some(joined(args.skip(i), " "@))
    }
}

/// The command line that a wrapper command runs, as a rule finds it. An empty one is
/// none.
pub open spec fn wrapped_command(rule: RuleView, args: Seq<Seq<char>>) -> Option<Seq<char>> {
    let found = match rule.flag_arg {
        Some(flag) => behind_flag(args, flag),
        None => behind_positionals(
            args,
            rule.opts_with_args,
            match rule.positional {
                Some(n) => n as nat,
                None => 0,
            },
            0,
            false,
        ),
    };
    match found {
        Some(text) => if text.len() > 0 {
            Some(text)
        } else {
            None
        },
        None => None,
    }
}

/// The commands of a wrapped command line: it is read where the wrapper command stands.
pub open spec fn wrapped_commands(text: Seq<char>, ctx: CtxView, home: Seq<char>) -> Seq<
    CommandView,
> {
    commands_from(text, Place { moved: ctx.moved, ..entered(ctx.cwd) }, home)
}

/// What a rule decides by itself. `forward` and `evaluate` decide nothing.
pub open spec fn decision_of(action: Action) -> Option<Decision> {
    match action {
        Action::Allow => Some(Decision::Allow),
        Action::Deny => Some(Decision::Deny),
        Action::Passthrough => Some(Decision::Passthrough),
        Action::ForcePassthrough => Some(Decision::ForcePassthrough),
        Action::Forward | Action::Evaluate => None,
    }
}

/// The reason that a `deny` rule gives if it holds none.
pub open spec fn denied_by(i: nat, table: Seq<char>) -> Seq<char> {
    "Denied by rule "@ + decimal(i) + " in table '"@ + table + "'"@
}

/// The result of a rule that decides.
pub open spec fn rule_result(
    decision: Decision,
    rule: RuleView,
    table: Seq<char>,
    i: int,
) -> ResultView {
    ResultView {
        decision,
        reason: if rule.reason is None && decision == Decision::Deny {
            Some(denied_by(i as nat, table))
        } else {
            rule.reason
        },
        table: Some(table),
        rule_index: Some(i as usize),
        source: "global"@,
    }
}

/// The result where wrapper commands are nested too deep.
pub open spec fn too_deep(table: Seq<char>, i: int) -> ResultView {
    ResultView {
        decision: Decision::Deny,
        reason: Some("Maximum wrapper depth exceeded"@),
        table: Some(table),
        rule_index: Some(i as usize),
        source: "global"@,
    }
}

/// The result where no rule of a table matches.
pub open spec fn default_result(table: Seq<char>, action: Action) -> Result<ResultView, ErrorView> {
    match decision_of(action) {
        Some(decision) => Ok(
            ResultView {
                decision,
                reason: Some("Default action in table '"@ + table + "'"@),
                table: Some(table),
                rule_index: None,
                source: "global"@,
            },
        ),
        None => Err(ErrorView::DefaultNotAllowed { table, action }),
    }
}

/// The result where forwarding came back to a table.
pub open spec fn cycle_result(table: Seq<char>) -> ResultView {
    ResultView {
        decision: Decision::Deny,
        reason: Some("Cycle detected: table '"@ + table + "' already visited"@),
        table: Some(table),
        rule_index: None,
        source: "global"@,
    }
}

/// Two results taken together: the stricter one, the later one if they are equally
/// strict.
pub open spec fn merged(acc: Option<ResultView>, new: ResultView) -> ResultView {
    match acc {
        None => new,
        Some(a) => if strictness(new.decision) >= strictness(a.decision) {
            new
        } else {
            a
        },
    }
}

/// What the audit log gets for one result.
pub open spec fn audited(audit: AuditView, record: RecordView) -> Seq<RecordView> {
    if audit.audit_file is Some && (audit.audit_level == AuditLevel::All || audit.audit_level
        == AuditLevel::Matched && record.result.rule_index is Some) {
        seq![record]
    } else {
        Seq::empty()
    }
}

/// How deep wrapper commands may be nested.
pub const MAX_WRAPPER_DEPTH: usize = 5;

/// How many of the first `n` tables have not been visited.
pub open spec fn unvisited(
    tables: Seq<(Seq<char>, TableView)>,
    visited: Seq<Seq<char>>,
    n: int,
) -> nat
    decreases n,
{
    if n <= 0 {
        0
    } else if visited.contains(tables[n - 1].0) {
        unvisited(tables, visited, n - 1)
    } else {
        unvisited(tables, visited, n - 1) + 1
    }
}

/// To visit one more table makes no table unvisited.
pub proof fn lemma_unvisited_push(
    tables: Seq<(Seq<char>, TableView)>,
    visited: Seq<Seq<char>>,
    name: Seq<char>,
    n: int,
)
    ensures
        unvisited(tables, visited.push(name), n) <= unvisited(tables, visited, n) <= if n > 0 {
            n
        } else {
            0
        },
    decreases n,
{
    if n > 0 {
        lemma_unvisited_push(tables, visited, name, n - 1);
        let t = tables[n - 1].0;
        if visited.contains(t) {
            let i = choose|i: int| 0 <= i < visited.len() && visited[i] == t;
            assert(visited.push(name)[i] == t);
        }
    }
}

/// To visit a table that has not been visited leaves fewer unvisited.
pub proof fn lemma_unvisited_drops(
    tables: Seq<(Seq<char>, TableView)>,
    visited: Seq<Seq<char>>,
    i: int,
    n: int,
)
    requires
        0 <= i < n <= tables.len(),
        !visited.contains(tables[i].0),
    ensures
        unvisited(tables, visited.push(tables[i].0), n) < unvisited(tables, visited, n),
    decreases n,
{
    let name = tables[i].0;
    lemma_unvisited_push(tables, visited, name, n - 1);
    if i == n - 1 {
        assert(visited.push(name)[visited.len() as int] == name);
    } else {
        lemma_unvisited_drops(tables, visited, i, n - 1);
        let t = tables[n - 1].0;
        if visited.contains(t) {
            let k = choose|k: int| 0 <= k < visited.len() && visited[k] == t;
            assert(visited.push(name)[k] == t);
        }
    }
}

/// What evaluating a table comes to: a result, the entries of the audit log, and the
/// tables that have been visited.
pub struct TableEval {
    pub value: Result<ResultView, ErrorView>,
    pub log: Seq<RecordView>,
    pub visited: Seq<Seq<char>>,
}

/// What evaluating commands comes to.
pub struct Eval {
    pub value: Result<Option<ResultView>, ErrorView>,
    pub log: Seq<RecordView>,
}

/// What a table decides, forwarding from `visited`.
pub open spec fn table_eval(
    config: ConfigView,
    name: Seq<char>,
    ctx: CtxView,
    visited: Seq<Seq<char>>,
    world: WorldView,
    depth: nat,
) -> TableEval
    decreases
            MAX_WRAPPER_DEPTH - depth,
            unvisited(config.tables, visited, config.tables.len() as int),
            0int,
{
    if visited.contains(name) {
        TableEval { value: Err(ErrorView::Cycle { table: name }), log: Seq::empty(), visited }
    } else {
        match key_from(config.tables, name, 0) {
            Some(t) => {
                proof {
                    lemma_key_from(config.tables, name, 0);
                    lemma_unvisited_drops(config.tables, visited, t, config.tables.len() as int);
                }
                rules_eval(
                    config,
                    name,
                    config.tables[t].1,
                    0,
                    ctx,
                    visited.push(name),
                    world,
                    depth,
                )
            },
            None => TableEval {
                value: Err(ErrorView::TableNotFound { table: name }),
                log: Seq::empty(),
                visited: visited.push(name),
            },
        }
    }
}

/// What the rules of a table decide, from number `i` on: the first that matches
/// decides. One that is to evaluate a wrapped command is passed over if it finds none.
pub open spec fn rules_eval(
    config: ConfigView,
    name: Seq<char>,
    table: TableView,
    i: int,
    ctx: CtxView,
    visited: Seq<Seq<char>>,
    world: WorldView,
    depth: nat,
) -> TableEval
    decreases
            MAX_WRAPPER_DEPTH - depth,
            unvisited(config.tables, visited, config.tables.len() as int),
            table.rules.len() - i,
{
    if i < 0 || i >= table.rules.len() {
        TableEval { value: default_result(name, table.default), log: Seq::empty(), visited }
    } else {
        let rule = table.rules[i];
        match rule_matches(rule, ctx, world.files) {
            Err(e) => TableEval { value: Err(e), log: Seq::empty(), visited },
            Ok(false) => rules_eval(config, name, table, i + 1, ctx, visited, world, depth),
            Ok(true) => match decision_of(rule.action) {
                Some(decision) => TableEval {
                    value: Ok(rule_result(decision, rule, name, i)),
                    log: Seq::empty(),
                    visited,
                },
                None => if rule.action == Action::Forward {
                    table_eval(config, target_of(rule), ctx, visited, world, depth)
                } else if depth >= MAX_WRAPPER_DEPTH {
                    TableEval { value: Ok(too_deep(name, i)), log: Seq::empty(), visited }
                } else {
                    match wrapped_command(rule, ctx.written) {
                        Some(text) => {
                            let inner = commands_eval(
                                config,
                                ctx.tool_name,
                                ctx.fields,
                                wrapped_commands(text, ctx, world.home),
                                match rule.target {
                                    Some(target) => target,
                                    None => config.entry_table,
                                },
                                world,
                                depth + 1,
                                0,
                                None,
                            );
                            match inner.value {
                                Ok(Some(result)) => TableEval {
                                    value: Ok(result),
                                    log: inner.log,
                                    visited,
                                },
                                Ok(None) => rules_eval(
                                    config,
                                    name,
                                    table,
                                    i + 1,
                                    ctx,
                                    visited,
                                    world,
                                    depth,
                                ),
                                Err(e) => TableEval { value: Err(e), log: inner.log, visited },
                            }
                        },
                        None => rules_eval(config, name, table, i + 1, ctx, visited, world, depth),
                    }
                },
            },
        }
    }
}

/// The table that a `forward` rule leads to.
pub open spec fn target_of(rule: RuleView) -> Seq<char> {
    match rule.target {
        Some(target) => target,
        None => Seq::empty(),
    }
}

/// What a table decides where evaluation starts in it. Forwarding in a circle is a
/// denial.
pub open spec fn settled_value(value: Result<ResultView, ErrorView>) -> Result<
    ResultView,
    ErrorView,
> {
    match value {
        Err(ErrorView::Cycle { table }) => Ok(cycle_result(table)),
        other => other,
    }
}

/// What `arg` patterns are matched against: the arguments, and behind a `cd`, where paths
/// among them are resolved, also the arguments as written.
pub open spec fn seen_args(c: CommandView) -> Seq<Seq<char>> {
    if c.moved {
        c.args + c.written
    } else {
        c.args
    }
}

/// What the rules of a command are matched against.
pub open spec fn command_ctx(
    tool: Seq<char>,
    own: Map<Seq<char>, Seq<char>>,
    c: CommandView,
    env: Seq<Seq<char>>,
) -> CtxView {
    CtxView {
        tool_name: tool,
        check_string: check_text(c),
        field_name: "command"@,
        fields: own,
        cwd: c.effective_cwd,
        moved: c.moved,
        args: seen_args(c),
        written: c.written,
        redirects_in: c.redirects_in,
        redirects_out: c.redirects_out,
        env_vars: env + c.env_vars,
    }
}

/// The entry of the audit log for a result.
pub open spec fn record_of(ctx: CtxView, result: ResultView) -> RecordView {
    RecordView {
        tool: ctx.tool_name,
        field: ctx.field_name,
        check_string: ctx.check_string,
        cwd: ctx.cwd,
        result,
    }
}

/// What the commands from number `j` on decide together, starting each in table
/// `name`; `acc` is what those before have decided. A denial ends it.
pub open spec fn commands_eval(
    config: ConfigView,
    tool: Seq<char>,
    own: Map<Seq<char>, Seq<char>>,
    commands: Seq<CommandView>,
    name: Seq<char>,
    world: WorldView,
    depth: nat,
    j: int,
    acc: Option<ResultView>,
) -> Eval
    decreases
            MAX_WRAPPER_DEPTH - depth,
            config.tables.len() + 1,
            commands.len() - j,
{
    if j < 0 || j >= commands.len() {
        Eval { value: Ok(acc), log: Seq::empty() }
    } else {
        proof {
            lemma_unvisited_push(
                config.tables,
                Seq::empty(),
                Seq::empty(),
                config.tables.len() as int,
            );
        }
        let ctx = command_ctx(tool, own, commands[j], world.env);
        let one = table_eval(config, name, ctx, Seq::empty(), world, depth);
        match settled_value(one.value) {
            Err(e) => Eval { value: Err(e), log: one.log },
            Ok(result) => {
                let log = one.log + audited(config.audit, record_of(ctx, result));
                let so_far = merged(acc, result);
                if so_far.decision == Decision::Deny {
                    Eval { value: Ok(Some(so_far)), log }
                } else {
                    let rest = commands_eval(
                        config,
                        tool,
                        own,
                        commands,
                        name,
                        world,
                        depth,
                        j + 1,
                        Some(so_far),
                    );
                    Eval { value: rest.value, log: log + rest.log }
                }
            },
        }
    }
}

/// The result that has no opinion.
pub open spec fn no_opinion(reason: Seq<char>) -> ResultView {
    ResultView {
        decision: Decision::Passthrough,
        reason: Some(reason),
        table: None,
        rule_index: None,
        source: "global"@,
    }
}

/// What a tool call comes to.
pub struct CallEval {
    pub value: Result<ResultView, ErrorView>,
    pub log: Seq<RecordView>,
}

/// What a `Bash` call comes to: what its commands decide together.
pub open spec fn bash_eval(
    config: ConfigView,
    tool: Seq<char>,
    input: Map<Seq<char>, Seq<char>>,
    cwd: Seq<char>,
    world: WorldView,
) -> CallEval {
    let command = field_text(input, "command"@);
    let commands = commands_of(command, cwd, world.home);
    if command.len() == 0 {
        CallEval { value: Ok(no_opinion("Empty command"@)), log: Seq::empty() }
    } else {
        let all = commands_eval(
            config,
            tool,
            own_fields(tool, input),
            commands,
            config.entry_table,
            world,
            0,
            0,
            None,
        );
        CallEval {
            value: match all.value {
                Ok(Some(result)) => Ok(result),
                Ok(None) => Ok(no_opinion("No commands parsed"@)),
                Err(e) => Err(e),
            },
            log: all.log,
        }
    }
}

/// What the rules of a field are matched against.
pub open spec fn field_ctx(
    tool: Seq<char>,
    own: Map<Seq<char>, Seq<char>>,
    field: Seq<char>,
    text: Seq<char>,
    cwd: Seq<char>,
    env: Seq<Seq<char>>,
) -> CtxView {
    CtxView {
        tool_name: tool,
        check_string: text,
        field_name: field,
        fields: own,
        cwd,
        moved: false,
        args: Seq::empty(),
        written: Seq::empty(),
        redirects_in: Seq::empty(),
        redirects_out: Seq::empty(),
        env_vars: env,
    }
}

/// What the fields from number `j` on decide together; `acc` is what those before
/// have decided. A denial ends it.
pub open spec fn fields_eval(
    config: ConfigView,
    tool: Seq<char>,
    input: Map<Seq<char>, Seq<char>>,
    cwd: Seq<char>,
    world: WorldView,
    fields: Seq<Seq<char>>,
    j: int,
    acc: Option<ResultView>,
) -> Eval
    decreases fields.len() - j,
{
    if j < 0 || j >= fields.len() {
        Eval { value: Ok(acc), log: Seq::empty() }
    } else {
        let ctx = field_ctx(
            tool,
            own_fields(tool, input),
            fields[j],
            field_text(input, fields[j]),
            cwd,
            world.env,
        );
        let one = table_eval(config, config.entry_table, ctx, Seq::empty(), world, 0);
        match settled_value(one.value) {
            Err(e) => Eval { value: Err(e), log: one.log },
            Ok(result) => {
                let log = one.log + audited(config.audit, record_of(ctx, result));
                let so_far = merged(acc, result);
                if so_far.decision == Decision::Deny {
                    Eval { value: Ok(Some(so_far)), log }
                } else {
                    let rest = fields_eval(
                        config,
                        tool,
                        input,
                        cwd,
                        world,
                        fields,
                        j + 1,
                        Some(so_far),
                    );
                    Eval { value: rest.value, log: log + rest.log }
                }
            },
        }
    }
}

/// What a call of another tool comes to: what its fields decide together. Of a tool
/// without such fields, the name is checked.
pub open spec fn other_eval(
    config: ConfigView,
    tool: Seq<char>,
    input: Map<Seq<char>, Seq<char>>,
    cwd: Seq<char>,
    world: WorldView,
) -> CallEval {
    let fields = fields_of(tool);
    if fields.len() == 0 {
        let ctx = field_ctx(tool, own_fields(tool, input), "tool"@, tool, cwd, world.env);
        let one = table_eval(config, config.entry_table, ctx, Seq::empty(), world, 0);
        match settled_value(one.value) {
            Err(e) => CallEval { value: Err(e), log: one.log },
            Ok(result) => CallEval {
                value: Ok(result),
                log: one.log + audited(config.audit, record_of(ctx, result)),
            },
        }
    } else {
        let all = fields_eval(config, tool, input, cwd, world, fields, 0, None);
        CallEval {
            value: match all.value {
                Ok(Some(result)) => Ok(result),
                Ok(None) => Ok(no_opinion("No fields evaluated"@)),
                Err(e) => Err(e),
            },
            log: all.log,
        }
    }
}

/// What a tool call comes to by the configuration alone.
pub open spec fn call_eval(
    config: ConfigView,
    tool: Seq<char>,
    input: Map<Seq<char>, Seq<char>>,
    cwd: Seq<char>,
    world: WorldView,
) -> CallEval {
    if tool == "Bash"@ {
        bash_eval(config, tool, input, cwd, world)
    } else {
        other_eval(config, tool, input, cwd, world)
    }
}

/// The rules of a project, in mathematical form.
pub struct LocalView {
    pub source_dir: Seq<char>,
    pub rules: Seq<RuleView>,
}

/// What a flat list of rules decides, from number `i` on: what the first rule that
/// matches says, if one does.
pub open spec fn flat_eval(
    rules: Seq<RuleView>,
    ctx: CtxView,
    files: FactsView,
    source: Seq<char>,
    i: int,
) -> Result<Option<ResultView>, ErrorView>
    decreases rules.len() - i,
{
    if i < 0 || i >= rules.len() {
        Ok(None)
    } else {
        match rule_matches(rules[i], ctx, files) {
            Err(e) => Err(e),
            Ok(false) => flat_eval(rules, ctx, files, source, i + 1),
            Ok(true) => match decision_of(rules[i].action) {
                Some(decision) => Ok(
                    Some(
                        ResultView {
                            decision,
                            reason: rules[i].reason,
                            table: None,
                            rule_index: Some(i as usize),
                            source,
                        },
                    ),
                ),
                None => Ok(None),
            },
        }
    }
}

/// The result where no rule of a project matches.
pub open spec fn unmatched(source: Seq<char>) -> ResultView {
    ResultView {
        decision: Decision::Passthrough,
        reason: Some("No project rule matched"@),
        table: None,
        rule_index: None,
        source,
    }
}

/// What the rules of a project decide about several contexts together, from number
/// `j` on; `acc` is what those before have decided, and `hit` says whether a rule matched
/// one of them. One that no rule matches counts as passed through, but where none is
/// matched nothing is decided. A denial ends it.
pub open spec fn contexts_eval(
    audit: AuditView,
    local: LocalView,
    ctxs: Seq<CtxView>,
    files: FactsView,
    j: int,
    acc: Option<ResultView>,
    hit: bool,
) -> Eval
    decreases ctxs.len() - j,
{
    if j < 0 || j >= ctxs.len() {
        Eval { value: Ok(if hit { acc } else { None }), log: Seq::empty() }
    } else {
        match flat_eval(local.rules, ctxs[j], files, local.source_dir, 0) {
            Err(e) => Eval { value: Err(e), log: Seq::empty() },
            Ok(None) => {
                let so_far = merged(acc, unmatched(local.source_dir));
                contexts_eval(audit, local, ctxs, files, j + 1, Some(so_far), hit)
            },
            Ok(Some(result)) => {
                let log = audited(audit, record_of(ctxs[j], result));
                let so_far = merged(acc, result);
                if so_far.decision == Decision::Deny {
                    Eval { value: Ok(Some(so_far)), log }
                } else {
                    let rest = contexts_eval(audit, local, ctxs, files, j + 1, Some(so_far), true);
                    Eval { value: rest.value, log: log + rest.log }
                }
            },
        }
    }
}

/// The contexts of a tool call: one for each command or field.
pub open spec fn contexts_of(
    tool: Seq<char>,
    input: Map<Seq<char>, Seq<char>>,
    cwd: Seq<char>,
    world: WorldView,
) -> Seq<CtxView> {
    let command = field_text(input, "command"@);
    let commands = commands_of(command, cwd, world.home);
    let fields = fields_of(tool);
    if tool == "Bash"@ {
        if command.len() == 0 {
            Seq::empty()
        } else {
            Seq::new(commands.len(), |j: int| command_ctx(
                tool,
                own_fields(tool, input),
                commands[j],
                world.env,
            ))
        }
    } else if fields.len() == 0 {
        seq![field_ctx(tool, own_fields(tool, input), "tool"@, tool, cwd, world.env)]
    } else {
        Seq::new(
            fields.len(),
            |j: int| field_ctx(
                tool,
                own_fields(tool, input),
                fields[j],
                field_text(input, fields[j]),
                cwd,
                world.env,
            ),
        )
    }
}

/// What the rules of a project decide about a tool call, if anything.
pub open spec fn local_eval(
    audit: AuditView,
    local: LocalView,
    tool: Seq<char>,
    input: Map<Seq<char>, Seq<char>>,
    cwd: Seq<char>,
    world: WorldView,
) -> Eval {
    contexts_eval(audit, local, contexts_of(tool, input, cwd, world), world.files, 0, None, false)
}

/// What a tool call comes to by the configuration and the rules of the project. These
/// are asked only where the configuration allows it and has no opinion.
pub open spec fn call_eval_with_local(
    config: ConfigView,
    tool: Seq<char>,
    input: Map<Seq<char>, Seq<char>>,
    cwd: Seq<char>,
    local: Option<LocalView>,
    world: WorldView,
) -> CallEval {
    let first = call_eval(config, tool, input, cwd, world);
    match (first.value, local) {
        (Ok(result), Some(rules)) => if config.local_rules && result.decision
            == Decision::Passthrough {
            let second = local_eval(config.audit, rules, tool, input, cwd, world);
            CallEval {
                value: match second.value {
                    Ok(Some(own)) => Ok(own),
                    Ok(None) => Ok(result),
                    Err(e) => Err(e),
                },
                log: first.log + second.log,
            }
        } else {
            first
        },
        _ => first,
    }
}

} // verus!

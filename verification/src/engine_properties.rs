//! What holds of evaluation as a whole.
use vstd::prelude::*;
use crate::config::{Action, AuditLevel, AuditView, ConfigView, RuleView, TableView};
use crate::dsl_grammar::{all_local, blank_rule, takes_local_action};
use crate::engine_model::{
    call_eval, call_eval_with_local, call_field, command_ctx, commands_eval, contexts_eval,
    contexts_of, cycle_result, decision_of, default_result, field_ctx, field_text, fields_eval,
    fields_of, file_unwanted, file_wanted, flat_eval, found_above, lemma_unvisited_drops,
    lemma_unvisited_push, local_eval, matches_any, merged, own_fields, rule_matches, rule_result,
    rules_eval, seen_args, settled_value, stricter, strictness, table_eval, target_of, too_deep,
    unmatched, unvisited, unwanted, wanted, wrapped_command, wrapped_commands, CtxView, Decision,
    FactsView, LocalView, MAX_WRAPPER_DEPTH, RecordView, ResultView, WorldView,
};
use crate::error::ErrorView;
use crate::paths::parent;
use crate::patterns::match_result;
use crate::shell_grammar::{commands_of, continued, entered, lemma_skips, resolved, CommandView};
use crate::shell_properties::{
    all_blank, changes_directory, directory_changes_are_followed, doubles,
    edge_blanks_change_nothing, is_plain, is_plain_char, is_plain_word, is_separator,
    lemma_separator_chars, plain_texts_are_single_commands, plain_texts_keep_the_directory,
    plain_texts_without_breaks, separators_split_plain_commands,
};
use crate::strmap::{key_from, lemma_key_from};

verus! {

/// To take the stricter of decisions does not depend on the order in which they come
/// or are grouped; a denial wins over everything, and everything wins over an allowance.
pub proof fn stricter_is_a_join(a: Decision, b: Decision, c: Decision)
    ensures
        stricter(a, b) == stricter(b, a),
        stricter(a, stricter(b, c)) == stricter(stricter(a, b), c),
        stricter(a, a) == a,
        stricter(Decision::Deny, a) == Decision::Deny,
        stricter(Decision::Allow, a) == a,
        stricter(Decision::ForcePassthrough, Decision::Passthrough) == Decision::ForcePassthrough,
        strictness(stricter(a, b)) >= strictness(a),
        strictness(stricter(a, b)) >= strictness(b),
{
}

/// Whether calls of the tool have a field, and its text in this call matches a pattern.
pub open spec fn field_holds(pattern: Seq<char>, ctx: CtxView, field: Seq<char>) -> bool {
    call_field(ctx, field) matches Some(text) && match_result(pattern, text) == Ok::<
        bool,
        ErrorView,
    >(true)
}

/// A rule matches if and only if every one of its conditions holds and none of its
/// exceptions does. A condition on a field holds if calls of the tool have that field and its
/// text matches.
pub proof fn rule_matches_iff_all_hold(rule: RuleView, ctx: CtxView, files: FactsView)
    ensures
        rule_matches(rule, ctx, files) == Ok::<bool, ErrorView>(true) <==> {
            &&& wanted(rule.tool, ctx.tool_name) == Ok::<bool, ErrorView>(true)
            &&& wanted(rule.cwd, ctx.cwd) == Ok::<bool, ErrorView>(true)
            &&& unwanted(rule.cwd_not, ctx.cwd) == Ok::<bool, ErrorView>(true)
            &&& rule.arg is Some ==> matches_any(rule.arg->0, ctx.args)
            &&& rule.arg_not is Some ==> !matches_any(rule.arg_not->0, ctx.args)
            &&& rule.stdin is Some ==> matches_any(rule.stdin->0, ctx.redirects_in)
            &&& rule.stdin_not is Some ==> !matches_any(rule.stdin_not->0, ctx.redirects_in)
            &&& rule.stdout is Some ==> matches_any(rule.stdout->0, ctx.redirects_out)
            &&& rule.stdout_not is Some ==> !matches_any(rule.stdout_not->0, ctx.redirects_out)
            &&& rule.env is Some ==> matches_any(rule.env->0, ctx.env_vars)
            &&& rule.env_not is Some ==> !matches_any(rule.env_not->0, ctx.env_vars)
            &&& file_wanted(rule.has_file, ctx.cwd, files) == Ok::<bool, ErrorView>(true)
            &&& file_unwanted(rule.has_file_not, ctx.cwd, files) == Ok::<bool, ErrorView>(true)
            &&& rule.command is Some ==> field_holds(rule.command->0, ctx, "command"@)
            &&& rule.file_path is Some ==> field_holds(rule.file_path->0, ctx, "file_path"@)
            &&& rule.subagent_type is Some ==> field_holds(
                rule.subagent_type->0,
                ctx,
                "subagent_type"@,
            )
            &&& rule.prompt is Some ==> field_holds(rule.prompt->0, ctx, "prompt"@)
        },
{
}

/// Whether a condition or exception of one rule is there in another.
pub open spec fn carried(a: Option<Seq<char>>, b: Option<Seq<char>>) -> bool {
    a is None || a == b
}

/// Whether a rule has all conditions and exceptions of another, and perhaps more.
pub open spec fn narrows(more: RuleView, less: RuleView) -> bool {
    &&& carried(less.tool, more.tool)
    &&& carried(less.command, more.command)
    &&& carried(less.file_path, more.file_path)
    &&& carried(less.subagent_type, more.subagent_type)
    &&& carried(less.prompt, more.prompt)
    &&& carried(less.cwd, more.cwd)
    &&& carried(less.cwd_not, more.cwd_not)
    &&& carried(less.arg, more.arg)
    &&& carried(less.arg_not, more.arg_not)
    &&& carried(less.stdin, more.stdin)
    &&& carried(less.stdin_not, more.stdin_not)
    &&& carried(less.stdout, more.stdout)
    &&& carried(less.stdout_not, more.stdout_not)
    &&& carried(less.env, more.env)
    &&& carried(less.env_not, more.env_not)
    &&& carried(less.has_file, more.has_file)
    &&& carried(less.has_file_not, more.has_file_not)
}

/// One more condition or exception never makes a rule match more.
pub proof fn conditions_only_narrow(
    more: RuleView,
    less: RuleView,
    ctx: CtxView,
    files: FactsView,
)
    requires
        narrows(more, less),
        rule_matches(more, ctx, files) == Ok::<bool, ErrorView>(true),
    ensures
        rule_matches(less, ctx, files) == Ok::<bool, ErrorView>(true),
{
    rule_matches_iff_all_hold(more, ctx, files);
    rule_matches_iff_all_hold(less, ctx, files);
}

/// An exception whose pattern matches, or whose path exists, keeps a rule from matching,
/// whatever its other conditions are.
pub proof fn exceptions_cancel(rule: RuleView, ctx: CtxView, files: FactsView)
    requires
        ({
            ||| rule.cwd_not is Some && match_result(rule.cwd_not->0, ctx.cwd) == Ok::<
                bool,
                ErrorView,
            >(true)
            ||| rule.arg_not is Some && matches_any(rule.arg_not->0, ctx.args)
            ||| rule.stdin_not is Some && matches_any(rule.stdin_not->0, ctx.redirects_in)
            ||| rule.stdout_not is Some && matches_any(rule.stdout_not->0, ctx.redirects_out)
            ||| rule.env_not is Some && matches_any(rule.env_not->0, ctx.env_vars)
            ||| rule.has_file_not is Some && found_above(files, rule.has_file_not->0, ctx.cwd)
                == Ok::<bool, ErrorView>(true)
        }),
    ensures
        rule_matches(rule, ctx, files) != Ok::<bool, ErrorView>(true),
{
}

/// A rule without conditions matches everything.
pub proof fn empty_rule_matches_everything(rule: RuleView, ctx: CtxView, files: FactsView)
    requires
        rule == (RuleView {
            action: rule.action,
            reason: rule.reason,
            target: rule.target,
            flag_arg: rule.flag_arg,
            positional: rule.positional,
            opts_with_args: rule.opts_with_args,
            ..blank_rule()
        }),
    ensures
        rule_matches(rule, ctx, files) == Ok::<bool, ErrorView>(true),
{
}

/// Whether none of the first `k` rules matches.
pub open spec fn none_matches(
    rules: Seq<RuleView>,
    k: int,
    ctx: CtxView,
    files: FactsView,
) -> bool {
    forall|i: int|
        0 <= i < k ==> rule_matches(#[trigger] rules[i], ctx, files) == Ok::<bool, ErrorView>(false)
}

proof fn lemma_skip_unmatched(
    config: ConfigView,
    name: Seq<char>,
    table: TableView,
    i: int,
    k: int,
    ctx: CtxView,
    visited: Seq<Seq<char>>,
    world: WorldView,
    depth: nat,
)
    requires
        0 <= i <= k <= table.rules.len(),
        none_matches(table.rules, k, ctx, world.files),
    ensures
        rules_eval(config, name, table, i, ctx, visited, world, depth) == rules_eval(
            config,
            name,
            table,
            k,
            ctx,
            visited,
            world,
            depth,
        ),
    decreases k - i,
{
    if i < k {
        assert(rule_matches(table.rules[i], ctx, world.files) == Ok::<bool, ErrorView>(false));
        lemma_skip_unmatched(config, name, table, i + 1, k, ctx, visited, world, depth);
    }
}

/// The first rule that matches decides. `forward` yields what the target yields, as it
/// is; `evaluate` is refused where wrapper commands are nested too deep.
pub proof fn first_match_decides(
    config: ConfigView,
    name: Seq<char>,
    table: TableView,
    k: int,
    ctx: CtxView,
    visited: Seq<Seq<char>>,
    world: WorldView,
    depth: nat,
)
    requires
        0 <= k < table.rules.len(),
        none_matches(table.rules, k, ctx, world.files),
        rule_matches(table.rules[k], ctx, world.files) == Ok::<bool, ErrorView>(true),
    ensures
        ({
            let rule = table.rules[k];
            let all = rules_eval(config, name, table, 0, ctx, visited, world, depth);
            &&& decision_of(rule.action) is Some ==> all.value == Ok::<ResultView, ErrorView>(
                rule_result(decision_of(rule.action)->0, rule, name, k),
            )
            &&& rule.action == Action::Forward ==> all == table_eval(
                config,
                target_of(rule),
                ctx,
                visited,
                world,
                depth,
            )
            &&& rule.action == Action::Evaluate && depth >= MAX_WRAPPER_DEPTH ==> all.value == Ok::<
                ResultView,
                ErrorView,
            >(too_deep(name, k))
        }),
{
    lemma_skip_unmatched(config, name, table, 0, k, ctx, visited, world, depth);
}

/// Where no rule of a table matches, its default decides.
pub proof fn default_decides_unmatched(
    config: ConfigView,
    name: Seq<char>,
    table: TableView,
    ctx: CtxView,
    visited: Seq<Seq<char>>,
    world: WorldView,
    depth: nat,
)
    requires
        none_matches(table.rules, table.rules.len() as int, ctx, world.files),
    ensures
        rules_eval(config, name, table, 0, ctx, visited, world, depth).value == default_result(
            name,
            table.default,
        ),
{
    lemma_skip_unmatched(
        config,
        name,
        table,
        0,
        table.rules.len() as int,
        ctx,
        visited,
        world,
        depth,
    );
}

/// The strictest of the decisions of some commands, and of `acc`.
pub open spec fn strictest(
    config: ConfigView,
    tool: Seq<char>,
    own: Map<Seq<char>, Seq<char>>,
    commands: Seq<CommandView>,
    name: Seq<char>,
    world: WorldView,
    depth: nat,
    j: int,
    acc: Option<Decision>,
) -> Option<Decision>
    decreases commands.len() - j,
{
    if j < 0 || j >= commands.len() {
        acc
    } else {
        let one = decided(config, tool, own, commands[j], name, world, depth)->Ok_0.decision;
        let so_far = match acc {
            Some(d) => stricter(d, one),
            None => one,
        };
        strictest(config, tool, own, commands, name, world, depth, j + 1, Some(so_far))
    }
}

/// What one command comes to by itself.
pub open spec fn decided(
    config: ConfigView,
    tool: Seq<char>,
    own: Map<Seq<char>, Seq<char>>,
    command: CommandView,
    name: Seq<char>,
    world: WorldView,
    depth: nat,
) -> Result<ResultView, ErrorView> {
    settled_value(
        table_eval(
            config,
            name,
            command_ctx(tool, own, command, world.env),
            Seq::empty(),
            world,
            depth,
        ).value,
    )
}

proof fn lemma_strictest_from(
    config: ConfigView,
    tool: Seq<char>,
    own: Map<Seq<char>, Seq<char>>,
    commands: Seq<CommandView>,
    name: Seq<char>,
    world: WorldView,
    depth: nat,
    j: int,
    acc: Option<ResultView>,
)
    requires
        0 <= j <= commands.len(),
        forall|i: int|
            0 <= i < commands.len() ==> decided(
                config,
                tool,
                own,
                #[trigger] commands[i],
                name,
                world,
                depth,
            ) is Ok,
        acc is Some ==> acc->0.decision != Decision::Deny,
    ensures
        ({
            let all = commands_eval(config, tool, own, commands, name, world, depth, j, acc);
            let most = strictest(
                config,
                tool,
                own,
                commands,
                name,
                world,
                depth,
                j,
                match acc {
                    Some(a) => Some(a.decision),
                    None => None,
                },
            );
            &&& all.value is Ok
            &&& all.value->Ok_0 is Some <==> most is Some
            &&& most is Some ==> all.value->Ok_0->0.decision == most->0
        }),
    decreases commands.len() - j,
{
    if j < commands.len() {
        let one = decided(config, tool, own, commands[j], name, world, depth);
        assert(one is Ok);
        let so_far = merged(acc, one->Ok_0);
        if so_far.decision == Decision::Deny {
            lemma_deny_stays(config, tool, own, commands, name, world, depth, j + 1);
        } else {
            lemma_strictest_from(
                config,
                tool,
                own,
                commands,
                name,
                world,
                depth,
                j + 1,
                Some(so_far),
            );
        }
    }
}

proof fn lemma_deny_stays(
    config: ConfigView,
    tool: Seq<char>,
    own: Map<Seq<char>, Seq<char>>,
    commands: Seq<CommandView>,
    name: Seq<char>,
    world: WorldView,
    depth: nat,
    j: int,
)
    requires
        0 <= j <= commands.len(),
    ensures
        strictest(config, tool, own, commands, name, world, depth, j, Some(Decision::Deny)) == Some(
            Decision::Deny,
        ),
    decreases commands.len() - j,
{
    if j < commands.len() {
        lemma_deny_stays(config, tool, own, commands, name, world, depth, j + 1);
    }
}

/// Several commands together come to the strictest of what each comes to by itself.
pub proof fn commands_take_the_strictest(
    config: ConfigView,
    tool: Seq<char>,
    own: Map<Seq<char>, Seq<char>>,
    commands: Seq<CommandView>,
    name: Seq<char>,
    world: WorldView,
    depth: nat,
)
    requires
        commands.len() > 0,
        forall|i: int|
            0 <= i < commands.len() ==> decided(
                config,
                tool,
                own,
                #[trigger] commands[i],
                name,
                world,
                depth,
            ) is Ok,
    ensures
        ({
            let all = commands_eval(config, tool, own, commands, name, world, depth, 0, None);
            &&& all.value is Ok
            &&& all.value->Ok_0 is Some
            &&& strictest(config, tool, own, commands, name, world, depth, 0, None) == Some(
                all.value->Ok_0->0.decision,
            )
        }),
{
    lemma_strictest_from(config, tool, own, commands, name, world, depth, 0, None);
    lemma_strictest_some(config, tool, own, commands, name, world, depth, 0, None);
}

proof fn lemma_strictest_some(
    config: ConfigView,
    tool: Seq<char>,
    own: Map<Seq<char>, Seq<char>>,
    commands: Seq<CommandView>,
    name: Seq<char>,
    world: WorldView,
    depth: nat,
    j: int,
    acc: Option<Decision>,
)
    requires
        0 <= j <= commands.len(),
        acc is Some || j < commands.len(),
    ensures
        strictest(config, tool, own, commands, name, world, depth, j, acc) is Some,
        acc is Some ==> strictness(
            strictest(config, tool, own, commands, name, world, depth, j, acc)->0,
        ) >= strictness(acc->0),
        forall|i: int|
            j <= i < commands.len() ==> strictness(
                strictest(config, tool, own, commands, name, world, depth, j, acc)->0,
            ) >= strictness(
                decided(
                    config,
                    tool,
                    own,
                    #[trigger] commands[i],
                    name,
                    world,
                    depth,
                )->Ok_0.decision,
            ),
    decreases commands.len() - j,
{
    if j < commands.len() {
        let one = decided(config, tool, own, commands[j], name, world, depth)->Ok_0.decision;
        let so_far = match acc {
            Some(d) => stricter(d, one),
            None => one,
        };
        lemma_strictest_some(config, tool, own, commands, name, world, depth, j + 1, Some(so_far));
    }
}

/// One command that is denied by itself denies the whole, and no command is stricter than
/// the whole.
pub proof fn no_command_is_stricter_than_the_whole(
    config: ConfigView,
    tool: Seq<char>,
    own: Map<Seq<char>, Seq<char>>,
    commands: Seq<CommandView>,
    name: Seq<char>,
    world: WorldView,
    depth: nat,
    i: int,
)
    requires
        0 <= i < commands.len(),
        forall|k: int|
            0 <= k < commands.len() ==> decided(
                config,
                tool,
                own,
                #[trigger] commands[k],
                name,
                world,
                depth,
            ) is Ok,
    ensures
        ({
            let all = commands_eval(config, tool, own, commands, name, world, depth, 0, None);
            let one = decided(config, tool, own, commands[i], name, world, depth)->Ok_0.decision;
            &&& strictness(all.value->Ok_0->0.decision) >= strictness(one)
            &&& one == Decision::Deny ==> all.value->Ok_0->0.decision == Decision::Deny
        }),
{
    commands_take_the_strictest(config, tool, own, commands, name, world, depth);
    lemma_strictest_some(config, tool, own, commands, name, world, depth, 0, None);
}

proof fn lemma_single_command(
    config: ConfigView,
    tool: Seq<char>,
    own: Map<Seq<char>, Seq<char>>,
    command: CommandView,
    name: Seq<char>,
    world: WorldView,
    depth: nat,
)
    ensures
        commands_eval(config, tool, own, seq![command], name, world, depth, 0, None).value
            == match decided(config, tool, own, command, name, world, depth) {
            Ok(result) => Ok::<Option<ResultView>, ErrorView>(Some(result)),
            Err(e) => Err(e),
        },
{
    reveal_with_fuel(commands_eval, 2);
    assert(seq![command][0] == command);
}

proof fn lemma_two_commands(
    config: ConfigView,
    input: Map<Seq<char>, Seq<char>>,
    x: Seq<char>,
    sep: Seq<char>,
    y: Seq<char>,
    cwd: Seq<char>,
    world: WorldView,
)
    requires
        is_plain(x),
        is_plain(y),
        is_separator(sep),
        commands_of(x, cwd, world.home).len() > 0,
        commands_of(y, cwd, world.home).len() > 0,
        call_eval(config, "Bash"@, input.insert("command"@, x), cwd, world).value is Ok,
        call_eval(config, "Bash"@, input.insert("command"@, y), cwd, world).value is Ok,
    ensures
        ({
            let one = call_eval(config, "Bash"@, input.insert("command"@, x), cwd, world).value;
            let two = call_eval(config, "Bash"@, input.insert("command"@, y), cwd, world).value;
            let both = call_eval(
                config,
                "Bash"@,
                input.insert("command"@, x + sep + y),
                cwd,
                world,
            ).value;
            &&& both is Ok
            &&& both->Ok_0.decision == stricter(one->Ok_0.decision, two->Ok_0.decision)
        }),
{
    let bash = "Bash"@;
    let home = world.home;
    let start = entered(cwd);
    let whole = x + sep + y;
    let ix = input.insert("command"@, x);
    let iy = input.insert("command"@, y);
    let iw = input.insert("command"@, whole);
    let own = own_fields(bash, iw);
    lemma_bash_fields(ix);
    lemma_bash_fields(iy);
    lemma_bash_fields(iw);
    plain_texts_are_single_commands(x, start, home);
    plain_texts_are_single_commands(y, start, home);
    assert(!changes_directory(x));
    plain_texts_keep_the_directory(x, start, home);
    plain_texts_without_breaks(x);
    plain_texts_without_breaks(y);
    if y.len() > 0 {
        assert(is_plain_char(y[0]));
    }
    lemma_separator_chars(sep);
    separators_split_plain_commands(x, sep, y, start, home);
    let cx = commands_of(x, cwd, home)[0];
    let cy = commands_of(y, cwd, home)[0];
    assert(commands_of(x, cwd, home) =~= seq![cx]);
    assert(commands_of(y, cwd, home) =~= seq![cy]);
    let both = seq![cx, cy];
    assert(commands_of(whole, cwd, home) =~= both);
    let name = config.entry_table;
    lemma_single_command(config, bash, own, cx, name, world, 0);
    lemma_single_command(config, bash, own, cy, name, world, 0);
    assert(x.len() > 0 && y.len() > 0 && whole.len() > 0) by {
        lemma_skips(x, 0);
        lemma_skips(y, 0);
        assert(continued(x) == x && continued(y) == y);
    }
    assert forall|i: int| 0 <= i < both.len() implies decided(
        config,
        bash,
        own,
        #[trigger] both[i],
        name,
        world,
        0,
    ) is Ok by {}
    commands_take_the_strictest(config, bash, own, both, name, world, 0);
    reveal_with_fuel(strictest, 3);
}

proof fn lemma_same_commands(
    config: ConfigView,
    input: Map<Seq<char>, Seq<char>>,
    x: Seq<char>,
    y: Seq<char>,
    cwd: Seq<char>,
    world: WorldView,
)
    requires
        x.len() > 0,
        y.len() > 0,
        commands_of(x, cwd, world.home) == commands_of(y, cwd, world.home),
    ensures
        call_eval(config, "Bash"@, input.insert("command"@, x), cwd, world).value == call_eval(
            config,
            "Bash"@,
            input.insert("command"@, y),
            cwd,
            world,
        ).value,
{
    lemma_bash_fields(input.insert("command"@, x));
    lemma_bash_fields(input.insert("command"@, y));
}

proof fn lemma_bash_fields(input: Map<Seq<char>, Seq<char>>)
    ensures
        own_fields("Bash"@, input) == Map::<Seq<char>, Seq<char>>::empty(),
{
    let bash = "Bash"@;
    reveal_strlit("Bash");
    reveal_strlit("Read");
    reveal_strlit("Write");
    reveal_strlit("Edit");
    reveal_strlit("MultiEdit");
    reveal_strlit("Glob");
    reveal_strlit("Task");
    assert(bash[0] == 'B');
    assert("Read"@[0] == 'R' && "Edit"@[0] == 'E' && "Glob"@[0] == 'G' && "Task"@[0] == 'T');
    assert("Write"@.len() == 5 && "MultiEdit"@.len() == 9 && bash.len() == 4);
    assert(fields_of(bash) =~= Seq::<Seq<char>>::empty());
    assert(own_fields(bash, input) =~= Map::<Seq<char>, Seq<char>>::empty());
}

/// A `Bash` call whose command line is two plain commands with an operator between them, with
/// or without blanks around it, comes to the stricter of what the two come to, each as a call
/// of its own.
pub proof fn two_commands_take_the_stricter(
    config: ConfigView,
    input: Map<Seq<char>, Seq<char>>,
    x: Seq<char>,
    before: Seq<char>,
    sep: Seq<char>,
    behind: Seq<char>,
    y: Seq<char>,
    cwd: Seq<char>,
    world: WorldView,
)
    requires
        is_plain(x),
        is_plain(y),
        is_separator(sep),
        all_blank(before),
        all_blank(behind),
        commands_of(x, cwd, world.home).len() > 0,
        commands_of(y, cwd, world.home).len() > 0,
        call_eval(config, "Bash"@, input.insert("command"@, x), cwd, world).value is Ok,
        call_eval(config, "Bash"@, input.insert("command"@, y), cwd, world).value is Ok,
    ensures
        ({
            let one = call_eval(config, "Bash"@, input.insert("command"@, x), cwd, world).value;
            let two = call_eval(config, "Bash"@, input.insert("command"@, y), cwd, world).value;
            let both = call_eval(
                config,
                "Bash"@,
                input.insert("command"@, x + (before + sep + behind) + y),
                cwd,
                world,
            ).value;
            &&& both is Ok
            &&& both->Ok_0.decision == stricter(one->Ok_0.decision, two->Ok_0.decision)
        }),
{
    let none = Seq::<char>::empty();
    let first = none + x + before;
    let second = behind + y + none;
    edge_blanks_change_nothing(none, x, before, entered(cwd), world.home);
    edge_blanks_change_nothing(behind, y, none, entered(cwd), world.home);
    assert(x.len() > 0 && y.len() > 0) by {
        lemma_skips(x, 0);
        lemma_skips(y, 0);
        plain_texts_without_breaks(x);
        plain_texts_without_breaks(y);
    }
    lemma_same_commands(config, input, x, first, cwd, world);
    lemma_same_commands(config, input, y, second, cwd, world);
    lemma_two_commands(config, input, first, sep, second, cwd, world);
    assert(first + sep + second =~= x + (before + sep + behind) + y);
}

proof fn lemma_same_fields(
    config: ConfigView,
    tool: Seq<char>,
    a: Map<Seq<char>, Seq<char>>,
    b: Map<Seq<char>, Seq<char>>,
    cwd: Seq<char>,
    world: WorldView,
    fields: Seq<Seq<char>>,
    j: int,
    acc: Option<ResultView>,
)
    requires
        forall|f: Seq<char>| field_text(a, f) == field_text(b, f),
    ensures
        fields_eval(config, tool, a, cwd, world, fields, j, acc) == fields_eval(
            config,
            tool,
            b,
            cwd,
            world,
            fields,
            j,
            acc,
        ),
    decreases fields.len() - j,
{
    if 0 <= j < fields.len() {
        assert(own_fields(tool, a) =~= own_fields(tool, b));
        assert(field_text(a, fields[j]) == field_text(b, fields[j]));
        let ctx = field_ctx(
            tool,
            own_fields(tool, a),
            fields[j],
            field_text(a, fields[j]),
            cwd,
            world.env,
        );
        let one = settled_value(
            table_eval(config, config.entry_table, ctx, Seq::empty(), world, 0).value,
        );
        if one is Ok {
            lemma_same_fields(
                config,
                tool,
                a,
                b,
                cwd,
                world,
                fields,
                j + 1,
                Some(merged(acc, one->Ok_0)),
            );
        }
    }
}

/// A field that a tool call leaves out counts as an empty one.
pub proof fn missing_fields_are_empty(
    config: ConfigView,
    tool: Seq<char>,
    input: Map<Seq<char>, Seq<char>>,
    field: Seq<char>,
    cwd: Seq<char>,
    world: WorldView,
)
    requires
        !input.dom().contains(field),
    ensures
        call_eval(config, tool, input, cwd, world) == call_eval(
            config,
            tool,
            input.insert(field, Seq::empty()),
            cwd,
            world,
        ),
{
    let filled = input.insert(field, Seq::<char>::empty());
    assert forall|f: Seq<char>| field_text(input, f) == field_text(filled, f) by {}
    assert(own_fields(tool, input) =~= own_fields(tool, filled));
    lemma_same_fields(config, tool, input, filled, cwd, world, fields_of(tool), 0, None);
}

/// Behind a `cd`, a pattern for arguments matches if it matches one of them as written or
/// resolved; elsewhere, if it matches one of them.
pub proof fn arguments_are_seen_resolved_and_as_written(p: Seq<char>, c: CommandView)
    ensures
        c.moved ==> (matches_any(p, seen_args(c)) <==> matches_any(p, c.args) || matches_any(
            p,
            c.written,
        )),
        !c.moved ==> (matches_any(p, seen_args(c)) <==> matches_any(p, c.args)),
{
    let all = seen_args(c);
    if c.moved {
        if matches_any(p, c.args) {
            let i = choose|i: int|
                0 <= i < c.args.len() && match_result(p, #[trigger] c.args[i]) == Ok::<
                    bool,
                    ErrorView,
                >(true);
            assert(all[i] == c.args[i]);
        }
        if matches_any(p, c.written) {
            let i = choose|i: int|
                0 <= i < c.written.len() && match_result(p, #[trigger] c.written[i]) == Ok::<
                    bool,
                    ErrorView,
                >(true);
            assert(all[c.args.len() + i] == c.written[i]);
        }
        if matches_any(p, all) {
            let i = choose|i: int|
                0 <= i < all.len() && match_result(p, #[trigger] all[i]) == Ok::<
                    bool,
                    ErrorView,
                >(true);
            if i < c.args.len() {
                assert(c.args[i] == all[i]);
            } else {
                assert(c.written[i - c.args.len()] == all[i]);
            }
        }
    }
}

/// A wrapped command line is read where the wrapper command stands: if a `cd` led there, as
/// if it stood behind that `cd` itself, with the paths in it resolved.
pub proof fn wrapped_commands_stay_behind_the_cd(
    dir: Seq<char>,
    sep: Seq<char>,
    text: Seq<char>,
    ctx: CtxView,
    cwd: Seq<char>,
    home: Seq<char>,
)
    requires
        is_plain_word(dir),
        is_separator(sep),
        sep.len() == 1 ==> !doubles(sep, continued(text)),
        ctx.cwd == resolved(cwd, dir, home),
        ctx.moved,
    ensures
        wrapped_commands(text, ctx, home) == commands_of("cd "@ + dir + sep + text, cwd, home),
{
    directory_changes_are_followed(dir, sep, text, cwd, home);
}

/// Forwarding in a circle never comes out as an error of a tool call: it is a denial.
pub proof fn cycles_are_denials(
    config: ConfigView,
    tool: Seq<char>,
    input: Map<Seq<char>, Seq<char>>,
    cwd: Seq<char>,
    world: WorldView,
)
    ensures
        !(call_eval(config, tool, input, cwd, world).value matches Err(ErrorView::Cycle { .. })),
        forall|table: Seq<char>|
            #![trigger cycle_result(table)]
            settled_value(Err(ErrorView::Cycle { table })) == Ok::<ResultView, ErrorView>(
                cycle_result(table),
            ) && cycle_result(table).decision == Decision::Deny,
{
    lemma_no_cycle_commands(
        config,
        tool,
        own_fields(tool, input),
        commands_of(field_text(input, "command"@), cwd, world.home),
        config.entry_table,
        world,
        0,
        0,
        None,
    );
    lemma_no_cycle_fields(config, tool, input, cwd, world, fields_of(tool), 0, None);
}

proof fn lemma_no_cycle_commands(
    config: ConfigView,
    tool: Seq<char>,
    own: Map<Seq<char>, Seq<char>>,
    commands: Seq<CommandView>,
    name: Seq<char>,
    world: WorldView,
    depth: nat,
    j: int,
    acc: Option<ResultView>,
)
    ensures
        !(commands_eval(config, tool, own, commands, name, world, depth, j, acc).value matches Err(
            ErrorView::Cycle { .. },
        )),
    decreases commands.len() - j,
{
    if 0 <= j < commands.len() {
        let one = decided(config, tool, own, commands[j], name, world, depth);
        if one is Ok {
            lemma_no_cycle_commands(
                config,
                tool,
                own,
                commands,
                name,
                world,
                depth,
                j + 1,
                Some(merged(acc, one->Ok_0)),
            );
        }
    }
}

proof fn lemma_no_cycle_fields(
    config: ConfigView,
    tool: Seq<char>,
    input: Map<Seq<char>, Seq<char>>,
    cwd: Seq<char>,
    world: WorldView,
    fields: Seq<Seq<char>>,
    j: int,
    acc: Option<ResultView>,
)
    ensures
        !(fields_eval(config, tool, input, cwd, world, fields, j, acc).value matches Err(
            ErrorView::Cycle { .. },
        )),
    decreases fields.len() - j,
{
    if 0 <= j < fields.len() {
        let ctx = field_ctx(
            tool,
            own_fields(tool, input),
            fields[j],
            field_text(input, fields[j]),
            cwd,
            world.env,
        );
        let one = settled_value(
            table_eval(config, config.entry_table, ctx, Seq::empty(), world, 0).value,
        );
        if one is Ok {
            lemma_no_cycle_fields(
                config,
                tool,
                input,
                cwd,
                world,
                fields,
                j + 1,
                Some(merged(acc, one->Ok_0)),
            );
        }
    }
}

/// A table that forwards back to one on the way ends in the error that becomes a denial.
pub proof fn forwarding_back_is_a_cycle(
    config: ConfigView,
    name: Seq<char>,
    ctx: CtxView,
    visited: Seq<Seq<char>>,
    world: WorldView,
    depth: nat,
)
    requires
        visited.contains(name),
    ensures
        settled_value(table_eval(config, name, ctx, visited, world, depth).value) == Ok::<
            ResultView,
            ErrorView,
        >(cycle_result(name)),
{
}

/// Whether the settings of the audit log ask for an entry.
pub open spec fn asked_for(audit: AuditView, record: RecordView) -> bool {
    audit.audit_file is Some && match audit.audit_level {
        AuditLevel::Off => false,
        AuditLevel::Matched => record.result.rule_index is Some,
        AuditLevel::All => true,
    }
}

/// Whether the settings of the audit log ask for all of some entries.
pub open spec fn all_asked_for(audit: AuditView, log: Seq<RecordView>) -> bool {
    forall|i: int| 0 <= i < log.len() ==> asked_for(audit, #[trigger] log[i])
}

/// What is asked of the file system is not known yet.
pub open spec fn asks_the_unknown(value: Result<ResultView, ErrorView>, files: FactsView) -> bool {
    match value {
        Err(ErrorView::Unprobed { path, directory }) => !directory && !files.present.dom().contains(
            path,
        ),
        _ => true,
    }
}

proof fn lemma_search_asks_the_unknown(files: FactsView, path: Seq<char>, dir: Seq<char>)
    ensures
        match found_above(files, path, dir) {
            Err(e) => e matches ErrorView::Unprobed { path: p, directory: d } && !d
                && !files.present.dom().contains(p),
            Ok(_) => true,
        },
    decreases dir.len(),
{
    match parent(dir) {
        Some(up) => {
            if up.len() < dir.len() {
                lemma_search_asks_the_unknown(files, path, up);
            }
        },
        None => {},
    }
}

proof fn lemma_rule_asks_the_unknown(rule: RuleView, ctx: CtxView, files: FactsView)
    ensures
        match rule_matches(rule, ctx, files) {
            Err(ErrorView::Unprobed { path, directory }) => !directory
                && !files.present.dom().contains(path),
            _ => true,
        },
{
    if rule.has_file is Some {
        lemma_search_asks_the_unknown(files, rule.has_file->0, ctx.cwd);
    }
    if rule.has_file_not is Some {
        lemma_search_asks_the_unknown(files, rule.has_file_not->0, ctx.cwd);
    }
}

proof fn lemma_sound_table(
    config: ConfigView,
    name: Seq<char>,
    ctx: CtxView,
    visited: Seq<Seq<char>>,
    world: WorldView,
    depth: nat,
)
    ensures
        all_asked_for(
            config.audit,
            table_eval(config, name, ctx, visited, world, depth).log,
        ),
        asks_the_unknown(table_eval(config, name, ctx, visited, world, depth).value, world.files),
    decreases
            MAX_WRAPPER_DEPTH - depth,
            unvisited(config.tables, visited, config.tables.len() as int),
            0int,
{
    if !visited.contains(name) {
        lemma_key_from(config.tables, name, 0);
        match key_from(config.tables, name, 0) {
            Some(t) => {
                lemma_unvisited_drops(config.tables, visited, t, config.tables.len() as int);
                lemma_sound_rules(
                    config,
                    name,
                    config.tables[t].1,
                    0,
                    ctx,
                    visited.push(name),
                    world,
                    depth,
                );
            },
            None => {},
        }
    }
}

proof fn lemma_sound_rules(
    config: ConfigView,
    name: Seq<char>,
    table: TableView,
    i: int,
    ctx: CtxView,
    visited: Seq<Seq<char>>,
    world: WorldView,
    depth: nat,
)
    ensures
        all_asked_for(
            config.audit,
            rules_eval(config, name, table, i, ctx, visited, world, depth).log,
        ),
        asks_the_unknown(
            rules_eval(config, name, table, i, ctx, visited, world, depth).value,
            world.files,
        ),
    decreases
            MAX_WRAPPER_DEPTH - depth,
            unvisited(config.tables, visited, config.tables.len() as int),
            table.rules.len() - i,
{
    if 0 <= i < table.rules.len() {
        let rule = table.rules[i];
        lemma_rule_asks_the_unknown(rule, ctx, world.files);
        match rule_matches(rule, ctx, world.files) {
            Err(_) => {},
            Ok(false) => {
                lemma_sound_rules(config, name, table, i + 1, ctx, visited, world, depth);
            },
            Ok(true) => {
                if decision_of(rule.action) is None {
                    if rule.action == Action::Forward {
                        lemma_sound_table(config, target_of(rule), ctx, visited, world, depth);
                    } else if depth < MAX_WRAPPER_DEPTH {
                        match wrapped_command(rule, ctx.written) {
                            Some(text) => {
                                lemma_sound_commands(
                                    config,
                                    ctx.tool_name,
                                    ctx.fields,
                                    wrapped_commands(text, ctx, world.home),
                                    match rule.target {
                                        Some(target) => target,
                                        None => config.entry_table,
                                    },
                                    world,
                                    depth + 1,
                                    0,
                                    None,
                                );
                            },
                            None => {},
                        }
                        lemma_sound_rules(config, name, table, i + 1, ctx, visited, world, depth);
                    }
                }
            },
        }
    }
}

proof fn lemma_sound_commands(
    config: ConfigView,
    tool: Seq<char>,
    own: Map<Seq<char>, Seq<char>>,
    commands: Seq<CommandView>,
    name: Seq<char>,
    world: WorldView,
    depth: nat,
    j: int,
    acc: Option<ResultView>,
)
    ensures
        all_asked_for(
            config.audit,
            commands_eval(config, tool, own, commands, name, world, depth, j, acc).log,
        ),
        commands_eval(config, tool, own, commands, name, world, depth, j, acc).value matches Err(e)
            ==> asks_the_unknown(Err(e), world.files),
    decreases
            MAX_WRAPPER_DEPTH - depth,
            config.tables.len() + 1,
            commands.len() - j,
{
    if 0 <= j < commands.len() {
        lemma_unvisited_push(
            config.tables,
            Seq::empty(),
            Seq::empty(),
            config.tables.len() as int,
        );
        let ctx = command_ctx(tool, own, commands[j], world.env);
        lemma_sound_table(config, name, ctx, Seq::empty(), world, depth);
        let one = table_eval(config, name, ctx, Seq::empty(), world, depth);
        match settled_value(one.value) {
            Err(_) => {},
            Ok(result) => {
                let so_far = merged(acc, result);
                if so_far.decision != Decision::Deny {
                    lemma_sound_commands(
                        config,
                        tool,
                        own,
                        commands,
                        name,
                        world,
                        depth,
                        j + 1,
                        Some(so_far),
                    );
                }
            },
        }
    }
}

proof fn lemma_sound_fields(
    config: ConfigView,
    tool: Seq<char>,
    input: Map<Seq<char>, Seq<char>>,
    cwd: Seq<char>,
    world: WorldView,
    fields: Seq<Seq<char>>,
    j: int,
    acc: Option<ResultView>,
)
    ensures
        all_asked_for(
            config.audit,
            fields_eval(config, tool, input, cwd, world, fields, j, acc).log,
        ),
        fields_eval(config, tool, input, cwd, world, fields, j, acc).value matches Err(e)
            ==> asks_the_unknown(Err(e), world.files),
    decreases fields.len() - j,
{
    if 0 <= j < fields.len() {
        let ctx = field_ctx(
            tool,
            own_fields(tool, input),
            fields[j],
            field_text(input, fields[j]),
            cwd,
            world.env,
        );
        lemma_sound_table(config, config.entry_table, ctx, Seq::empty(), world, 0);
        let one = settled_value(
            table_eval(config, config.entry_table, ctx, Seq::empty(), world, 0).value,
        );
        if one is Ok {
            lemma_sound_fields(
                config,
                tool,
                input,
                cwd,
                world,
                fields,
                j + 1,
                Some(merged(acc, one->Ok_0)),
            );
        }
    }
}

proof fn lemma_sound_contexts(
    audit: AuditView,
    local: LocalView,
    ctxs: Seq<CtxView>,
    files: FactsView,
    j: int,
    acc: Option<ResultView>,
    hit: bool,
)
    ensures
        all_asked_for(audit, contexts_eval(audit, local, ctxs, files, j, acc, hit).log),
        contexts_eval(
            audit,
            local,
            ctxs,
            files,
            j,
            acc,
            hit,
        ).value matches Err(e) ==> asks_the_unknown(
            Err(e),
            files,
        ),
    decreases ctxs.len() - j,
{
    if 0 <= j < ctxs.len() {
        lemma_sound_flat(local.rules, ctxs[j], files, local.source_dir, 0);
        match flat_eval(local.rules, ctxs[j], files, local.source_dir, 0) {
            Err(_) => {},
            Ok(None) => {
                let so_far = merged(acc, unmatched(local.source_dir));
                lemma_sound_contexts(audit, local, ctxs, files, j + 1, Some(so_far), hit);
            },
            Ok(Some(result)) => {
                lemma_sound_contexts(
                    audit,
                    local,
                    ctxs,
                    files,
                    j + 1,
                    Some(merged(acc, result)),
                    true,
                );
            },
        }
    }
}

proof fn lemma_sound_flat(
    rules: Seq<RuleView>,
    ctx: CtxView,
    files: FactsView,
    source: Seq<char>,
    i: int,
)
    ensures
        flat_eval(rules, ctx, files, source, i) matches Err(e) ==> asks_the_unknown(Err(e), files),
    decreases rules.len() - i,
{
    if 0 <= i < rules.len() {
        lemma_rule_asks_the_unknown(rules[i], ctx, files);
        lemma_sound_flat(rules, ctx, files, source, i + 1);
    }
}

/// The audit log gets only what its settings ask for: nothing where it is off or has no
/// file, and where it is to hold matches only results of rules. And where evaluation asks
/// whether a path exists, that is not known yet.
pub proof fn evaluation_logs_and_asks_only_what_it_should(
    config: ConfigView,
    tool: Seq<char>,
    input: Map<Seq<char>, Seq<char>>,
    cwd: Seq<char>,
    local: Option<LocalView>,
    world: WorldView,
)
    ensures
        ({
            let all = call_eval_with_local(config, tool, input, cwd, local, world);
            &&& all_asked_for(config.audit, all.log)
            &&& asks_the_unknown(all.value, world.files)
        }),
{
    lemma_sound_commands(
        config,
        tool,
        own_fields(tool, input),
        commands_of(field_text(input, "command"@), cwd, world.home),
        config.entry_table,
        world,
        0,
        0,
        None,
    );
    lemma_sound_fields(config, tool, input, cwd, world, fields_of(tool), 0, None);
    lemma_sound_table(
        config,
        config.entry_table,
        field_ctx(tool, own_fields(tool, input), "tool"@, tool, cwd, world.env),
        Seq::empty(),
        world,
        0,
    );
    if local is Some {
        lemma_sound_contexts(
            config.audit,
            local->0,
            contexts_of(tool, input, cwd, world),
            world.files,
            0,
            None,
            false,
        );
    }
}

/// With the audit log off nothing is logged.
pub proof fn audit_off_logs_nothing(
    config: ConfigView,
    tool: Seq<char>,
    input: Map<Seq<char>, Seq<char>>,
    cwd: Seq<char>,
    local: Option<LocalView>,
    world: WorldView,
)
    requires
        config.audit.audit_level == AuditLevel::Off || config.audit.audit_file is None,
    ensures
        call_eval_with_local(config, tool, input, cwd, local, world).log.len() == 0,
{
    evaluation_logs_and_asks_only_what_it_should(config, tool, input, cwd, local, world);
    let log = call_eval_with_local(config, tool, input, cwd, local, world).log;
    if log.len() > 0 {
        assert(asked_for(config.audit, log[0]));
    }
}

/// Whether `b` says all that `a` says of the file system.
pub open spec fn extends(a: FactsView, b: FactsView) -> bool {
    &&& forall|p: Seq<char>| #[trigger]
        a.present.dom().contains(p) ==> b.present.dom().contains(p) && b.present[p] == a.present[p]
    &&& forall|p: Seq<char>| #[trigger]
        a.directory.dom().contains(p) ==> b.directory.dom().contains(p) && b.directory[p]
            == a.directory[p]
}

/// Whether a result asks nothing more of the file system.
pub open spec fn is_answer<T>(value: Result<T, ErrorView>) -> bool {
    !(value matches Err(ErrorView::Unprobed { .. }))
}

proof fn lemma_search_extends(a: FactsView, b: FactsView, path: Seq<char>, dir: Seq<char>)
    requires
        extends(a, b),
    ensures
        is_answer(found_above(a, path, dir)) ==> found_above(b, path, dir) == found_above(
            a,
            path,
            dir,
        ),
    decreases dir.len(),
{
    match parent(dir) {
        Some(up) => {
            if up.len() < dir.len() {
                lemma_search_extends(a, b, path, up);
            }
        },
        None => {},
    }
}

proof fn lemma_rule_extends(rule: RuleView, ctx: CtxView, a: FactsView, b: FactsView)
    requires
        extends(a, b),
    ensures
        is_answer(rule_matches(rule, ctx, a)) ==> rule_matches(rule, ctx, b) == rule_matches(
            rule,
            ctx,
            a,
        ),
{
    if rule.has_file is Some {
        lemma_search_extends(a, b, rule.has_file->0, ctx.cwd);
    }
    if rule.has_file_not is Some {
        lemma_search_extends(a, b, rule.has_file_not->0, ctx.cwd);
    }
}

proof fn lemma_extends_table(
    config: ConfigView,
    name: Seq<char>,
    ctx: CtxView,
    visited: Seq<Seq<char>>,
    world: WorldView,
    depth: nat,
    files: FactsView,
)
    requires
        extends(world.files, files),
    ensures
        ({
            let known = table_eval(config, name, ctx, visited, world, depth);
            is_answer(known.value) ==> table_eval(
                config,
                name,
                ctx,
                visited,
                WorldView { files, ..world },
                depth,
            ) == known
        }),
    decreases
            MAX_WRAPPER_DEPTH - depth,
            unvisited(config.tables, visited, config.tables.len() as int),
            0int,
{
    if !visited.contains(name) {
        lemma_key_from(config.tables, name, 0);
        match key_from(config.tables, name, 0) {
            Some(t) => {
                lemma_unvisited_drops(config.tables, visited, t, config.tables.len() as int);
                lemma_extends_rules(
                    config,
                    name,
                    config.tables[t].1,
                    0,
                    ctx,
                    visited.push(name),
                    world,
                    depth,
                    files
                );
            },
            None => {},
        }
    }
}

proof fn lemma_extends_rules(
    config: ConfigView,
    name: Seq<char>,
    table: TableView,
    i: int,
    ctx: CtxView,
    visited: Seq<Seq<char>>,
    world: WorldView,
    depth: nat,
    files: FactsView,
)
    requires
        extends(world.files, files),
    ensures
        ({
            let known = rules_eval(config, name, table, i, ctx, visited, world, depth);
            is_answer(known.value) ==> rules_eval(
                config,
                name,
                table,
                i,
                ctx,
                visited,
                WorldView { files, ..world },
                depth,
            ) == known
        }),
    decreases
            MAX_WRAPPER_DEPTH - depth,
            unvisited(config.tables, visited, config.tables.len() as int),
            table.rules.len() - i,
{
    if 0 <= i < table.rules.len() {
        let rule = table.rules[i];
        lemma_rule_extends(rule, ctx, world.files, files);
        match rule_matches(rule, ctx, world.files) {
            Err(_) => {},
            Ok(false) => {
                lemma_extends_rules(config, name, table, i + 1, ctx, visited, world, depth, files);
            },
            Ok(true) => {
                if decision_of(rule.action) is None {
                    if rule.action == Action::Forward {
                        let target = target_of(rule);
                        lemma_extends_table(config, target, ctx, visited, world, depth, files);
                    } else if depth < MAX_WRAPPER_DEPTH {
                        match wrapped_command(rule, ctx.written) {
                            Some(text) => {
                                lemma_extends_commands(
                                    config,
                                    ctx.tool_name,
                                    ctx.fields,
                                    wrapped_commands(text, ctx, world.home),
                                    match rule.target {
                                        Some(target) => target,
                                        None => config.entry_table,
                                    },
                                    world,
                                    depth + 1,
                                    0,
                                    None,
                                    files
                                );
                            },
                            None => {},
                        }
                        lemma_extends_rules(
                            config,
                            name,
                            table,
                            i + 1,
                            ctx,
                            visited,
                            world,
                            depth,
                            files,
                        );
                    }
                }
            },
        }
    }
}

proof fn lemma_extends_commands(
    config: ConfigView,
    tool: Seq<char>,
    own: Map<Seq<char>, Seq<char>>,
    commands: Seq<CommandView>,
    name: Seq<char>,
    world: WorldView,
    depth: nat,
    j: int,
    acc: Option<ResultView>,
    files: FactsView,
)
    requires
        extends(world.files, files),
    ensures
        ({
            let known = commands_eval(config, tool, own, commands, name, world, depth, j, acc);
            is_answer(known.value) ==> commands_eval(
                config,
                tool,
                own,
                commands,
                name,
                WorldView { files, ..world },
                depth,
                j,
                acc,
            ) == known
        }),
    decreases
            MAX_WRAPPER_DEPTH - depth,
            config.tables.len() + 1,
            commands.len() - j,
{
    if 0 <= j < commands.len() {
        lemma_unvisited_push(
            config.tables,
            Seq::empty(),
            Seq::empty(),
            config.tables.len() as int,
        );
        let ctx = command_ctx(tool, own, commands[j], world.env);
        lemma_extends_table(config, name, ctx, Seq::empty(), world, depth, files);
        let one = table_eval(config, name, ctx, Seq::empty(), world, depth);
        match settled_value(one.value) {
            Err(_) => {},
            Ok(result) => {
                let so_far = merged(acc, result);
                if so_far.decision != Decision::Deny {
                    lemma_extends_commands(
                        config,
                        tool,
                        own,
                        commands,
                        name,
                        world,
                        depth,
                        j + 1,
                        Some(so_far),
                        files
                    );
                }
            },
        }
    }
}

proof fn lemma_extends_fields(
    config: ConfigView,
    tool: Seq<char>,
    input: Map<Seq<char>, Seq<char>>,
    cwd: Seq<char>,
    world: WorldView,
    fields: Seq<Seq<char>>,
    j: int,
    acc: Option<ResultView>,
    files: FactsView,
)
    requires
        extends(world.files, files),
    ensures
        is_answer(fields_eval(config, tool, input, cwd, world, fields, j, acc).value)
            ==> fields_eval(
            config,
            tool,
            input,
            cwd,
            (WorldView { files, ..world }),
            fields,
            j,
            acc,
        ) == fields_eval(config, tool, input, cwd, world, fields, j, acc),
    decreases fields.len() - j,
{
    if 0 <= j < fields.len() {
        let ctx = field_ctx(
            tool,
            own_fields(tool, input),
            fields[j],
            field_text(input, fields[j]),
            cwd,
            world.env,
        );
        lemma_extends_table(config, config.entry_table, ctx, Seq::empty(), world, 0, files);
        let one = settled_value(
            table_eval(config, config.entry_table, ctx, Seq::empty(), world, 0).value,
        );
        if one is Ok {
            lemma_extends_fields(
                config,
                tool,
                input,
                cwd,
                world,
                fields,
                j + 1,
                Some(merged(acc, one->Ok_0)),
                files,
            );
        }
    }
}

proof fn lemma_extends_flat(
    rules: Seq<RuleView>,
    ctx: CtxView,
    a: FactsView,
    b: FactsView,
    source: Seq<char>,
    i: int,
)
    requires
        extends(a, b),
    ensures
        is_answer(flat_eval(rules, ctx, a, source, i)) ==> flat_eval(rules, ctx, b, source, i)
            == flat_eval(rules, ctx, a, source, i),
    decreases rules.len() - i,
{
    if 0 <= i < rules.len() {
        lemma_rule_extends(rules[i], ctx, a, b);
        lemma_extends_flat(rules, ctx, a, b, source, i + 1);
    }
}

proof fn lemma_extends_contexts(
    audit: AuditView,
    local: LocalView,
    ctxs: Seq<CtxView>,
    a: FactsView,
    b: FactsView,
    j: int,
    acc: Option<ResultView>,
    hit: bool,
)
    requires
        extends(a, b),
    ensures
        is_answer(contexts_eval(audit, local, ctxs, a, j, acc, hit).value) ==> contexts_eval(
            audit,
            local,
            ctxs,
            b,
            j,
            acc,
            hit,
        ) == contexts_eval(audit, local, ctxs, a, j, acc, hit),
    decreases ctxs.len() - j,
{
    if 0 <= j < ctxs.len() {
        lemma_extends_flat(local.rules, ctxs[j], a, b, local.source_dir, 0);
        match flat_eval(local.rules, ctxs[j], a, local.source_dir, 0) {
            Err(_) => {},
            Ok(None) => {
                let so_far = merged(acc, unmatched(local.source_dir));
                lemma_extends_contexts(audit, local, ctxs, a, b, j + 1, Some(so_far), hit);
            },
            Ok(Some(result)) => {
                lemma_extends_contexts(
                    audit,
                    local,
                    ctxs,
                    a,
                    b,
                    j + 1,
                    Some(merged(acc, result)),
                    true,
                );
            },
        }
    }
}

/// To know more of the file system changes no answer that has been given.
pub proof fn answers_stay(
    config: ConfigView,
    tool: Seq<char>,
    input: Map<Seq<char>, Seq<char>>,
    cwd: Seq<char>,
    local: Option<LocalView>,
    world: WorldView,
    files: FactsView,
)
    requires
        extends(world.files, files),
        is_answer(call_eval_with_local(config, tool, input, cwd, local, world).value),
    ensures
        call_eval_with_local(config, tool, input, cwd, local, (WorldView { files, ..world }))
            == call_eval_with_local(config, tool, input, cwd, local, world),
{
    lemma_extends_commands(
        config,
        tool,
        own_fields(tool, input),
        commands_of(field_text(input, "command"@), cwd, world.home),
        config.entry_table,
        world,
        0,
        0,
        None,
        files,
    );
    lemma_extends_fields(config, tool, input, cwd, world, fields_of(tool), 0, None, files);
    lemma_extends_table(
        config,
        config.entry_table,
        field_ctx(tool, own_fields(tool, input), "tool"@, tool, cwd, world.env),
        Seq::empty(),
        world,
        0,
        files,
    );
    if local is Some {
        lemma_extends_contexts(
            config.audit,
            local->0,
            contexts_of(tool, input, cwd, world),
            world.files,
            files,
            0,
            None,
            false,
        );
        assert(contexts_of(tool, input, cwd, (WorldView { files, ..world })) =~= contexts_of(
            tool,
            input,
            cwd,
            world,
        ));
    }
}

/// The rules of a project are asked only where the configuration allows it and has no
/// opinion: an allowance, a denial and a forced passthrough stand.
pub proof fn local_rules_only_replace_passthrough(
    config: ConfigView,
    tool: Seq<char>,
    input: Map<Seq<char>, Seq<char>>,
    cwd: Seq<char>,
    local: Option<LocalView>,
    world: WorldView,
)
    requires
        ({
            let first = call_eval(config, tool, input, cwd, world).value;
            ||| !config.local_rules
            ||| local is None
            ||| first is Err
            ||| first->Ok_0.decision == Decision::Allow
            ||| first->Ok_0.decision == Decision::Deny
            ||| first->Ok_0.decision == Decision::ForcePassthrough
        }),
    ensures
        call_eval_with_local(config, tool, input, cwd, local, world) == call_eval(
            config,
            tool,
            input,
            cwd,
            world,
        ),
{
}

/// Where the rules of a project are asked, what they decide replaces the passthrough; if
/// none of them matches it stands.
pub proof fn local_rules_replace_passthrough(
    config: ConfigView,
    tool: Seq<char>,
    input: Map<Seq<char>, Seq<char>>,
    cwd: Seq<char>,
    local: LocalView,
    world: WorldView,
)
    requires
        config.local_rules,
        call_eval(config, tool, input, cwd, world).value is Ok,
        call_eval(config, tool, input, cwd, world).value->Ok_0.decision == Decision::Passthrough,
    ensures
        ({
            let both = call_eval_with_local(config, tool, input, cwd, Some(local), world).value;
            match local_eval(config.audit, local, tool, input, cwd, world).value {
                Ok(Some(own)) => both == Ok::<ResultView, ErrorView>(own),
                Ok(None) => both == call_eval(config, tool, input, cwd, world).value,
                Err(e) => both == Err::<ResultView, ErrorView>(e),
            }
        }),
{
}

proof fn lemma_flat_decisions(
    rules: Seq<RuleView>,
    ctx: CtxView,
    files: FactsView,
    source: Seq<char>,
    i: int,
)
    requires
        all_local(rules),
    ensures
        flat_eval(rules, ctx, files, source, i) matches Ok(Some(result)) ==> result.decision
            != Decision::ForcePassthrough && result.source == source,
    decreases rules.len() - i,
{
    if 0 <= i < rules.len() {
        assert(takes_local_action(rules[i]));
        lemma_flat_decisions(rules, ctx, files, source, i + 1);
    }
}

proof fn lemma_local_decisions(
    audit: AuditView,
    local: LocalView,
    ctxs: Seq<CtxView>,
    files: FactsView,
    j: int,
    acc: Option<ResultView>,
    hit: bool,
)
    requires
        all_local(local.rules),
        acc is Some ==> acc->0.decision != Decision::ForcePassthrough && acc->0.source
            == local.source_dir,
    ensures
        contexts_eval(audit, local, ctxs, files, j, acc, hit).value matches Ok(Some(result))
            ==> result.decision != Decision::ForcePassthrough && result.source == local.source_dir,
    decreases ctxs.len() - j,
{
    if 0 <= j < ctxs.len() {
        lemma_flat_decisions(local.rules, ctxs[j], files, local.source_dir, 0);
        match flat_eval(local.rules, ctxs[j], files, local.source_dir, 0) {
            Err(_) => {},
            Ok(None) => {
                let so_far = merged(acc, unmatched(local.source_dir));
                lemma_local_decisions(audit, local, ctxs, files, j + 1, Some(so_far), hit);
            },
            Ok(Some(result)) => {
                lemma_local_decisions(
                    audit,
                    local,
                    ctxs,
                    files,
                    j + 1,
                    Some(merged(acc, result)),
                    true,
                );
            },
        }
    }
}

/// The rules of a project allow, deny or pass through; they force no passthrough. What
/// they decide names the directory that they come from.
pub proof fn local_rules_force_no_passthrough(
    audit: AuditView,
    local: LocalView,
    tool: Seq<char>,
    input: Map<Seq<char>, Seq<char>>,
    cwd: Seq<char>,
    world: WorldView,
)
    requires
        all_local(local.rules),
    ensures
        local_eval(audit, local, tool, input, cwd, world).value matches Ok(Some(result))
            ==> result.decision != Decision::ForcePassthrough && result.source == local.source_dir,
{
    lemma_local_decisions(
        audit,
        local,
        contexts_of(tool, input, cwd, world),
        world.files,
        0,
        None,
        false,
    );
}

/// Whether a rule of a project allows a context.
pub open spec fn allows(local: LocalView, ctx: CtxView, files: FactsView) -> bool {
    flat_eval(local.rules, ctx, files, local.source_dir, 0) matches Ok(Some(result))
        && result.decision == Decision::Allow
}

proof fn lemma_allowed_throughout(
    audit: AuditView,
    local: LocalView,
    ctxs: Seq<CtxView>,
    files: FactsView,
    j: int,
    acc: Option<ResultView>,
    hit: bool,
)
    requires
        0 <= j <= ctxs.len(),
        contexts_eval(audit, local, ctxs, files, j, acc, hit).value matches Ok(Some(result))
            && result.decision == Decision::Allow,
    ensures
        acc is Some ==> acc->0.decision == Decision::Allow,
        forall|i: int| j <= i < ctxs.len() ==> allows(local, #[trigger] ctxs[i], files),
    decreases ctxs.len() - j,
{
    if j < ctxs.len() {
        match flat_eval(local.rules, ctxs[j], files, local.source_dir, 0) {
            Err(_) => {},
            Ok(None) => {
                let so_far = merged(acc, unmatched(local.source_dir));
                lemma_allowed_throughout(audit, local, ctxs, files, j + 1, Some(so_far), hit);
            },
            Ok(Some(result)) => {
                let so_far = merged(acc, result);
                if so_far.decision != Decision::Deny {
                    lemma_allowed_throughout(audit, local, ctxs, files, j + 1, Some(so_far), true);
                }
            },
        }
    }
}

/// The rules of a project allow a tool call only if they allow every command or field of it:
/// one that none of them matches keeps the passthrough.
pub proof fn local_rules_allow_throughout(
    audit: AuditView,
    local: LocalView,
    tool: Seq<char>,
    input: Map<Seq<char>, Seq<char>>,
    cwd: Seq<char>,
    world: WorldView,
)
    requires
        local_eval(audit, local, tool, input, cwd, world).value matches Ok(Some(result))
            && result.decision == Decision::Allow,
    ensures
        forall|i: int|
            0 <= i < contexts_of(tool, input, cwd, world).len() ==> allows(
                local,
                #[trigger] contexts_of(tool, input, cwd, world)[i],
                world.files,
            ),
{
    lemma_allowed_throughout(
        audit,
        local,
        contexts_of(tool, input, cwd, world),
        world.files,
        0,
        None,
        false,
    );
}

} // verus!

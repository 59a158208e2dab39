//! What a rule is matched against, condition by condition.
use vstd::prelude::*;
use crate::config::{Action, RuleView};
use crate::engine_model::{
    behind_positionals, command_ctx, field_ctx, flat_eval, found_above, matches_any, position_of,
    rule_matches, wrapped_command, CtxView, Decision, FactsView, ResultView,
};
use crate::error::ErrorView;
use crate::local::local_dir_above;
use crate::paths::{join_path, parent};
use crate::patterns::{match_result, pattern_error, pattern_matches};
use crate::shell_grammar::{check_text, CommandView};
use crate::text::joined;

verus! {

/// Whether a pattern compiles and matches a text.
pub open spec fn fits(p: Seq<char>, text: Seq<char>) -> bool {
    pattern_error(p) is None && pattern_matches(p, text)
}

/// Whether a pattern compiles and does not match a text.
pub open spec fn misses(p: Seq<char>, text: Seq<char>) -> bool {
    pattern_error(p) is None && !pattern_matches(p, text)
}

/// Whether a pattern compiles and matches one of some texts.
pub open spec fn fits_one(p: Seq<char>, texts: Seq<Seq<char>>) -> bool {
    exists|i: int| 0 <= i < texts.len() && #[trigger] fits(p, texts[i])
}

/// Whether a field is there, and a pattern fits it.
pub open spec fn fits_field(
    p: Seq<char>,
    own: Map<Seq<char>, Seq<char>>,
    field: Seq<char>,
) -> bool {
    own.dom().contains(field) && fits(p, own[field])
}

proof fn lemma_fits_joined(p: Seq<char>, a: Seq<Seq<char>>, b: Seq<Seq<char>>)
    ensures
        fits_one(p, a + b) <==> fits_one(p, a) || fits_one(p, b),
{
    let all = a + b;
    if fits_one(p, a) {
        let i = choose|i: int| 0 <= i < a.len() && #[trigger] fits(p, a[i]);
        assert(all[i] == a[i]);
        assert(fits(p, all[i]));
    }
    if fits_one(p, b) {
        let i = choose|i: int| 0 <= i < b.len() && #[trigger] fits(p, b[i]);
        assert(all[a.len() + i] == b[i]);
        assert(fits(p, all[a.len() + i]));
    }
    if fits_one(p, all) {
        let i = choose|i: int| 0 <= i < all.len() && #[trigger] fits(p, all[i]);
        if i < a.len() {
            assert(fits(p, a[i]));
        } else {
            assert(fits(p, b[i - a.len()]));
        }
    }
}

/// Whether the conditions and exceptions of a rule that are not on fields of the call hold.
spec fn holds_apart(
    rule: RuleView,
    tool: Seq<char>,
    cwd: Seq<char>,
    args: Seq<Seq<char>>,
    redirects_in: Seq<Seq<char>>,
    redirects_out: Seq<Seq<char>>,
    env: Seq<Seq<char>>,
    files: FactsView,
) -> bool {
    &&& rule.tool matches Some(p) ==> fits(p, tool)
    &&& rule.cwd matches Some(p) ==> fits(p, cwd)
    &&& rule.cwd_not matches Some(p) ==> misses(p, cwd)
    &&& rule.arg matches Some(p) ==> fits_one(p, args)
    &&& rule.arg_not matches Some(p) ==> !fits_one(p, args)
    &&& rule.stdin matches Some(p) ==> fits_one(p, redirects_in)
    &&& rule.stdin_not matches Some(p) ==> !fits_one(p, redirects_in)
    &&& rule.stdout matches Some(p) ==> fits_one(p, redirects_out)
    &&& rule.stdout_not matches Some(p) ==> !fits_one(p, redirects_out)
    &&& rule.env matches Some(p) ==> fits_one(p, env)
    &&& rule.env_not matches Some(p) ==> !fits_one(p, env)
    &&& rule.has_file matches Some(path) ==> found_above(files, path, cwd) == Ok::<bool, ErrorView>(
        true,
    )
    &&& rule.has_file_not matches Some(path) ==> found_above(files, path, cwd) == Ok::<
        bool,
        ErrorView,
    >(false)
}

proof fn lemma_holds_apart(rule: RuleView, ctx: CtxView, files: FactsView)
    requires
        rule.command is None,
        rule.file_path is None,
        rule.subagent_type is None,
        rule.prompt is None,
    ensures
        rule_matches(rule, ctx, files) == Ok::<bool, ErrorView>(true) <==> holds_apart(
            rule,
            ctx.tool_name,
            ctx.cwd,
            ctx.args,
            ctx.redirects_in,
            ctx.redirects_out,
            ctx.env_vars,
            files,
        ),
{
    lemma_any(rule.arg, ctx.args);
    lemma_any(rule.arg_not, ctx.args);
    lemma_any(rule.stdin, ctx.redirects_in);
    lemma_any(rule.stdin_not, ctx.redirects_in);
    lemma_any(rule.stdout, ctx.redirects_out);
    lemma_any(rule.stdout_not, ctx.redirects_out);
    lemma_any(rule.env, ctx.env_vars);
    lemma_any(rule.env_not, ctx.env_vars);
}

proof fn lemma_any(p: Option<Seq<char>>, texts: Seq<Seq<char>>)
    ensures
        p is Some ==> (matches_any(p->0, texts) <==> fits_one(p->0, texts)),
{
    if p is Some {
        if matches_any(p->0, texts) {
            let i = choose|i: int|
                0 <= i < texts.len() && match_result(p->0, #[trigger] texts[i])
                    == Ok::<bool, ErrorView>(true);
            assert(fits(p->0, texts[i]));
        }
        if fits_one(p->0, texts) {
            let i = choose|i: int| 0 <= i < texts.len() && #[trigger] fits(p->0, texts[i]);
            assert(match_result(p->0, texts[i]) == Ok::<bool, ErrorView>(true));
        }
    }
}

/// A rule matches a command if and only if each of its conditions holds of the command and
/// none of its exceptions does: the tool, the command text, the directory, one of the
/// arguments (behind a `cd` resolved or as written), one of the targets of `<`, one of the
/// targets of `>` and `>>`, one of the variables of the environment or in front of the
/// command, a path that exists, and the fields of the call.
pub proof fn rules_see_all_of_a_command(
    rule: RuleView,
    tool: Seq<char>,
    own: Map<Seq<char>, Seq<char>>,
    c: CommandView,
    env: Seq<Seq<char>>,
    files: FactsView,
)
    ensures
        rule_matches(rule, command_ctx(tool, own, c, env), files) == Ok::<bool, ErrorView>(true)
            <==> {
            &&& rule.tool matches Some(p) ==> fits(p, tool)
            &&& rule.command matches Some(p) ==> fits(p, check_text(c))
            &&& rule.file_path matches Some(p) ==> fits_field(p, own, "file_path"@)
            &&& rule.subagent_type matches Some(p) ==> fits_field(p, own, "subagent_type"@)
            &&& rule.prompt matches Some(p) ==> fits_field(p, own, "prompt"@)
            &&& rule.cwd matches Some(p) ==> fits(p, c.effective_cwd)
            &&& rule.cwd_not matches Some(p) ==> misses(p, c.effective_cwd)
            &&& rule.arg matches Some(p) ==> fits_one(p, c.args) || c.moved && fits_one(
                p,
                c.written,
            )
            &&& rule.arg_not matches Some(p) ==> !fits_one(p, c.args) && !(c.moved && fits_one(
                p,
                c.written,
            ))
            &&& rule.stdin matches Some(p) ==> fits_one(p, c.redirects_in)
            &&& rule.stdin_not matches Some(p) ==> !fits_one(p, c.redirects_in)
            &&& rule.stdout matches Some(p) ==> fits_one(p, c.redirects_out)
            &&& rule.stdout_not matches Some(p) ==> !fits_one(p, c.redirects_out)
            &&& rule.env matches Some(p) ==> fits_one(p, env) || fits_one(p, c.env_vars)
            &&& rule.env_not matches Some(p) ==> !fits_one(p, env) && !fits_one(p, c.env_vars)
            &&& rule.has_file matches Some(path) ==> found_above(files, path, c.effective_cwd)
                == Ok::<bool, ErrorView>(true)
            &&& rule.has_file_not matches Some(path) ==> found_above(files, path, c.effective_cwd)
                == Ok::<bool, ErrorView>(false)
        },
{
    let ctx = command_ctx(tool, own, c, env);
    let bare = RuleView {
        command: None,
        file_path: None,
        subagent_type: None,
        prompt: None,
        ..rule
    };
    lemma_holds_apart(bare, ctx, files);
    if rule.arg is Some {
        lemma_fits_joined(rule.arg->0, c.args, c.written);
    }
    if rule.arg_not is Some {
        lemma_fits_joined(rule.arg_not->0, c.args, c.written);
    }
    if rule.env is Some {
        lemma_fits_joined(rule.env->0, env, c.env_vars);
    }
    if rule.env_not is Some {
        lemma_fits_joined(rule.env_not->0, env, c.env_vars);
    }
    lemma_field_names();
}

proof fn lemma_field_names()
    ensures
        "command"@ != "file_path"@,
        "command"@ != "subagent_type"@,
        "command"@ != "prompt"@,
        "file_path"@ != "subagent_type"@,
        "file_path"@ != "prompt"@,
        "subagent_type"@ != "prompt"@,
        "tool"@ != "command"@,
        "tool"@ != "file_path"@,
        "tool"@ != "subagent_type"@,
        "tool"@ != "prompt"@,
{
    reveal_strlit("command");
    reveal_strlit("file_path");
    reveal_strlit("subagent_type");
    reveal_strlit("prompt");
    reveal_strlit("tool");
    assert("command"@.len() == 7 && "file_path"@.len() == 9 && "subagent_type"@.len() == 13
        && "prompt"@.len() == 6 && "tool"@.len() == 4);
}

/// A condition of a rule on a field of a call that is checked by `field`: it holds of the
/// text that is checked, or of the field of that name.
pub open spec fn fits_checked(
    p: Seq<char>,
    own: Map<Seq<char>, Seq<char>>,
    field: Seq<char>,
    text: Seq<char>,
    wanted: Seq<char>,
) -> bool {
    if field == wanted {
        fits(p, text)
    } else {
        fits_field(p, own, wanted)
    }
}

/// A rule matches a field of a call of another tool than `Bash` if and only if each of its
/// conditions holds: the tool, the field itself, the other fields of the call, the
/// directory, one of the variables of the environment, and a path that exists. Such a call
/// has no arguments and no redirections.
pub proof fn rules_see_all_of_a_field(
    rule: RuleView,
    tool: Seq<char>,
    own: Map<Seq<char>, Seq<char>>,
    field: Seq<char>,
    text: Seq<char>,
    cwd: Seq<char>,
    env: Seq<Seq<char>>,
    files: FactsView,
)
    ensures
        rule_matches(rule, field_ctx(tool, own, field, text, cwd, env), files) == Ok::<
            bool,
            ErrorView,
        >(true) <==> {
            &&& rule.tool matches Some(p) ==> fits(p, tool)
            &&& rule.command matches Some(p) ==> fits_checked(p, own, field, text, "command"@)
            &&& rule.file_path matches Some(p) ==> fits_checked(p, own, field, text, "file_path"@)
            &&& rule.subagent_type matches Some(p) ==> fits_checked(
                p,
                own,
                field,
                text,
                "subagent_type"@,
            )
            &&& rule.prompt matches Some(p) ==> fits_checked(p, own, field, text, "prompt"@)
            &&& rule.cwd matches Some(p) ==> fits(p, cwd)
            &&& rule.cwd_not matches Some(p) ==> misses(p, cwd)
            &&& rule.arg is None
            &&& rule.stdin is None
            &&& rule.stdout is None
            &&& rule.env matches Some(p) ==> fits_one(p, env)
            &&& rule.env_not matches Some(p) ==> !fits_one(p, env)
            &&& rule.has_file matches Some(path) ==> found_above(files, path, cwd) == Ok::<
                bool,
                ErrorView,
            >(true)
            &&& rule.has_file_not matches Some(path) ==> found_above(files, path, cwd) == Ok::<
                bool,
                ErrorView,
            >(false)
        },
{
    let ctx = field_ctx(tool, own, field, text, cwd, env);
    let bare = RuleView {
        command: None,
        file_path: None,
        subagent_type: None,
        prompt: None,
        ..rule
    };
    lemma_holds_apart(bare, ctx, files);
}

/// Whether a pattern, if there is one, compiles.
pub open spec fn compiles(p: Option<Seq<char>>) -> bool {
    p matches Some(text) ==> pattern_error(text) is None
}

/// A rule whose patterns compile, and whose paths are known, either matches or does not.
pub proof fn compiled_rules_are_decided(rule: RuleView, ctx: CtxView, files: FactsView)
    requires
        compiles(rule.tool),
        compiles(rule.cwd),
        compiles(rule.cwd_not),
        compiles(rule.command),
        compiles(rule.file_path),
        compiles(rule.subagent_type),
        compiles(rule.prompt),
        rule.has_file matches Some(path) ==> found_above(files, path, ctx.cwd) is Ok,
        rule.has_file_not matches Some(path) ==> found_above(files, path, ctx.cwd) is Ok,
    ensures
        rule_matches(rule, ctx, files) is Ok,
{
}

/// Whether directories lead upwards: each is the parent of the one before it.
pub open spec fn leads_up(dirs: Seq<Seq<char>>) -> bool {
    forall|k: int|
        0 <= k && k + 1 < dirs.len() ==> parent(#[trigger] dirs[k]) == Some(dirs[k + 1])
            && dirs[k + 1].len() < dirs[k].len()
}

/// Whether it is known of a path that it is there.
pub open spec fn is_there(files: FactsView, path: Seq<char>) -> bool {
    files.present.dom().contains(path) && files.present[path]
}

/// Whether it is known of a path that it is not there.
pub open spec fn is_missing(files: FactsView, path: Seq<char>) -> bool {
    files.present.dom().contains(path) && !files.present[path]
}

proof fn lemma_search_up(
    files: FactsView,
    path: Seq<char>,
    dirs: Seq<Seq<char>>,
    from: int,
)
    requires
        leads_up(dirs),
        0 <= from < dirs.len(),
        forall|k: int|
            0 <= k < dirs.len() - 1 ==> is_missing(files, join_path(#[trigger] dirs[k], path))
                && is_missing(files, join_path(dirs[k], ".git"@)),
    ensures
        found_above(files, path, dirs[from]) == found_above(files, path, dirs.last()),
    decreases dirs.len() - from,
{
    if from + 1 < dirs.len() {
        assert(parent(dirs[from]) == Some(dirs[from + 1]));
        lemma_search_up(files, path, dirs, from + 1);
    }
}

/// A path is searched for upwards from a directory, as far as the nearest one that holds
/// `.git`: where neither the path nor `.git` is in the directories before the last of
/// `dirs`, the last decides. If the path is in it, it is found. If it is not, and `.git` is,
/// or no directory is above, it is not found, whatever is known of other directories. What
/// is not known is asked for.
pub proof fn searches_end_at_the_git_root(
    files: FactsView,
    path: Seq<char>,
    dirs: Seq<Seq<char>>,
)
    requires
        dirs.len() > 0,
        leads_up(dirs),
        forall|k: int|
            0 <= k < dirs.len() - 1 ==> is_missing(files, join_path(#[trigger] dirs[k], path))
                && is_missing(files, join_path(dirs[k], ".git"@)),
    ensures
        is_there(files, join_path(dirs.last(), path)) ==> found_above(files, path, dirs[0])
            == Ok::<bool, ErrorView>(true),
        is_missing(files, join_path(dirs.last(), path)) && is_there(
            files,
            join_path(dirs.last(), ".git"@),
        ) ==> found_above(files, path, dirs[0]) == Ok::<bool, ErrorView>(false),
        is_missing(files, join_path(dirs.last(), path)) && is_missing(
            files,
            join_path(dirs.last(), ".git"@),
        ) && parent(dirs.last()) is None ==> found_above(files, path, dirs[0]) == Ok::<
            bool,
            ErrorView,
        >(false),
        !files.present.dom().contains(join_path(dirs.last(), path)) ==> found_above(
            files,
            path,
            dirs[0],
        ) == Err::<bool, ErrorView>(
            ErrorView::Unprobed { path: join_path(dirs.last(), path), directory: false },
        ),
        is_missing(files, join_path(dirs.last(), path)) && !files.present.dom().contains(
            join_path(dirs.last(), ".git"@),
        ) ==> found_above(files, path, dirs[0]) == Err::<bool, ErrorView>(
            ErrorView::Unprobed { path: join_path(dirs.last(), ".git"@), directory: false },
        ),
{
    lemma_search_up(files, path, dirs, 0);
}

proof fn lemma_discover_up(files: FactsView, dirs: Seq<Seq<char>>, from: int)
    requires
        leads_up(dirs),
        0 <= from < dirs.len(),
        forall|k: int|
            0 <= k < dirs.len() - 1 ==> {
                &&& files.directory.dom().contains(join_path(#[trigger] dirs[k], ".permiter"@))
                &&& !files.directory[join_path(dirs[k], ".permiter"@)]
                &&& is_missing(files, join_path(dirs[k], ".git"@))
            },
    ensures
        local_dir_above(files, dirs[from]) == local_dir_above(files, dirs.last()),
    decreases dirs.len() - from,
{
    if from + 1 < dirs.len() {
        assert(parent(dirs[from]) == Some(dirs[from + 1]));
        lemma_discover_up(files, dirs, from + 1);
    }
}

/// The project directory is searched for in the same way: where the directories before the
/// last of `dirs` hold neither a directory `.permiter` nor `.git`, the last decides. If it
/// holds the directory `.permiter`, that is the one, even beside `.git`. If it does not, and
/// holds `.git` or has no directory above it, there is none.
pub proof fn project_rules_are_those_of_the_git_root(files: FactsView, dirs: Seq<Seq<char>>)
    requires
        dirs.len() > 0,
        leads_up(dirs),
        forall|k: int|
            0 <= k < dirs.len() - 1 ==> {
                &&& files.directory.dom().contains(join_path(#[trigger] dirs[k], ".permiter"@))
                &&& !files.directory[join_path(dirs[k], ".permiter"@)]
                &&& is_missing(files, join_path(dirs[k], ".git"@))
            },
        files.directory.dom().contains(join_path(dirs.last(), ".permiter"@)),
    ensures
        files.directory[join_path(dirs.last(), ".permiter"@)] ==> local_dir_above(files, dirs[0])
            == Ok::<Option<Seq<char>>, ErrorView>(Some(join_path(dirs.last(), ".permiter"@))),
        !files.directory[join_path(dirs.last(), ".permiter"@)] && is_there(
            files,
            join_path(dirs.last(), ".git"@),
        ) ==> local_dir_above(files, dirs[0]) == Ok::<Option<Seq<char>>, ErrorView>(None),
        !files.directory[join_path(dirs.last(), ".permiter"@)] && is_missing(
            files,
            join_path(dirs.last(), ".git"@),
        ) && parent(dirs.last()) is None ==> local_dir_above(files, dirs[0]) == Ok::<
            Option<Seq<char>>,
            ErrorView,
        >(None),
{
    lemma_discover_up(files, dirs, 0);
}

/// Whether an argument is no flag and does not end the flags.
pub open spec fn is_positional(arg: Seq<char>) -> bool {
    arg != "--"@ && (arg.len() < 2 || arg[0] != '-')
}

proof fn lemma_positionals_skipped(
    args: Seq<Seq<char>>,
    opts: Seq<Seq<char>>,
    n: nat,
    i: int,
    ended: bool,
)
    requires
        0 <= i <= args.len(),
        ended || forall|k: int| i <= k < args.len() ==> is_positional(#[trigger] args[k]),
    ensures
        behind_positionals(args, opts, n, i, ended) == if i + n < args.len() {
            Some(joined(args.skip(i + n), " "@))
        } else {
            None
        },
    decreases args.len() - i,
{
    if i < args.len() {
        assert(ended || is_positional(args[i]));
        if n > 0 {
            lemma_positionals_skipped(args, opts, (n - 1) as nat, i + 1, ended);
        }
    }
}

/// Of arguments none of which is a flag, a rule that skips `n` finds the command line that
/// the others are, with a space between each two; if there are no others it finds none.
pub proof fn positional_arguments_are_skipped(rule: RuleView, args: Seq<Seq<char>>)
    requires
        rule.flag_arg is None,
        forall|k: int| 0 <= k < args.len() ==> is_positional(#[trigger] args[k]),
    ensures
        ({
            let n = match rule.positional {
                Some(n) => n as int,
                None => 0,
            };
            &&& n >= args.len() ==> wrapped_command(rule, args) is None
            &&& n < args.len() && joined(args.skip(n), " "@).len() > 0 ==> wrapped_command(
                rule,
                args,
            ) == Some(joined(args.skip(n), " "@))
        }),
{
    let n = match rule.positional {
        Some(n) => n as nat,
        None => 0,
    };
    lemma_positionals_skipped(args, rule.opts_with_args, n, 0, false);
}

/// Behind `--` nothing is a flag: the `n` arguments behind it are skipped, and the others are
/// the command line.
pub proof fn a_double_dash_ends_the_flags(rule: RuleView, rest: Seq<Seq<char>>)
    requires
        rule.flag_arg is None,
    ensures
        ({
            let args = seq!["--"@] + rest;
            let n = match rule.positional {
                Some(n) => n as int,
                None => 0,
            };
            &&& n >= rest.len() ==> wrapped_command(rule, args) is None
            &&& n < rest.len() && joined(rest.skip(n), " "@).len() > 0 ==> wrapped_command(
                rule,
                args,
            ) == Some(joined(rest.skip(n), " "@))
        }),
{
    let args = seq!["--"@] + rest;
    let n = match rule.positional {
        Some(n) => n as nat,
        None => 0,
    };
    lemma_positionals_skipped(args, rule.opts_with_args, n, 1, true);
    assert(args[0] == "--"@);
    if n < rest.len() {
        assert(args.skip(1 + n as int) =~= rest.skip(n as int));
    }
}

proof fn lemma_positionals_shift(
    front: Seq<Seq<char>>,
    rest: Seq<Seq<char>>,
    opts: Seq<Seq<char>>,
    n: nat,
    i: int,
    ended: bool,
)
    requires
        0 <= i,
    ensures
        behind_positionals(front + rest, opts, n, front.len() + i, ended) == behind_positionals(
            rest,
            opts,
            n,
            i,
            ended,
        ),
    decreases rest.len() + 1 - i,
{
    let all = front + rest;
    let k = front.len() as int;
    if i < rest.len() {
        assert(all[k + i] == rest[i]);
        assert(all.skip(k + i) =~= rest.skip(i));
        lemma_positionals_shift(front, rest, opts, n, i + 1, true);
        lemma_positionals_shift(front, rest, opts, n, i + 1, ended);
        lemma_positionals_shift(front, rest, opts, n, i + 2, ended);
        if n > 0 {
            lemma_positionals_shift(front, rest, opts, (n - 1) as nat, i + 1, ended);
        }
    }
}

/// A flag in front of the wrapped command is passed over; one that takes an argument is
/// passed over with it, and so is a positional argument that is to be skipped.
pub proof fn flags_are_passed_over(
    rule: RuleView,
    flag: Seq<char>,
    value: Seq<char>,
    rest: Seq<Seq<char>>,
)
    requires
        rule.flag_arg is None,
        flag.len() > 1,
        flag[0] == '-',
        flag != "--"@,
    ensures
        !rule.opts_with_args.contains(flag) ==> wrapped_command(rule, seq![flag] + rest)
            == wrapped_command(rule, rest),
        rule.opts_with_args.contains(flag) ==> wrapped_command(rule, seq![flag, value] + rest)
            == wrapped_command(rule, rest),
        rule.opts_with_args.contains(flag) ==> wrapped_command(rule, seq![flag]) is None,
        is_positional(value) && rule.positional is Some && rule.positional->0 > 0
            ==> wrapped_command(rule, seq![value] + rest) == wrapped_command(
            RuleView { positional: Some((rule.positional->0 - 1) as usize), ..rule },
            rest,
        ),
{
    let n = match rule.positional {
        Some(n) => n as nat,
        None => 0,
    };
    let opts = rule.opts_with_args;
    assert((seq![flag] + rest)[0] == flag);
    assert((seq![flag, value] + rest)[0] == flag);
    assert((seq![value] + rest)[0] == value);
    lemma_positionals_shift(seq![flag], rest, opts, n, 0, false);
    lemma_positionals_shift(seq![flag, value], rest, opts, n, 0, false);
    if n > 0 {
        lemma_positionals_shift(seq![value], rest, opts, (n - 1) as nat, 0, false);
    }
    assert(seq![flag].len() == 1 && seq![flag, value].len() == 2);
    assert(behind_positionals(seq![flag], opts, n, 2, false) is None);
}

proof fn lemma_position(args: Seq<Seq<char>>, flag: Seq<char>, from: int, i: int)
    requires
        0 <= from <= i < args.len(),
        args[i] == flag,
        forall|k: int| from <= k < i ==> #[trigger] args[k] != flag,
    ensures
        position_of(args, flag, from) == Some(i),
    decreases i - from,
{
    if from < i {
        lemma_position(args, flag, from + 1, i);
    }
}

proof fn lemma_no_position(args: Seq<Seq<char>>, flag: Seq<char>, from: int)
    requires
        0 <= from,
        forall|k: int| from <= k < args.len() ==> #[trigger] args[k] != flag,
    ensures
        position_of(args, flag, from) is None,
    decreases args.len() - from,
{
    if from < args.len() {
        lemma_no_position(args, flag, from + 1);
    }
}

/// A rule that looks for a flag finds the command line in the argument right behind the
/// first occurrence of the flag. Without the flag, or with nothing behind it, it finds none.
pub proof fn the_argument_of_a_flag_is_found(rule: RuleView, args: Seq<Seq<char>>, i: int)
    requires
        rule.flag_arg is Some,
    ensures
        0 <= i && i + 1 < args.len() && args[i] == rule.flag_arg->0 && args[i + 1].len() > 0 && (
        forall|k: int| 0 <= k < i ==> #[trigger] args[k] != rule.flag_arg->0) ==> wrapped_command(
            rule,
            args,
        ) == Some(args[i + 1]),
        i + 1 == args.len() && (forall|k: int|
            0 <= k < i ==> #[trigger] args[k] != rule.flag_arg->0) ==> wrapped_command(
            rule,
            args,
        ) is None,
        !args.contains(rule.flag_arg->0) ==> wrapped_command(rule, args) is None,
        0 <= i && i + 1 < args.len() && args[i] == rule.flag_arg->0 && args[i + 1].len() == 0 && (
        forall|k: int| 0 <= k < i ==> #[trigger] args[k] != rule.flag_arg->0) ==> wrapped_command(
            rule,
            args,
        ) is None,
{
    let flag = rule.flag_arg->0;
    if 0 <= i < args.len() && (forall|k: int| 0 <= k < i ==> #[trigger] args[k] != flag) {
        if args[i] == flag {
            lemma_position(args, flag, 0, i);
        } else if i + 1 == args.len() {
            assert forall|k: int| 0 <= k < args.len() implies #[trigger] args[k] != flag by {}
            lemma_no_position(args, flag, 0);
        }
    }
    if !args.contains(flag) {
        assert forall|k: int| 0 <= k < args.len() implies #[trigger] args[k] != flag by {
            assert(args.contains(args[k]));
        }
        lemma_no_position(args, flag, 0);
    }
}

proof fn lemma_flat_from(
    rules: Seq<RuleView>,
    ctx: CtxView,
    files: FactsView,
    source: Seq<char>,
    from: int,
    k: int,
)
    requires
        0 <= from <= k <= rules.len(),
        forall|i: int|
            0 <= i < k ==> rule_matches(#[trigger] rules[i], ctx, files) == Ok::<bool, ErrorView>(
                false,
            ),
    ensures
        flat_eval(rules, ctx, files, source, from) == flat_eval(rules, ctx, files, source, k),
    decreases k - from,
{
    if from < k {
        assert(rule_matches(rules[from], ctx, files) == Ok::<bool, ErrorView>(false));
        lemma_flat_from(rules, ctx, files, source, from + 1, k);
    }
}

/// The first rule of a project that matches decides, whether it allows, denies or passes
/// through: the result has its reason and its number, and names the project's directory.
/// Where none matches nothing is decided.
pub proof fn the_first_project_rule_that_matches_decides(
    rules: Seq<RuleView>,
    k: int,
    ctx: CtxView,
    files: FactsView,
    source: Seq<char>,
)
    requires
        0 <= k <= rules.len(),
        forall|i: int|
            0 <= i < k ==> rule_matches(#[trigger] rules[i], ctx, files) == Ok::<bool, ErrorView>(
                false,
            ),
    ensures
        k < rules.len() && rule_matches(rules[k], ctx, files) == Ok::<bool, ErrorView>(true) ==> {
            let result = ResultView {
                decision: Decision::Allow,
                reason: rules[k].reason,
                table: None,
                rule_index: Some(k as usize),
                source,
            };
            let decided = flat_eval(rules, ctx, files, source, 0);
            &&& rules[k].action == Action::Allow ==> decided == Ok::<Option<ResultView>, ErrorView>(
                Some(result),
            )
            &&& rules[k].action == Action::Deny ==> decided == Ok::<Option<ResultView>, ErrorView>(
                Some(ResultView { decision: Decision::Deny, ..result }),
            )
            &&& rules[k].action == Action::Passthrough ==> decided == Ok::<
                Option<ResultView>,
                ErrorView,
            >(Some(ResultView { decision: Decision::Passthrough, ..result }))
        },
        k < rules.len() ==> (rule_matches(rules[k], ctx, files) matches Err(e) ==> flat_eval(
            rules,
            ctx,
            files,
            source,
            0,
        ) == Err::<Option<ResultView>, ErrorView>(e)),
        k == rules.len() ==> flat_eval(rules, ctx, files, source, 0) == Ok::<
            Option<ResultView>,
            ErrorView,
        >(None),
{
    lemma_flat_from(rules, ctx, files, source, 0, k);
}

/// A condition that cannot be decided is not taken to fail: where all other conditions of a
/// rule hold, and whether a path exists is not known, or a pattern on the tool, the
/// directory or a field of the call does not compile, the rule is an error.
pub proof fn what_is_not_known_is_not_taken_to_fail(
    rule: RuleView,
    ctx: CtxView,
    files: FactsView,
    e: ErrorView,
    p: Seq<char>,
    detail: Seq<char>,
)
    requires
        pattern_error(p) == Some(detail),
    ensures
        rule_matches(RuleView { has_file: None, ..rule }, ctx, files) == Ok::<bool, ErrorView>(true)
            && rule.has_file is Some && found_above(files, rule.has_file->0, ctx.cwd) == Err::<
            bool,
            ErrorView,
        >(e) ==> rule_matches(rule, ctx, files) == Err::<bool, ErrorView>(e),
        rule_matches(RuleView { has_file_not: None, ..rule }, ctx, files) == Ok::<bool, ErrorView>(
            true,
        ) && rule.has_file_not is Some && found_above(files, rule.has_file_not->0, ctx.cwd)
            == Err::<bool, ErrorView>(e) ==> rule_matches(rule, ctx, files) == Err::<
            bool,
            ErrorView,
        >(e),
        rule_matches(RuleView { tool: None, ..rule }, ctx, files) == Ok::<bool, ErrorView>(true)
            && rule.tool == Some(p) ==> rule_matches(rule, ctx, files) == Err::<bool, ErrorView>(
            ErrorView::InvalidRegex { pattern: p, detail },
        ),
        rule_matches(RuleView { cwd: None, ..rule }, ctx, files) == Ok::<bool, ErrorView>(true)
            && rule.cwd == Some(p) ==> rule_matches(rule, ctx, files) == Err::<bool, ErrorView>(
            ErrorView::InvalidRegex { pattern: p, detail },
        ),
        rule_matches(RuleView { cwd_not: None, ..rule }, ctx, files) == Ok::<bool, ErrorView>(true)
            && rule.cwd_not == Some(p) ==> rule_matches(rule, ctx, files) == Err::<bool, ErrorView>(
            ErrorView::InvalidRegex { pattern: p, detail },
        ),
        rule_matches(RuleView { command: None, ..rule }, ctx, files) == Ok::<bool, ErrorView>(true)
            && rule.command == Some(p) && ctx.field_name == "command"@ ==> rule_matches(
            rule,
            ctx,
            files,
        ) == Err::<bool, ErrorView>(ErrorView::InvalidRegex { pattern: p, detail }),
        rule_matches(RuleView { file_path: None, ..rule }, ctx, files) == Ok::<bool, ErrorView>(
            true,
        ) && rule.file_path == Some(p) && ctx.field_name == "file_path"@ ==> rule_matches(
            rule,
            ctx,
            files,
        ) == Err::<bool, ErrorView>(ErrorView::InvalidRegex { pattern: p, detail }),
{
}

} // verus!

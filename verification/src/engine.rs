//! Evaluation of a tool call against the rules.
use vstd::prelude::*;
use crate::config::{
    constant_map, rule_views, Action, AuditConfig, AuditLevel, AuditView, Config, RuleConfig,
    TableConfig,
};
use crate::engine_model::{
    audited, bash_eval, behind_flag, behind_positionals, call_eval, call_eval_with_local,
    call_field, command_ctx, commands_eval, contexts_eval, contexts_of, decision_of, default_result,
    denied_by, field_condition, field_ctx, field_text, field_wanted, fields_eval, fields_of,
    flat_eval, found_above, is_flag, lemma_unvisited_drops, lemma_unvisited_push, local_eval,
    matches_any, merged, no_opinion, none_wanted, other_eval, own_fields, position_of, record_of,
    rule_matches, rule_result, rules_eval, seen_args, settled_value, some_wanted, stricter,
    table_eval, unmatched, unvisited, unwanted, wanted, wrapped_command, CtxView, FactsView,
    LocalView, MAX_WRAPPER_DEPTH, RecordView, ResultView, WorldView,
};
use crate::error::{outcome, Error, ErrorView};
use crate::local::LocalRuleSet;
use crate::paths::{join, parent_of};
use crate::patterns::{match_result, RegexCache};
use crate::shell_parser::{command_views, parse_commands, parse_commands_at, ParsedCommand};
use crate::strmap::{key_from, lemma_key_from, lemma_map_lookup, StrMap};
use crate::text::{
    chars_of, copy_opt, copy_strings, decimal_of, join_from, lemma_texts_push, opt_text, str_eq,
    texts,
};
use crate::world::{FileFacts, World};
pub use crate::engine_model::Decision;

verus! {

impl Decision {
    /// The stricter of two decisions: deny, then force passthrough, then passthrough,
    /// then allow.
    pub fn merge(self, other: Decision) -> (r: Decision)
        ensures
            r == stricter(self, other),
    {
        match (self, other) {
            (Decision::Deny, _) | (_, Decision::Deny) => Decision::Deny,
            (Decision::ForcePassthrough, _)
            | (_, Decision::ForcePassthrough) => Decision::ForcePassthrough,
            (Decision::Passthrough, _) | (_, Decision::Passthrough) => Decision::Passthrough,
            _ => Decision::Allow,
        }
    }
}

/// The fields of a tool call that hold text.
pub struct ToolInput {
    pub fields: StrMap<String>,
}

impl View for ToolInput {
    type V = Map<Seq<char>, Seq<char>>;

    open spec fn view(&self) -> Map<Seq<char>, Seq<char>> {
        constant_map(self.fields)
    }
}

impl ToolInput {
    /// The text of a field; empty if there is none.
    pub fn text(&self, field: &str) -> (r: &str)
        ensures
            r@ == field_text(self@, field@),
    {
        proof {
            lemma_map_lookup(self.fields@, |s: String| s@, field@);
            reveal_strlit("");
        }
        match self.fields.get(field) {
            Some(text) => text.as_str(),
            None => {
                assert(""@ =~= Seq::<char>::empty());
                ""
            },
        }
    }
}

/// What a rule is matched against.
pub struct EvalContext<'a> {
    pub tool_name: &'a str,
    pub tool_input: &'a ToolInput,
    pub check_string: &'a str,
    pub field_name: &'a str,
    pub cwd: &'a str,
    /// Whether a `cd` led to that directory (`Bash`; never for other tools).
    pub moved: bool,
    /// The arguments of the command, and behind a `cd` also the arguments as written (`Bash`;
    /// none for other tools).
    pub args: &'a [String],
    /// The arguments of the command as written (`Bash`; none for other tools).
    pub written: &'a [String],
    /// Targets of `<` redirections (`Bash`; none for other tools).
    pub redirects_in: &'a [String],
    /// Targets of `>` and `>>` redirections (`Bash`; none for other tools).
    pub redirects_out: &'a [String],
    /// Environment variables as `VAR=value`: those of the environment, and for `Bash`
    /// also those in front of the command.
    pub env_vars: &'a [String],
}

impl<'a> View for EvalContext<'a> {
    type V = CtxView;

    open spec fn view(&self) -> CtxView {
        CtxView {
            tool_name: self.tool_name@,
            check_string: self.check_string@,
            field_name: self.field_name@,
            fields: own_fields(self.tool_name@, self.tool_input@),
            cwd: self.cwd@,
            moved: self.moved,
            args: texts(self.args@),
            written: texts(self.written@),
            redirects_in: texts(self.redirects_in@),
            redirects_out: texts(self.redirects_out@),
            env_vars: texts(self.env_vars@),
        }
    }
}

#[derive(Debug)]
pub struct EvalResult {
    pub decision: Decision,
    pub reason: Option<String>,
    /// The table that decided.
    pub table: Option<String>,
    /// The rule that decided.
    pub rule_index: Option<usize>,
    /// `global`, or the directory that the project's rules come from.
    pub source: String,
}

impl View for EvalResult {
    type V = ResultView;

    open spec fn view(&self) -> ResultView {
        ResultView {
            decision: self.decision,
            reason: opt_text(self.reason),
            table: opt_text(self.table),
            rule_index: self.rule_index,
            source: self.source@,
        }
    }
}

impl Clone for EvalResult {
    fn clone(&self) -> (r: EvalResult)
        ensures
            r@ == self@,
    {
        EvalResult {
            decision: self.decision,
            reason: copy_opt(&self.reason),
            table: copy_opt(&self.table),
            rule_index: self.rule_index,
            source: self.source.clone(),
        }
    }
}

/// An entry of the audit log, but for the time.
#[derive(Debug)]
pub struct AuditRecord {
    pub tool: String,
    pub field: String,
    pub check_string: String,
    pub cwd: String,
    pub result: EvalResult,
}

impl View for AuditRecord {
    type V = RecordView;

    open spec fn view(&self) -> RecordView {
        RecordView {
            tool: self.tool@,
            field: self.field@,
            check_string: self.check_string@,
            cwd: self.cwd@,
            result: self.result@,
        }
    }
}

/// The entries of a vector, in mathematical form.
pub open spec fn record_views(v: Seq<AuditRecord>) -> Seq<RecordView> {
    Seq::new(v.len(), |i: int| v[i]@)
}

/// Whether a relative path exists in `start_dir`, or in a directory above it up to the
/// nearest one that holds `.git`.
fn has_file_exists(relative_path: &str, start_dir: &str, files: &FileFacts) -> (r: Result<
    bool,
    Error,
>)
    ensures
        outcome(r) == found_above(files@, relative_path@, start_dir@),
{
    let mut dir = start_dir.to_owned();
    loop
        invariant
            found_above(files@, relative_path@, dir@) == found_above(
                files@,
                relative_path@,
                start_dir@,
            ),
        decreases dir@.len(),
    {
        match files.is_present(&join(&dir, relative_path)) {
            Ok(false) => {},
            other => {
                return other;
            },
        }
        match files.is_present(&join(&dir, ".git")) {
            Ok(false) => {},
            Ok(true) => {
                return Ok(false);
            },
            Err(e) => {
                return Err(e);
            },
        }
        match parent_of(&dir) {
            Some(up) => {
                dir = up;
            },
            None => {
                return Ok(false);
            },
        }
    }
}

fn check_text_matches(pattern: &Option<String>, text: &str, cache: &RegexCache) -> (r: Result<
    bool,
    Error,
>)
    ensures
        outcome(r) == wanted(opt_text(*pattern), text@),
{
    match pattern {
        Some(p) => cache.matches(p, text),
        None => Ok(true),
    }
}

fn check_text_differs(pattern: &Option<String>, text: &str, cache: &RegexCache) -> (r: Result<
    bool,
    Error,
>)
    ensures
        outcome(r) == unwanted(opt_text(*pattern), text@),
{
    match pattern {
        Some(p) => match cache.matches(p, text) {
            Ok(b) => Ok(!b),
            Err(e) => Err(e),
        },
        None => Ok(true),
    }
}

fn any_matches(pattern: &str, items: &[String], cache: &RegexCache) -> (r: bool)
    ensures
        r == matches_any(pattern@, texts(items@)),
{
    let mut i: usize = 0;
    while i < items.len()
        invariant
            i <= items@.len(),
            forall|k: int|
                0 <= k < i ==> match_result(pattern@, #[trigger] texts(items@)[k]) != Ok::<
                    bool,
                    ErrorView,
                >(true),
        decreases items@.len() - i,
    {
        assert(texts(items@)[i as int] == items@[i as int]@);
        if let Ok(true) = cache.matches(pattern, &items[i]) {
            return true;
        }
        i = i + 1;
    }
    false
}

fn check_some(pattern: &Option<String>, items: &[String], cache: &RegexCache) -> (r: bool)
    ensures
        some_wanted(opt_text(*pattern), texts(items@)) == Ok::<bool, ErrorView>(r),
{
    match pattern {
        Some(p) => any_matches(p, items, cache),
        None => true,
    }
}

fn check_none(pattern: &Option<String>, items: &[String], cache: &RegexCache) -> (r: bool)
    ensures
        none_wanted(opt_text(*pattern), texts(items@)) == Ok::<bool, ErrorView>(r),
{
    match pattern {
        Some(p) => !any_matches(p, items, cache),
        None => true,
    }
}

/// What a condition on a field is matched against, if calls of the tool have that field.
fn field_of_call<'a>(ctx: &EvalContext<'a>, field: &str) -> (r: Option<&'a str>)
    ensures
        match r {
            Some(text) => call_field(ctx@, field@) == Some(text@),
            None => call_field(ctx@, field@) is None,
        },
{
    if str_eq(ctx.field_name, field) {
        return Some(ctx.check_string);
    }
    let own = matchable_fields(ctx.tool_name);
    let mut i: usize = 0;
    while i < own.len()
        invariant
            i <= own@.len(),
            own@.len() == fields_of(ctx@.tool_name).len(),
            forall|k: int|
                0 <= k < own@.len() ==> (#[trigger] own@[k])@ == fields_of(ctx@.tool_name)[k],
            forall|k: int| 0 <= k < i ==> fields_of(ctx@.tool_name)[k] != field@,
            ctx@.field_name != field@,
        decreases own@.len() - i,
    {
        if str_eq(own[i], field) {
            assert(fields_of(ctx@.tool_name)[i as int] == field@);
            assert(fields_of(ctx@.tool_name).contains(field@));
            return Some(ctx.tool_input.text(field));
        }
        i = i + 1;
    }
    assert(!fields_of(ctx@.tool_name).contains(field@));
    None
}

fn check_field_condition(
    pattern: &Option<String>,
    ctx: &EvalContext,
    field: &str,
    cache: &RegexCache,
) -> (r: Result<bool, Error>)
    ensures
        outcome(r) == field_condition(opt_text(*pattern), ctx@, field@),
{
    match pattern {
        Some(p) => match field_of_call(ctx, field) {
            Some(text) => cache.matches(p, text),
            None => Ok(false),
        },
        None => Ok(true),
    }
}

fn check_field(rule: &RuleConfig, ctx: &EvalContext, cache: &RegexCache) -> (r: Result<bool, Error>)
    ensures
        outcome(r) == field_wanted(rule@, ctx@),
{
    match check_field_condition(&rule.command, ctx, "command", cache) {
        Ok(true) => {},
        other => {
            return other;
        },
    }
    match check_field_condition(&rule.file_path, ctx, "file_path", cache) {
        Ok(true) => {},
        other => {
            return other;
        },
    }
    match check_field_condition(&rule.subagent_type, ctx, "subagent_type", cache) {
        Ok(true) => {},
        other => {
            return other;
        },
    }
    check_field_condition(&rule.prompt, ctx, "prompt", cache)
}

/// Whether all conditions of a rule hold.
fn matches_rule(rule: &RuleConfig, ctx: &EvalContext, cache: &RegexCache, files: &FileFacts) -> (r:
    Result<bool, Error>)
    ensures
        outcome(r) == rule_matches(rule@, ctx@, files@),
{
    match check_text_matches(&rule.tool, ctx.tool_name, cache) {
        Ok(true) => {},
        other => {
            return other;
        },
    }
    match check_text_matches(&rule.cwd, ctx.cwd, cache) {
        Ok(true) => {},
        other => {
            return other;
        },
    }
    match check_text_differs(&rule.cwd_not, ctx.cwd, cache) {
        Ok(true) => {},
        other => {
            return other;
        },
    }
    if !check_some(&rule.arg, ctx.args, cache) || !check_none(&rule.arg_not, ctx.args, cache) {
        return Ok(false);
    }
    if !check_some(&rule.stdin, ctx.redirects_in, cache) || !check_none(
        &rule.stdin_not,
        ctx.redirects_in,
        cache,
    ) {
        return Ok(false);
    }
    if !check_some(&rule.stdout, ctx.redirects_out, cache) || !check_none(
        &rule.stdout_not,
        ctx.redirects_out,
        cache,
    ) {
        return Ok(false);
    }
    if !check_some(&rule.env, ctx.env_vars, cache) || !check_none(
        &rule.env_not,
        ctx.env_vars,
        cache,
    ) {
        return Ok(false);
    }
    if let Some(path) = &rule.has_file {
        match has_file_exists(path, ctx.cwd, files) {
            Ok(true) => {},
            other => {
                return other;
            },
        }
    }
    if let Some(path) = &rule.has_file_not {
        match has_file_exists(path, ctx.cwd, files) {
            Ok(false) => {},
            Ok(true) => {
                return Ok(false);
            },
            Err(e) => {
                return Err(e);
            },
        }
    }
    check_field(rule, ctx, cache)
}

/// The command line that a wrapper command runs, as a rule finds it: behind a flag, or
/// behind flags and positional arguments.
fn extract_subcommand_from_rule(rule: &RuleConfig, ctx: &EvalContext) -> (r: Option<String>)
    ensures
        opt_text(r) == wrapped_command(rule@, ctx@.written),
{
    let found = match &rule.flag_arg {
        Some(flag) => extract_flag_subcommand(ctx.written, flag),
        None => {
            let skip_count = match rule.positional {
                Some(n) => n,
                None => 0,
            };
            extract_positional_subcommand(ctx.written, &rule.opts_with_args, skip_count)
        },
    };
    match found {
        Some(text) => if text.as_str().is_empty() {
            None
        } else {
            Some(text)
        },
        None => None,
    }
}

fn extract_flag_subcommand(args: &[String], flag: &str) -> (r: Option<String>)
    ensures
        opt_text(r) == behind_flag(texts(args@), flag@),
{
    let mut i: usize = 0;
    while i < args.len()
        invariant
            i <= args@.len(),
            position_of(texts(args@), flag@, i as int) == position_of(texts(args@), flag@, 0),
        decreases args@.len() - i,
    {
        assert(texts(args@)[i as int] == args@[i as int]@);
        if str_eq(&args[i], flag) {
            if i + 1 < args.len() {
                assert(texts(args@)[i + 1] == args@[i + 1]@);
                return Some(args[i + 1].clone());
            } else {
                return None;
            }
        }
        i = i + 1;
    }
    None
}

fn contains_text(items: &[String], text: &str) -> (r: bool)
    ensures
        r == texts(items@).contains(text@),
{
    let mut i: usize = 0;
    while i < items.len()
        invariant
            i <= items@.len(),
            forall|k: int| 0 <= k < i ==> #[trigger] texts(items@)[k] != text@,
        decreases items@.len() - i,
    {
        assert(texts(items@)[i as int] == items@[i as int]@);
        if str_eq(&items[i], text) {
            return true;
        }
        i = i + 1;
    }
    false
}

fn looks_like_flag(arg: &str) -> (r: bool)
    ensures
        r == is_flag(arg@),
{
    let cs = chars_of(arg);
    cs.len() > 1 && cs[0] == '-'
}

/// The arguments behind flags and `skip_count` positional arguments, as a command line.
fn extract_positional_subcommand(
    args: &[String],
    opts_with_args: &[String],
    skip_count: usize,
) -> (r: Option<String>)
    ensures
        opt_text(r) == behind_positionals(
            texts(args@),
            texts(opts_with_args@),
            skip_count as nat,
            0,
            false,
        ),
{
    let ghost all = texts(args@);
    let ghost opts = texts(opts_with_args@);
    let mut options_ended = false;
    let mut left: usize = skip_count;
    let mut i: usize = 0;
    while i < args.len()
        invariant
            all == texts(args@),
            opts == texts(opts_with_args@),
            behind_positionals(all, opts, left as nat, i as int, options_ended)
                == behind_positionals(all, opts, skip_count as nat, 0, false),
        decreases args@.len() + 1 - i,
    {
        let arg = &args[i];
        assert(all[i as int] == arg@);
        if !options_ended && str_eq(arg, "--") {
            options_ended = true;
            i = i + 1;
        } else if !options_ended && looks_like_flag(arg) {
            if contains_text(opts_with_args, arg) {
                if i + 1 >= args.len() {
                    assert(behind_positionals(all, opts, left as nat, i + 2, false) is None);
                    return None;
                }
                i = i + 2;
            } else {
                i = i + 1;
            }
        } else if left > 0 {
            left = left - 1;
            i = i + 1;
        } else {
            assert(texts(args@.skip(i as int)) =~= all.skip(i as int));
            return Some(join_from(args, i, " "));
        }
    }
    None
}

/// Takes two results together: the stricter one, the later one if they are equally
/// strict.
fn merge_results(acc: Option<EvalResult>, new: EvalResult) -> (r: EvalResult)
    ensures
        r@ == merged(
            match acc {
                Some(a) => Some(a@),
                None => None,
            },
            new@,
        ),
{
    let acc = match acc {
        None => {
            return new;
        },
        Some(a) => a,
    };
    let merged_decision = acc.decision.merge(new.decision);
    if merged_decision == new.decision {
        new
    } else {
        acc
    }
}

/// Adds a result to the audit log, if the settings ask for it.
fn audit(
    audit_config: &AuditConfig,
    ctx: &EvalContext,
    result: &EvalResult,
    trail: &mut Vec<AuditRecord>,
)
    ensures
        record_views(final(trail)@) == record_views(old(trail)@) + audited(
            audit_config@,
            record_of(ctx@, result@),
        ),
{
    let should_log = match audit_config.audit_level {
        AuditLevel::Off => false,
        AuditLevel::Matched => result.rule_index.is_some(),
        AuditLevel::All => true,
    };
    if should_log && audit_config.audit_file.is_some() {
        let record = AuditRecord {
            tool: ctx.tool_name.to_owned(),
            field: ctx.field_name.to_owned(),
            check_string: ctx.check_string.to_owned(),
            cwd: ctx.cwd.to_owned(),
            result: result.clone(),
        };
        trail.push(record);
        assert(record_views(trail@) =~= record_views(old(trail)@) + seq![
            record_of(ctx@, result@),
        ]);
    } else {
        assert(record_views(trail@) =~= record_views(old(trail)@) + Seq::<RecordView>::empty());
    }
}

fn rule_decision(action: Action) -> (r: Option<Decision>)
    ensures
        r == decision_of(action),
{
    match action {
        Action::Allow => Some(Decision::Allow),
        Action::Deny => Some(Decision::Deny),
        Action::Passthrough => Some(Decision::Passthrough),
        Action::ForcePassthrough => Some(Decision::ForcePassthrough),
        Action::Forward | Action::Evaluate => None,
    }
}

fn denial_reason(i: usize, table: &str) -> (r: String)
    ensures
        r@ == denied_by(i as nat, table@),
{
    let mut text = "Denied by rule ".to_owned();
    text.push_str(&decimal_of(i));
    text.push_str(" in table '");
    text.push_str(table);
    text.push_str("'");
    text
}

fn result_of_rule(decision: Decision, rule: &RuleConfig, table: &str, i: usize) -> (r: EvalResult)
    ensures
        r@ == rule_result(decision, rule@, table@, i as int),
{
    let reason = match &rule.reason {
        Some(text) => Some(text.clone()),
        None => if decision == Decision::Deny {
            Some(denial_reason(i, table))
        } else {
            None
        },
    };
    EvalResult {
        decision,
        reason,
        table: Some(table.to_owned()),
        rule_index: Some(i),
        source: "global".to_owned(),
    }
}

fn result_of_default(table: &str, action: Action) -> (r: Result<EvalResult, Error>)
    ensures
        outcome(r) == default_result(table@, action),
{
    match rule_decision(action) {
        Some(decision) => {
            let mut reason = "Default action in table '".to_owned();
            reason.push_str(table);
            reason.push_str("'");
            Ok(
                EvalResult {
                    decision,
                    reason: Some(reason),
                    table: Some(table.to_owned()),
                    rule_index: None,
                    source: "global".to_owned(),
                },
            )
        },
        None => Err(Error::DefaultNotAllowed { table: table.to_owned(), action }),
    }
}

/// What a table decides where evaluation starts in it: forwarding in a circle is a
/// denial.
fn settle(r: Result<EvalResult, Error>) -> (s: Result<EvalResult, Error>)
    ensures
        outcome(s) == settled_value(outcome(r)),
{
    match r {
        Err(Error::Cycle { table }) => {
            let mut reason = "Cycle detected: table '".to_owned();
            reason.push_str(&table);
            reason.push_str("' already visited");
            Ok(
                EvalResult {
                    decision: Decision::Deny,
                    reason: Some(reason),
                    table: Some(table),
                    rule_index: None,
                    source: "global".to_owned(),
                },
            )
        },
        other => other,
    }
}

fn concat_strings(a: &[String], b: &[String]) -> (r: Vec<String>)
    ensures
        texts(r@) == texts(a@) + texts(b@),
{
    let mut r = copy_strings(a);
    let mut i: usize = 0;
    while i < b.len()
        invariant
            i <= b@.len(),
            r@ == a@ + b@.take(i as int),
        decreases b@.len() - i,
    {
        r.push(b[i].clone());
        i = i + 1;
        assert(r@ =~= a@ + b@.take(i as int));
    }
    assert(texts(r@) =~= texts(a@) + texts(b@));
    r
}

/// What `arg` patterns are matched against.
fn seen_args_of(cmd: &ParsedCommand) -> (r: Vec<String>)
    ensures
        texts(r@) == seen_args(cmd@),
{
    if cmd.moved {
        concat_strings(&cmd.args, &cmd.written)
    } else {
        copy_strings(&cmd.args)
    }
}

/// What a table decides, forwarding from the tables in `visited`. Entries for the
/// audit log are put on `trail`.
fn evaluate_table_inner(
    config: &Config,
    table_name: &str,
    ctx: &EvalContext,
    visited: &mut Vec<String>,
    world: World,
    trail: &mut Vec<AuditRecord>,
    depth: usize,
) -> (r: Result<EvalResult, Error>)
    ensures
        outcome(r) == table_eval(
            config@,
            table_name@,
            ctx@,
            texts(old(visited)@),
            world@,
            depth as nat,
        ).value,
        record_views(final(trail)@) == record_views(old(trail)@) + table_eval(
            config@,
            table_name@,
            ctx@,
            texts(old(visited)@),
            world@,
            depth as nat,
        ).log,
        texts(final(visited)@) == table_eval(
            config@,
            table_name@,
            ctx@,
            texts(old(visited)@),
            world@,
            depth as nat,
        ).visited,
    decreases
            MAX_WRAPPER_DEPTH - depth,
            unvisited(config@.tables, texts(old(visited)@), config@.tables.len() as int),
{
    let ghost whole = table_eval(
        config@,
        table_name@,
        ctx@,
        texts(visited@),
        world@,
        depth as nat,
    );
    let ghost logged = record_views(trail@);
    assert(logged + Seq::<RecordView>::empty() =~= logged);
    if contains_text(visited, table_name) {
        return Err(Error::Cycle { table: table_name.to_owned() });
    }
    let own_name = table_name.to_owned();
    proof {
        lemma_texts_push(visited@, own_name);
        lemma_map_lookup(config.table@, |t: TableConfig| t@, table_name@);
        lemma_key_from(config@.tables, table_name@, 0);
        if key_from(config@.tables, table_name@, 0) is Some {
            lemma_unvisited_drops(
                config@.tables,
                texts(visited@),
                key_from(config@.tables, table_name@, 0)->0,
                config@.tables.len() as int,
            );
        }
    }
    visited.push(own_name);
    let table = match config.table.get(table_name) {
        Some(table) => table,
        None => {
            return Err(Error::TableNotFound { table: table_name.to_owned() });
        },
    };
    let ghost seen = texts(visited@);
    let mut i: usize = 0;
    while i < table.rules.len()
        invariant
            i <= table.rules@.len(),
            seen == texts(visited@),
            record_views(trail@) == logged,
            logged == record_views(old(trail)@),
            logged + Seq::<RecordView>::empty() == logged,
            unvisited(config@.tables, seen, config@.tables.len() as int) < unvisited(
                config@.tables,
                texts(old(visited)@),
                config@.tables.len() as int,
            ),
            whole == table_eval(
                config@,
                table_name@,
                ctx@,
                texts(old(visited)@),
                world@,
                depth as nat,
            ),
            whole == rules_eval(
                config@,
                table_name@,
                table@,
                i as int,
                ctx@,
                seen,
                world@,
                depth as nat,
            ),
        decreases table.rules@.len() - i,
    {
        let rule = &table.rules[i];
        assert(table@.rules[i as int] == rule@);
        match matches_rule(rule, ctx, &config.regex_cache, world.files) {
            Err(e) => {
                return Err(e);
            },
            Ok(false) => {
                i = i + 1;
                continue;
            },
            Ok(true) => {},
        }
        if let Some(decision) = rule_decision(rule.action) {
            return Ok(result_of_rule(decision, rule, table_name, i));
        }
        if rule.action == Action::Forward {
            proof {
                reveal_strlit("");
                assert(""@ =~= Seq::<char>::empty());
            }
            let target = match &rule.target {
                Some(target) => target.as_str(),
                None => "",
            };
            return evaluate_table_inner(config, target, ctx, visited, world, trail, depth);
        }
        if depth >= MAX_WRAPPER_DEPTH {
            return Ok(
                EvalResult {
                    decision: Decision::Deny,
                    reason: Some("Maximum wrapper depth exceeded".to_owned()),
                    table: Some(table_name.to_owned()),
                    rule_index: Some(i),
                    source: "global".to_owned(),
                },
            );
        }
        if let Some(subcmd) = extract_subcommand_from_rule(rule, ctx) {
            let target = match &rule.target {
                Some(target) => target.as_str(),
                None => config.global.entry_table.as_str(),
            };
            let sub_parsed = parse_commands_at(&subcmd, ctx.cwd, ctx.moved, world.home);
            match evaluate_parsed_commands(
                config,
                ctx.tool_name,
                ctx.tool_input,
                &sub_parsed,
                target,
                world,
                trail,
                depth + 1,
            ) {
                Ok(Some(result)) => {
                    return Ok(result);
                },
                Ok(None) => {},
                Err(e) => {
                    return Err(e);
                },
            }
        }
        i = i + 1;
    }
    result_of_default(table_name, table.default)
}

/// An optional result, in mathematical form.
pub open spec fn opt_result(o: Option<EvalResult>) -> Option<ResultView> {
    match o {
        Some(r) => Some(r@),
        None => None,
    }
}

/// A result that may be missing, in mathematical form.
pub open spec fn opt_outcome(r: Result<Option<EvalResult>, Error>) -> Result<
    Option<ResultView>,
    ErrorView,
> {
    match r {
        Ok(o) => Ok(opt_result(o)),
        Err(e) => Err(e@),
    }
}

/// What commands decide together, starting each in table `table_name`.
fn evaluate_parsed_commands(
    config: &Config,
    tool_name: &str,
    tool_input: &ToolInput,
    commands: &Vec<ParsedCommand>,
    table_name: &str,
    world: World,
    trail: &mut Vec<AuditRecord>,
    depth: usize,
) -> (r: Result<Option<EvalResult>, Error>)
    ensures
        opt_outcome(r) == commands_eval(
            config@,
            tool_name@,
            own_fields(tool_name@, tool_input@),
            command_views(commands@),
            table_name@,
            world@,
            depth as nat,
            0,
            None,
        ).value,
        record_views(final(trail)@) == record_views(old(trail)@) + commands_eval(
            config@,
            tool_name@,
            own_fields(tool_name@, tool_input@),
            command_views(commands@),
            table_name@,
            world@,
            depth as nat,
            0,
            None,
        ).log,
        r is Ok && r->Ok_0 is None ==> record_views(final(trail)@) == record_views(old(trail)@),
    decreases MAX_WRAPPER_DEPTH - depth, config@.tables.len() + 1,
{
    let ghost views = command_views(commands@);
    let ghost whole = commands_eval(
        config@,
        tool_name@,
        own_fields(tool_name@, tool_input@),
        views,
        table_name@,
        world@,
        depth as nat,
        0,
        None,
    );
    let ghost logged = record_views(trail@);
    let mut acc: Option<EvalResult> = None;
    let mut j: usize = 0;
    assert(logged + whole.log =~= record_views(trail@) + whole.log);
    while j < commands.len()
        invariant
            j <= commands@.len(),
            views == command_views(commands@),
            j == 0 <==> acc is None,
            j == 0 ==> record_views(trail@) == logged,
            logged == record_views(old(trail)@),
            whole == commands_eval(
                config@,
                tool_name@,
                own_fields(tool_name@, tool_input@),
                views,
                table_name@,
                world@,
                depth as nat,
                0,
                None,
            ),
            commands_eval(
                config@,
                tool_name@,
                own_fields(tool_name@, tool_input@),
                views,
                table_name@,
                world@,
                depth as nat,
                j as int,
                opt_result(acc),
            ).value == whole.value,
            record_views(trail@) + commands_eval(
                config@,
                tool_name@,
                own_fields(tool_name@, tool_input@),
                views,
                table_name@,
                world@,
                depth as nat,
                j as int,
                opt_result(acc),
            ).log == logged + whole.log,
        decreases commands@.len() - j,
    {
        let ghost rest = commands_eval(
            config@,
            tool_name@,
            own_fields(tool_name@, tool_input@),
            views,
            table_name@,
            world@,
            depth as nat,
            j as int,
            opt_result(acc),
        );
        let ghost at = record_views(trail@);
        let cmd = &commands[j];
        assert(views[j as int] == cmd@);
        let check = cmd.check_string();
        let args = seen_args_of(cmd);
        let env_vars = concat_strings(world.env, &cmd.env_vars);
        let ctx = EvalContext {
            tool_name,
            tool_input,
            check_string: &check,
            field_name: "command",
            cwd: &cmd.effective_cwd,
            moved: cmd.moved,
            args: &args,
            written: &cmd.written,
            redirects_in: &cmd.redirects_in,
            redirects_out: &cmd.redirects_out,
            env_vars: &env_vars,
        };
        assert(ctx@ == command_ctx(
            tool_name@,
            own_fields(tool_name@, tool_input@),
            cmd@,
            world@.env,
        ));
        let mut visited: Vec<String> = Vec::new();
        proof {
            assert(texts(visited@) =~= Seq::<Seq<char>>::empty());
            lemma_unvisited_push(
                config@.tables,
                Seq::empty(),
                Seq::empty(),
                config@.tables.len() as int,
            );
        }
        let one = evaluate_table_inner(config, table_name, &ctx, &mut visited, world, trail, depth);
        let ghost one_log = table_eval(
            config@,
            table_name@,
            ctx@,
            Seq::empty(),
            world@,
            depth as nat,
        ).log;
        assert(record_views(trail@) == at + one_log);
        let result = match settle(one) {
            Ok(result) => result,
            Err(e) => {
                return Err(e);
            },
        };
        let ghost record = audited(config@.audit, record_of(ctx@, result@));
        audit(&config.audit, &ctx, &result, trail);
        assert(record_views(trail@) =~= at + (one_log + record));
        let so_far = merge_results(acc, result);
        if so_far.decision == Decision::Deny {
            return Ok(Some(so_far));
        }
        acc = Some(so_far);
        j = j + 1;
        proof {
            let next = commands_eval(
                config@,
                tool_name@,
                own_fields(tool_name@, tool_input@),
                views,
                table_name@,
                world@,
                depth as nat,
                j as int,
                opt_result(acc),
            );
            assert(rest.log == one_log + record + next.log);
            assert(record_views(trail@) + next.log =~= at + rest.log);
        }
    }
    assert(record_views(trail@) + Seq::<RecordView>::empty() =~= record_views(trail@));
    Ok(acc)
}

fn passthrough(reason: &str) -> (r: EvalResult)
    ensures
        r@ == no_opinion(reason@),
{
    EvalResult {
        decision: Decision::Passthrough,
        reason: Some(reason.to_owned()),
        table: None,
        rule_index: None,
        source: "global".to_owned(),
    }
}

/// What a `Bash` call comes to: what the commands of its command line decide together.
fn evaluate_bash(
    config: &Config,
    tool_name: &str,
    tool_input: &ToolInput,
    cwd: &str,
    world: World,
    trail: &mut Vec<AuditRecord>,
) -> (r: Result<EvalResult, Error>)
    ensures
        outcome(r) == bash_eval(config@, tool_name@, tool_input@, cwd@, world@).value,
        record_views(final(trail)@) == record_views(old(trail)@) + bash_eval(
            config@,
            tool_name@,
            tool_input@,
            cwd@,
            world@,
        ).log,
{
    let command = tool_input.text("command");
    if command.is_empty() {
        assert(record_views(trail@) + Seq::<RecordView>::empty() =~= record_views(trail@));
        return Ok(passthrough("Empty command"));
    }
    let parsed = parse_commands(command, cwd, world.home);
    match evaluate_parsed_commands(
        config,
        tool_name,
        tool_input,
        &parsed,
        &config.global.entry_table,
        world,
        trail,
        0,
    ) {
        Ok(Some(result)) => Ok(result),
        Ok(None) => Ok(passthrough("No commands parsed")),
        Err(e) => Err(e),
    }
}

/// The fields of a tool call that rules look at.
fn matchable_fields(tool_name: &str) -> (r: Vec<&'static str>)
    ensures
        r@.len() == fields_of(tool_name@).len(),
        forall|i: int| 0 <= i < r@.len() ==> (#[trigger] r@[i])@ == fields_of(tool_name@)[i],
{
    let mut fields: Vec<&'static str> = Vec::new();
    if str_eq(tool_name, "Read") || str_eq(tool_name, "Write") || str_eq(tool_name, "Edit")
        || str_eq(tool_name, "MultiEdit") || str_eq(tool_name, "Glob") {
        fields.push("file_path");
    } else if str_eq(tool_name, "Task") {
        fields.push("subagent_type");
        fields.push("prompt");
    }
    fields
}

/// Evaluates one field of a tool call, and notes the result for the audit log.
fn evaluate_field(
    config: &Config,
    tool_name: &str,
    tool_input: &ToolInput,
    field: &str,
    text: &str,
    cwd: &str,
    world: World,
    trail: &mut Vec<AuditRecord>,
) -> (r: Result<EvalResult, Error>)
    ensures
        outcome(r) == settled_value(
            table_eval(
                config@,
                config@.entry_table,
                field_ctx(
                    tool_name@,
                    own_fields(tool_name@, tool_input@),
                    field@,
                    text@,
                    cwd@,
                    world@.env,
                ),
                Seq::empty(),
                world@,
                0,
            ).value,
        ),
        record_views(final(trail)@) == record_views(old(trail)@) + table_eval(
            config@,
            config@.entry_table,
            field_ctx(
                tool_name@,
                own_fields(tool_name@, tool_input@),
                field@,
                text@,
                cwd@,
                world@.env,
            ),
            Seq::empty(),
            world@,
            0,
        ).log + match outcome(r) {
            Ok(result) => audited(
                config@.audit,
                record_of(field_ctx(
                    tool_name@,
                    own_fields(tool_name@, tool_input@),
                    field@,
                    text@,
                    cwd@,
                    world@.env,
                ), result),
            ),
            Err(_) => Seq::empty(),
        },
{
    let none: Vec<String> = Vec::new();
    assert(texts(none@) =~= Seq::<Seq<char>>::empty());
    let ctx = EvalContext {
        tool_name,
        tool_input,
        check_string: text,
        field_name: field,
        cwd,
        moved: false,
        args: none.as_slice(),
        written: none.as_slice(),
        redirects_in: none.as_slice(),
        redirects_out: none.as_slice(),
        env_vars: world.env,
    };
    assert(ctx@ == field_ctx(
        tool_name@,
        own_fields(tool_name@, tool_input@),
        field@,
        text@,
        cwd@,
        world@.env,
    ));
    let mut visited: Vec<String> = Vec::new();
    assert(texts(visited@) =~= Seq::<Seq<char>>::empty());
    let one = evaluate_table_inner(
        config,
        &config.global.entry_table,
        &ctx,
        &mut visited,
        world,
        trail,
        0,
    );
    match settle(one) {
        Ok(result) => {
            audit(&config.audit, &ctx, &result, trail);
            Ok(result)
        },
        Err(e) => {
            assert(record_views(trail@) + Seq::<RecordView>::empty() =~= record_views(trail@));
            Err(e)
        },
    }
}

/// What a call of a tool other than `Bash` comes to: what its fields decide together.
fn evaluate_non_bash(
    config: &Config,
    tool_name: &str,
    tool_input: &ToolInput,
    cwd: &str,
    world: World,
    trail: &mut Vec<AuditRecord>,
) -> (r: Result<EvalResult, Error>)
    ensures
        outcome(r) == other_eval(config@, tool_name@, tool_input@, cwd@, world@).value,
        record_views(final(trail)@) == record_views(old(trail)@) + other_eval(
            config@,
            tool_name@,
            tool_input@,
            cwd@,
            world@,
        ).log,
{
    let fields = matchable_fields(tool_name);
    if fields.len() == 0 {
        let ghost before = record_views(trail@);
        let r = evaluate_field(
            config,
            tool_name,
            tool_input,
            "tool",
            tool_name,
            cwd,
            world,
            trail,
        );
        assert(record_views(trail@) =~= before + other_eval(
            config@,
            tool_name@,
            tool_input@,
            cwd@,
            world@,
        ).log);
        return r;
    }
    let ghost names = fields_of(tool_name@);
    let ghost whole = fields_eval(
        config@,
        tool_name@,
        tool_input@,
        cwd@,
        world@,
        names,
        0,
        None,
    );
    let ghost logged = record_views(trail@);
    let mut acc: Option<EvalResult> = None;
    let mut j: usize = 0;
    while j < fields.len()
        invariant
            j <= fields@.len(),
            fields@.len() == names.len(),
            names == fields_of(tool_name@),
            names.len() > 0,
            forall|i: int| 0 <= i < fields@.len() ==> (#[trigger] fields@[i])@ == names[i],
            logged == record_views(old(trail)@),
            whole == fields_eval(
                config@,
                tool_name@,
                tool_input@,
                cwd@,
                world@,
                names,
                0,
                None,
            ),
            fields_eval(
                config@,
                tool_name@,
                tool_input@,
                cwd@,
                world@,
                names,
                j as int,
                opt_result(acc),
            ).value == whole.value,
            record_views(trail@) + fields_eval(
                config@,
                tool_name@,
                tool_input@,
                cwd@,
                world@,
                names,
                j as int,
                opt_result(acc),
            ).log == logged + whole.log,
        decreases fields@.len() - j,
    {
        let ghost rest = fields_eval(
            config@,
            tool_name@,
            tool_input@,
            cwd@,
            world@,
            names,
            j as int,
            opt_result(acc),
        );
        let ghost at = record_views(trail@);
        let field = fields[j];
        assert(field@ == names[j as int]);
        let text = tool_input.text(field);
        let ghost ctx = field_ctx(
            tool_name@,
            own_fields(tool_name@, tool_input@),
            field@,
            text@,
            cwd@,
            world@.env,
        );
        let ghost one_log = table_eval(
            config@,
            config@.entry_table,
            ctx,
            Seq::empty(),
            world@,
            0,
        ).log;
        let result = match evaluate_field(
            config,
            tool_name,
            tool_input,
            field,
            text,
            cwd,
            world,
            trail,
        ) {
            Ok(result) => result,
            Err(e) => {
                assert(at + one_log + Seq::<RecordView>::empty() =~= at + one_log);
                return Err(e);
            },
        };
        let ghost record = audited(config@.audit, record_of(ctx, result@));
        assert(record_views(trail@) =~= at + (one_log + record));
        let so_far = merge_results(acc, result);
        if so_far.decision == Decision::Deny {
            return Ok(so_far);
        }
        acc = Some(so_far);
        j = j + 1;
        proof {
            let next = fields_eval(
                config@,
                tool_name@,
                tool_input@,
                cwd@,
                world@,
                names,
                j as int,
                opt_result(acc),
            );
            assert(rest.log == one_log + record + next.log);
            assert(record_views(trail@) + next.log =~= at + rest.log);
        }
    }
    assert(record_views(trail@) + Seq::<RecordView>::empty() =~= record_views(trail@));
    match acc {
        Some(result) => Ok(result),
        None => Ok(passthrough("No fields evaluated")),
    }
}

/// What a tool call comes to by the configuration alone. Entries for the audit log are
/// put on `trail`. Where a rule asks for a path that `world` says nothing of, the error
/// is [`Error::Unprobed`].
pub fn evaluate(
    config: &Config,
    tool_name: &str,
    tool_input: &ToolInput,
    cwd: &str,
    world: World,
    trail: &mut Vec<AuditRecord>,
) -> (r: Result<EvalResult, Error>)
    ensures
        outcome(r) == call_eval(config@, tool_name@, tool_input@, cwd@, world@).value,
        record_views(final(trail)@) == record_views(old(trail)@) + call_eval(
            config@,
            tool_name@,
            tool_input@,
            cwd@,
            world@,
        ).log,
{
    if str_eq(tool_name, "Bash") {
        evaluate_bash(config, tool_name, tool_input, cwd, world, trail)
    } else {
        evaluate_non_bash(config, tool_name, tool_input, cwd, world, trail)
    }
}

/// What one table decides about a context, forwarding from the tables in `visited`.
/// Commands that a rule finds inside see no environment but their own.
pub fn evaluate_table(
    config: &Config,
    table_name: &str,
    ctx: &EvalContext,
    visited: &mut Vec<String>,
    world: World,
    trail: &mut Vec<AuditRecord>,
) -> (r: Result<EvalResult, Error>)
    ensures
        outcome(r) == table_eval(
            config@,
            table_name@,
            ctx@,
            texts(old(visited)@),
            (WorldView { env: Seq::empty(), ..world@ }),
            0,
        ).value,
        record_views(final(trail)@) == record_views(old(trail)@) + table_eval(
            config@,
            table_name@,
            ctx@,
            texts(old(visited)@),
            (WorldView { env: Seq::empty(), ..world@ }),
            0,
        ).log,
        texts(final(visited)@) == table_eval(
            config@,
            table_name@,
            ctx@,
            texts(old(visited)@),
            (WorldView { env: Seq::empty(), ..world@ }),
            0,
        ).visited,
{
    let none: Vec<String> = Vec::new();
    assert(texts(none@) =~= Seq::<Seq<char>>::empty());
    let bare = World { home: world.home, env: none.as_slice(), files: world.files };
    evaluate_table_inner(config, table_name, ctx, visited, bare, trail, 0)
}

/// What a flat list of rules decides: what the first rule that matches says.
fn evaluate_flat_rules(
    rules: &Vec<RuleConfig>,
    ctx: &EvalContext,
    source: &str,
    cache: &RegexCache,
    files: &FileFacts,
) -> (r: Result<Option<EvalResult>, Error>)
    ensures
        opt_outcome(r) == flat_eval(rule_views(rules@), ctx@, files@, source@, 0),
{
    let ghost views = rule_views(rules@);
    let mut i: usize = 0;
    while i < rules.len()
        invariant
            i <= rules@.len(),
            views == rule_views(rules@),
            flat_eval(views, ctx@, files@, source@, i as int) == flat_eval(
                views,
                ctx@,
                files@,
                source@,
                0,
            ),
        decreases rules@.len() - i,
    {
        let rule = &rules[i];
        assert(views[i as int] == rule@);
        match matches_rule(rule, ctx, cache, files) {
            Err(e) => {
                return Err(e);
            },
            Ok(false) => {
                i = i + 1;
                continue;
            },
            Ok(true) => {},
        }
        return match rule_decision(rule.action) {
            Some(decision) => Ok(
                Some(
                    EvalResult {
                        decision,
                        reason: copy_opt(&rule.reason),
                        table: None,
                        rule_index: Some(i),
                        source: source.to_owned(),
                    },
                ),
            ),
            None => Ok(None),
        };
    }
    Ok(None)
}

/// Lets the rules of a project decide about one more context, and says whether one of them
/// matched it.
fn evaluate_local_context(
    audit_config: &AuditConfig,
    local: &LocalRuleSet,
    ctx: &EvalContext,
    files: &FileFacts,
    acc: Option<EvalResult>,
    trail: &mut Vec<AuditRecord>,
) -> (r: Result<(EvalResult, bool), Error>)
    ensures
        match flat_eval(local@.rules, ctx@, files@, local@.source_dir, 0) {
            Err(e) => r is Err && r->Err_0@ == e && final(trail)@ == old(trail)@,
            Ok(None) => {
                &&& r is Ok && !r->Ok_0.1
                &&& r->Ok_0.0@ == merged(opt_result(acc), unmatched(local@.source_dir))
                &&& final(trail)@ == old(trail)@
            },
            Ok(Some(result)) => {
                &&& r is Ok && r->Ok_0.1
                &&& r->Ok_0.0@ == merged(opt_result(acc), result)
                &&& record_views(final(trail)@) == record_views(old(trail)@) + audited(
                    audit_config@,
                    record_of(ctx@, result),
                )
            },
        },
{
    match evaluate_flat_rules(&local.rules, ctx, &local.source_dir, &local.regex_cache, files) {
        Ok(Some(result)) => {
            audit(audit_config, ctx, &result, trail);
            Ok((merge_results(acc, result), true))
        },
        Ok(None) => {
            let passed = EvalResult {
                decision: Decision::Passthrough,
                reason: Some("No project rule matched".to_owned()),
                table: None,
                rule_index: None,
                source: local.source_dir.clone(),
            };
            Ok((merge_results(acc, passed), false))
        },
        Err(e) => Err(e),
    }
}

fn is_denied(acc: &Option<EvalResult>) -> (r: bool)
    ensures
        r == (acc is Some && acc->0.decision == Decision::Deny),
{
    match acc {
        Some(result) => result.decision == Decision::Deny,
        None => false,
    }
}

/// What one more context adds to what the rules of a project decide.
proof fn lemma_contexts_step(
    audit: AuditView,
    local: LocalView,
    ctxs: Seq<CtxView>,
    files: FactsView,
    j: int,
    acc: Option<ResultView>,
    hit: bool,
)
    requires
        0 <= j < ctxs.len(),
        !(acc is Some && acc->0.decision == Decision::Deny),
    ensures
        ({
            let all = contexts_eval(audit, local, ctxs, files, j, acc, hit);
            match flat_eval(local.rules, ctxs[j], files, local.source_dir, 0) {
                Err(e) => all.value == Err::<Option<ResultView>, ErrorView>(e) && all.log == Seq::<
                    RecordView,
                >::empty(),
                Ok(None) => {
                    let so_far = merged(acc, unmatched(local.source_dir));
                    &&& so_far.decision != Decision::Deny
                    &&& all == contexts_eval(audit, local, ctxs, files, j + 1, Some(so_far), hit)
                },
                Ok(Some(result)) => {
                    let so_far = merged(acc, result);
                    let log = audited(audit, record_of(ctxs[j], result));
                    if so_far.decision == Decision::Deny {
                        all.value == Ok::<Option<ResultView>, ErrorView>(Some(so_far)) && all.log
                            == log
                    } else {
                        let rest = contexts_eval(
                            audit,
                            local,
                            ctxs,
                            files,
                            j + 1,
                            Some(so_far),
                            true,
                        );
                        all.value == rest.value && all.log == log + rest.log
                    }
                },
            }
        }),
{
}

/// What the rules of a project decide about a tool call, if anything.
fn evaluate_local_rules(
    audit_config: &AuditConfig,
    local: &LocalRuleSet,
    tool_name: &str,
    tool_input: &ToolInput,
    cwd: &str,
    world: World,
    trail: &mut Vec<AuditRecord>,
) -> (r: Result<Option<EvalResult>, Error>)
    ensures
        opt_outcome(r) == local_eval(
            audit_config@,
            local@,
            tool_name@,
            tool_input@,
            cwd@,
            world@,
        ).value,
        record_views(final(trail)@) == record_views(old(trail)@) + local_eval(
            audit_config@,
            local@,
            tool_name@,
            tool_input@,
            cwd@,
            world@,
        ).log,
{
    if str_eq(tool_name, "Bash") {
        evaluate_local_commands(audit_config, local, tool_name, tool_input, cwd, world, trail)
    } else {
        evaluate_local_fields(audit_config, local, tool_name, tool_input, cwd, world, trail)
    }
}

fn evaluate_local_commands(
    audit_config: &AuditConfig,
    local: &LocalRuleSet,
    tool_name: &str,
    tool_input: &ToolInput,
    cwd: &str,
    world: World,
    trail: &mut Vec<AuditRecord>,
) -> (r: Result<Option<EvalResult>, Error>)
    requires
        tool_name@ == "Bash"@,
    ensures
        opt_outcome(r) == local_eval(
            audit_config@,
            local@,
            tool_name@,
            tool_input@,
            cwd@,
            world@,
        ).value,
        record_views(final(trail)@) == record_views(old(trail)@) + local_eval(
            audit_config@,
            local@,
            tool_name@,
            tool_input@,
            cwd@,
            world@,
        ).log,
{
    let ghost ctxs = contexts_of(tool_name@, tool_input@, cwd@, world@);
    let ghost whole = contexts_eval(audit_config@, local@, ctxs, world@.files, 0, None, false);
    let ghost logged = record_views(trail@);
    let command = tool_input.text("command");
    if command.is_empty() {
        assert(logged + Seq::<RecordView>::empty() =~= logged);
        return Ok(None);
    }
    let commands = parse_commands(command, cwd, world.home);
    let mut acc: Option<EvalResult> = None;
    let mut hit = false;
    let mut j: usize = 0;
    while j < commands.len()
        invariant
            j <= commands@.len(),
            commands@.len() == ctxs.len(),
            forall|k: int|
                0 <= k < commands@.len() ==> #[trigger] ctxs[k] == command_ctx(
                    tool_name@,
                    own_fields(tool_name@, tool_input@),
                    commands@[k]@,
                    world@.env,
                ),
            logged == record_views(old(trail)@),
            !(acc is Some && acc->0.decision == Decision::Deny),
            whole == contexts_eval(audit_config@, local@, ctxs, world@.files, 0, None, false),
            whole == local_eval(
                audit_config@,
                local@,
                tool_name@,
                tool_input@,
                cwd@,
                world@,
            ),
            contexts_eval(
                audit_config@,
                local@,
                ctxs,
                world@.files,
                j as int,
                opt_result(acc),
                hit,
            ).value == whole.value,
            record_views(trail@) + contexts_eval(
                audit_config@,
                local@,
                ctxs,
                world@.files,
                j as int,
                opt_result(acc),
                hit,
            ).log == logged + whole.log,
        decreases commands@.len() - j,
    {
        let ghost at = record_views(trail@);
        proof {
            lemma_contexts_step(
                audit_config@,
                local@,
                ctxs,
                world@.files,
                j as int,
                opt_result(acc),
                hit,
            );
        }
        let cmd = &commands[j];
        let check = cmd.check_string();
        let args = seen_args_of(cmd);
        let env_vars = concat_strings(world.env, &cmd.env_vars);
        let ctx = EvalContext {
            tool_name,
            tool_input,
            check_string: &check,
            field_name: "command",
            cwd: &cmd.effective_cwd,
            moved: cmd.moved,
            args: &args,
            written: &cmd.written,
            redirects_in: &cmd.redirects_in,
            redirects_out: &cmd.redirects_out,
            env_vars: &env_vars,
        };
        assert(ctx@ == ctxs[j as int]);
        match evaluate_local_context(audit_config, local, &ctx, world.files, acc, trail) {
            Ok((more, matched)) => {
                acc = Some(more);
                hit = hit || matched;
            },
            Err(e) => {
                assert(at + Seq::<RecordView>::empty() =~= at);
                return Err(e);
            },
        }
        if is_denied(&acc) {
            return Ok(acc);
        }
        j = j + 1;
        proof {
            let next = contexts_eval(
                audit_config@,
                local@,
                ctxs,
                world@.files,
                j as int,
                opt_result(acc),
                hit,
            );
            match flat_eval(local@.rules, ctx@, world@.files, local@.source_dir, 0) {
                Ok(Some(result)) => {
                    assert(record_views(trail@) + next.log =~= at + (audited(
                        audit_config@,
                        record_of(ctx@, result),
                    ) + next.log));
                },
                _ => {},
            }
        }
    }
    assert(record_views(trail@) + Seq::<RecordView>::empty() =~= record_views(trail@));
    if hit {
        Ok(acc)
    } else {
        Ok(None)
    }
}

fn evaluate_local_fields(
    audit_config: &AuditConfig,
    local: &LocalRuleSet,
    tool_name: &str,
    tool_input: &ToolInput,
    cwd: &str,
    world: World,
    trail: &mut Vec<AuditRecord>,
) -> (r: Result<Option<EvalResult>, Error>)
    requires
        tool_name@ != "Bash"@,
    ensures
        opt_outcome(r) == local_eval(
            audit_config@,
            local@,
            tool_name@,
            tool_input@,
            cwd@,
            world@,
        ).value,
        record_views(final(trail)@) == record_views(old(trail)@) + local_eval(
            audit_config@,
            local@,
            tool_name@,
            tool_input@,
            cwd@,
            world@,
        ).log,
{
    let ghost ctxs = contexts_of(tool_name@, tool_input@, cwd@, world@);
    let ghost whole = contexts_eval(audit_config@, local@, ctxs, world@.files, 0, None, false);
    let ghost logged = record_views(trail@);
    let fields = matchable_fields(tool_name);
    let none: Vec<String> = Vec::new();
    assert(texts(none@) =~= Seq::<Seq<char>>::empty());
    let count: usize = if fields.len() == 0 {
        1
    } else {
        fields.len()
    };
    let mut acc: Option<EvalResult> = None;
    let mut hit = false;
    let mut j: usize = 0;
    while j < count
        invariant
            j <= count,
            count == ctxs.len(),
            count == if fields@.len() == 0 {
                1
            } else {
                fields@.len() as int
            },
            texts(none@) == Seq::<Seq<char>>::empty(),
            fields@.len() == 0 ==> ctxs[0] == field_ctx(
                tool_name@,
                own_fields(tool_name@, tool_input@),
                "tool"@,
                tool_name@,
                cwd@,
                world@.env,
            ),
            forall|k: int|
                0 <= k < fields@.len() ==> #[trigger] ctxs[k] == field_ctx(
                    tool_name@,
                    own_fields(tool_name@, tool_input@),
                    fields@[k]@,
                    field_text(tool_input@, fields@[k]@),
                    cwd@,
                    world@.env,
                ),
            logged == record_views(old(trail)@),
            !(acc is Some && acc->0.decision == Decision::Deny),
            whole == contexts_eval(audit_config@, local@, ctxs, world@.files, 0, None, false),
            whole == local_eval(
                audit_config@,
                local@,
                tool_name@,
                tool_input@,
                cwd@,
                world@,
            ),
            contexts_eval(
                audit_config@,
                local@,
                ctxs,
                world@.files,
                j as int,
                opt_result(acc),
                hit,
            ).value == whole.value,
            record_views(trail@) + contexts_eval(
                audit_config@,
                local@,
                ctxs,
                world@.files,
                j as int,
                opt_result(acc),
                hit,
            ).log == logged + whole.log,
        decreases count - j,
    {
        let ghost at = record_views(trail@);
        proof {
            lemma_contexts_step(
                audit_config@,
                local@,
                ctxs,
                world@.files,
                j as int,
                opt_result(acc),
                hit,
            );
        }
        let field = if fields.len() == 0 {
            "tool"
        } else {
            fields[j]
        };
        let text = if fields.len() == 0 {
            tool_name
        } else {
            tool_input.text(field)
        };
        let ctx = EvalContext {
            tool_name,
            tool_input,
            check_string: text,
            field_name: field,
            cwd,
            moved: false,
            args: none.as_slice(),
            written: none.as_slice(),
            redirects_in: none.as_slice(),
            redirects_out: none.as_slice(),
            env_vars: world.env,
        };
        assert(ctx@ == ctxs[j as int]);
        match evaluate_local_context(audit_config, local, &ctx, world.files, acc, trail) {
            Ok((more, matched)) => {
                acc = Some(more);
                hit = hit || matched;
            },
            Err(e) => {
                assert(at + Seq::<RecordView>::empty() =~= at);
                return Err(e);
            },
        }
        if is_denied(&acc) {
            return Ok(acc);
        }
        j = j + 1;
        proof {
            let next = contexts_eval(
                audit_config@,
                local@,
                ctxs,
                world@.files,
                j as int,
                opt_result(acc),
                hit,
            );
            match flat_eval(local@.rules, ctx@, world@.files, local@.source_dir, 0) {
                Ok(Some(result)) => {
                    assert(record_views(trail@) + next.log =~= at + (audited(
                        audit_config@,
                        record_of(ctx@, result),
                    ) + next.log));
                },
                _ => {},
            }
        }
    }
    assert(record_views(trail@) + Seq::<RecordView>::empty() =~= record_views(trail@));
    if hit {
        Ok(acc)
    } else {
        Ok(None)
    }
}

/// What a tool call comes to by the configuration and the rules of the project. These
/// are asked only where the configuration allows it and has no opinion: the result is
/// `Passthrough`, and not `ForcePassthrough`.
pub fn evaluate_with_local(
    config: &Config,
    tool_name: &str,
    tool_input: &ToolInput,
    cwd: &str,
    local_rules: Option<&LocalRuleSet>,
    world: World,
    trail: &mut Vec<AuditRecord>,
) -> (r: Result<EvalResult, Error>)
    requires
        local_rules is Some ==> local_rules->0.is_flat(),
    ensures
        outcome(r) == call_eval_with_local(
            config@,
            tool_name@,
            tool_input@,
            cwd@,
            opt_local(local_rules),
            world@,
        ).value,
        record_views(final(trail)@) == record_views(old(trail)@) + call_eval_with_local(
            config@,
            tool_name@,
            tool_input@,
            cwd@,
            opt_local(local_rules),
            world@,
        ).log,
{
    let ghost logged = record_views(trail@);
    let result = match evaluate(config, tool_name, tool_input, cwd, world, trail) {
        Ok(result) => result,
        Err(e) => {
            return Err(e);
        },
    };
    if config.global.local_rules && result.decision == Decision::Passthrough {
        if let Some(local) = local_rules {
            let ghost first = call_eval(config@, tool_name@, tool_input@, cwd@, world@).log;
            let ghost second = local_eval(
                config@.audit,
                local@,
                tool_name@,
                tool_input@,
                cwd@,
                world@,
            ).log;
            assert(logged + first + second =~= logged + (first + second));
            return match evaluate_local_rules(
                &config.audit,
                local,
                tool_name,
                tool_input,
                cwd,
                world,
                trail,
            ) {
                Ok(Some(own)) => Ok(own),
                Ok(None) => Ok(result),
                Err(e) => Err(e),
            };
        }
    }
    Ok(result)
}

/// The rules of a project, if there are any, in mathematical form.
pub open spec fn opt_local(o: Option<&LocalRuleSet>) -> Option<LocalView> {
    match o {
        Some(local) => Some(local@),
        None => None,
    }
}

} // verus!

//! What holds of the operations on text.
use vstd::prelude::*;
use crate::config::{rules_pattern_fault, RuleView};
use crate::dsl_grammar::local_rules_of;
use crate::engine_model::{fields_of, Decision, ResultView};
use crate::error::ErrorView;
use crate::hook_io::{answer_to, OutputView};
use crate::lexer::number_of;
use crate::local::{at_most, gathered, is_rules_file, project_rules, LocalFile};
use crate::paths_properties::bare_names_are_file_names;
use crate::report::{check_fields, decision_name, report_text};
use crate::shell_grammar::{
    check_text, clean_args, is_path_argument, is_path_char, is_range, is_script, slashes, spans_at,
    without_placeholders, CommandView,
};
use crate::text::{
    decimal, digit_char, is_digit, is_name_char, is_whitespace, joined, replaced, trim_back,
    trim_front, trimmed, unquoted,
};
use crate::world::var_from;

verus! {

/// Texts one after the other, each with a separator in front of it.
pub open spec fn each_behind(parts: Seq<Seq<char>>, sep: Seq<char>) -> Seq<char>
    decreases parts.len(),
{
    if parts.len() == 0 {
        Seq::empty()
    } else {
        sep + parts[0] + each_behind(parts.skip(1), sep)
    }
}

proof fn lemma_each_behind(parts: Seq<Seq<char>>, sep: Seq<char>)
    requires
        parts.len() > 0,
    ensures
        each_behind(parts, sep) == each_behind(parts.drop_last(), sep) + (sep + parts.last()),
    decreases parts.len(),
{
    let rest = parts.skip(1);
    if parts.len() == 1 {
        assert(each_behind(rest, sep) == Seq::<char>::empty());
        assert(each_behind(parts.drop_last(), sep) == Seq::<char>::empty());
        assert(each_behind(parts, sep) =~= Seq::empty() + (sep + parts.last()));
    } else {
        lemma_each_behind(rest, sep);
        let front = parts.drop_last();
        assert(front.skip(1) =~= rest.drop_last());
        assert(front[0] == parts[0]);
        assert(rest.last() == parts.last());
        assert(each_behind(parts, sep) =~= each_behind(front, sep) + (sep + parts.last()));
    }
}

/// Joined texts are the first of them, and then each other one behind a separator.
pub proof fn joined_texts_are_separated(parts: Seq<Seq<char>>, sep: Seq<char>)
    requires
        parts.len() > 0,
    ensures
        joined(parts, sep) == parts[0] + each_behind(parts.skip(1), sep),
    decreases parts.len(),
{
    if parts.len() == 1 {
        assert(each_behind(parts.skip(1), sep) == Seq::<char>::empty());
        assert(parts[0] + Seq::<char>::empty() =~= parts[0]);
    } else {
        let front = parts.drop_last();
        joined_texts_are_separated(front, sep);
        lemma_each_behind(parts.skip(1), sep);
        assert(parts.skip(1).drop_last() =~= front.skip(1));
        assert(parts.skip(1).last() == parts.last());
        assert(joined(parts, sep) =~= parts[0] + each_behind(parts.skip(1), sep));
    }
}

proof fn lemma_stays(s: Seq<char>, pat: Seq<char>, with: Seq<char>)
    requires
        pat.len() > 0,
        forall|k: int| 0 <= k < s.len() ==> #[trigger] s[k] != pat[0],
    ensures
        replaced(s, pat, with) == s,
    decreases s.len(),
{
    if s.len() >= pat.len() {
        assert(s.take(pat.len() as int)[0] == s[0]);
        let rest = s.skip(1);
        assert forall|k: int| 0 <= k < rest.len() implies #[trigger] rest[k] != pat[0] by {
            assert(rest[k] == s[k + 1]);
        }
        lemma_stays(rest, pat, with);
        assert(seq![s[0]] + rest =~= s);
    }
}

/// Every occurrence of a text is replaced, and nothing else is.
pub proof fn every_occurrence_is_replaced(
    a: Seq<char>,
    pat: Seq<char>,
    b: Seq<char>,
    with: Seq<char>,
)
    requires
        pat.len() > 0,
        forall|k: int| 0 <= k < a.len() ==> #[trigger] a[k] != pat[0],
    ensures
        replaced(a + pat + b, pat, with) == a + with + replaced(b, pat, with),
        replaced(a, pat, with) == a,
    decreases a.len(),
{
    let s = a + pat + b;
    lemma_stays(a, pat, with);
    if a.len() == 0 {
        assert(s.take(pat.len() as int) =~= pat);
        assert(s.skip(pat.len() as int) =~= b);
        assert(a + with + replaced(b, pat, with) =~= with + replaced(b, pat, with));
    } else {
        let rest = a.skip(1);
        assert(s.take(pat.len() as int)[0] == a[0]);
        assert(s.skip(1) =~= rest + pat + b);
        assert forall|k: int| 0 <= k < rest.len() implies #[trigger] rest[k] != pat[0] by {
            assert(rest[k] == a[k + 1]);
        }
        every_occurrence_is_replaced(rest, pat, b, with);
        assert(s[0] == a[0]);
        assert(seq![a[0]] + (rest + with + replaced(b, pat, with)) =~= a + with + replaced(
            b,
            pat,
            with,
        ));
    }
}

/// Whether a text holds nothing that stands for a substitution.
pub open spec fn is_free(w: Seq<char>) -> bool {
    forall|k: int| 0 <= k < w.len() ==> #[trigger] w[k] != '$' && w[k] != '`'
}

proof fn lemma_free(w: Seq<char>)
    requires
        is_free(w),
    ensures
        without_placeholders(w) == w,
{
    reveal_strlit("$()");
    reveal_strlit("`...`");
    lemma_stays(w, "$()"@, ""@);
    lemma_stays(w, "`...`"@, ""@);
}

/// What stands for a substitution is taken out of a text, wherever it stands in it.
pub proof fn placeholders_are_taken_out(a: Seq<char>, b: Seq<char>)
    requires
        is_free(a),
        is_free(b),
    ensures
        without_placeholders(a) == a,
        without_placeholders(a + "$()"@ + b) == a + b,
        without_placeholders(a + "`...`"@ + b) == a + b,
{
    lemma_free(a);
    lemma_free(b);
    reveal_strlit("$()");
    reveal_strlit("`...`");
    reveal_strlit("");
    let empty = ""@;
    every_occurrence_is_replaced(a, "$()"@, b, empty);
    lemma_stays(b, "$()"@, empty);
    assert(a + empty + b =~= a + b);
    let both = a + b;
    assert forall|k: int| 0 <= k < both.len() implies #[trigger] both[k] != '`' by {
        if k < a.len() {
            assert(a[k] != '`');
        } else {
            assert(b[k - a.len()] != '`');
        }
    }
    lemma_stays(both, "`...`"@, empty);
    let t = a + "`...`"@ + b;
    assert forall|k: int| 0 <= k < t.len() implies #[trigger] t[k] != '$' by {
        if k < a.len() {
            assert(a[k] != '$');
        } else if k >= a.len() + 5 {
            assert(b[k - a.len() - 5] != '$');
        }
    }
    lemma_stays(t, "$()"@, empty);
    every_occurrence_is_replaced(a, "`...`"@, b, empty);
    lemma_stays(b, "`...`"@, empty);
}

proof fn lemma_clean(args: Seq<Seq<char>>)
    requires
        forall|k: int| 0 <= k < args.len() ==> (#[trigger] args[k]).len() > 0 && is_free(args[k]),
    ensures
        clean_args(args) == args,
    decreases args.len(),
{
    if args.len() > 0 {
        let front = args.drop_last();
        assert forall|k: int| 0 <= k < front.len() implies (#[trigger] front[k]).len() > 0
            && is_free(front[k]) by {
            assert(front[k] == args[k]);
        }
        lemma_clean(front);
        assert(is_free(args[args.len() - 1]));
        lemma_free(args.last());
        assert(front.push(args.last()) =~= args);
    } else {
        assert(args =~= Seq::empty());
    }
}

/// The text that `command` patterns are matched against is the name of the command and its
/// arguments as they are written, with a space in front of each. Of a bare assignment it is
/// the assignment as it is written.
pub proof fn commands_are_checked_as_written(c: CommandView)
    requires
        forall|k: int|
            0 <= k < c.written.len() ==> (#[trigger] c.written[k]).len() > 0 && is_free(
                c.written[k],
            ),
    ensures
        c.program.len() > 0 ==> check_text(c) == c.program + each_behind(c.written, seq![' ']),
        c.program.len() == 0 ==> check_text(c) == trimmed(c.raw),
        clean_args(c.written.push("$()"@)) == c.written,
        clean_args(c.written.push("`...`"@)) == c.written,
{
    lemma_clean(c.written);
    reveal_strlit(" ");
    assert(" "@ =~= seq![' ']);
    if c.program.len() > 0 {
        if c.written.len() > 0 {
            joined_texts_are_separated(c.written, " "@);
            assert(check_text(c) =~= c.program + each_behind(c.written, seq![' ']));
        } else {
            assert(c.program + each_behind(c.written, seq![' ']) =~= c.program);
        }
    }
    let none = Seq::<char>::empty();
    placeholders_are_taken_out(none, none);
    assert(none + "$()"@ + none =~= "$()"@);
    assert(none + "`...`"@ + none =~= "`...`"@);
    assert(none + none =~= none);
    assert(c.written.push("$()"@).drop_last() =~= c.written);
    assert(c.written.push("`...`"@).drop_last() =~= c.written);
}

proof fn lemma_trim_front_of(a: Seq<char>, t: Seq<char>, p: spec_fn(char) -> bool)
    requires
        forall|k: int| 0 <= k < a.len() ==> p(#[trigger] a[k]),
        t.len() > 0,
        !p(t[0]),
    ensures
        trim_front(a + t, p) == t,
    decreases a.len(),
{
    if a.len() == 0 {
        assert(a + t =~= t);
    } else {
        assert(p(a[0]));
        let rest = a.drop_first();
        assert forall|k: int| 0 <= k < rest.len() implies p(#[trigger] rest[k]) by {
            assert(rest[k] == a[k + 1]);
        }
        assert((a + t)[0] == a[0]);
        assert((a + t).drop_first() =~= rest + t);
        lemma_trim_front_of(rest, t, p);
    }
}

proof fn lemma_trim_back_of(t: Seq<char>, b: Seq<char>, p: spec_fn(char) -> bool)
    requires
        forall|k: int| 0 <= k < b.len() ==> p(#[trigger] b[k]),
        t.len() > 0,
        !p(t.last()),
    ensures
        trim_back(t + b, p) == t,
    decreases b.len(),
{
    if b.len() == 0 {
        assert(t + b =~= t);
    } else {
        assert(p(b[b.len() - 1]));
        let rest = b.drop_last();
        assert forall|k: int| 0 <= k < rest.len() implies p(#[trigger] rest[k]) by {
            assert(rest[k] == b[k]);
        }
        assert((t + b).last() == b.last());
        assert((t + b).drop_last() =~= t + rest);
        lemma_trim_back_of(t, rest, p);
    }
}

/// A trimmed text has lost the whitespace around it and nothing else; an unquoted one the
/// quotes around it and nothing else.
pub proof fn only_the_edges_are_trimmed(a: Seq<char>, t: Seq<char>, b: Seq<char>)
    requires
        t.len() > 0,
    ensures
        (forall|k: int| 0 <= k < a.len() ==> is_whitespace(#[trigger] a[k])) && (forall|k: int|
            0 <= k < b.len() ==> is_whitespace(#[trigger] b[k])) && !is_whitespace(t[0])
            && !is_whitespace(t.last()) ==> trimmed(a + t + b) == t,
        (forall|k: int| 0 <= k < a.len() ==> #[trigger] a[k] == '"' || a[k] == '\'') && (forall|
            k: int,
        |
            0 <= k < b.len() ==> #[trigger] b[k] == '"' || b[k] == '\'') && t[0] != '"' && t[0]
            != '\'' && t.last() != '"' && t.last() != '\'' ==> unquoted(a + t + b) == t,
{
    let space = |c: char| is_whitespace(c);
    let quote = |c: char| c == '\'' || c == '"';
    assert(a + t + b =~= a + (t + b));
    if (forall|k: int| 0 <= k < a.len() ==> is_whitespace(#[trigger] a[k])) && (forall|k: int|
        0 <= k < b.len() ==> is_whitespace(#[trigger] b[k])) && !is_whitespace(t[0])
        && !is_whitespace(t.last()) {
        assert((t + b)[0] == t[0]);
        lemma_trim_front_of(a, t + b, space);
        lemma_trim_back_of(t, b, space);
    }
    if (forall|k: int| 0 <= k < a.len() ==> #[trigger] a[k] == '"' || a[k] == '\'') && (forall|
        k: int,
    |
        0 <= k < b.len() ==> #[trigger] b[k] == '"' || b[k] == '\'') && t[0] != '"' && t[0] != '\''
        && t.last() != '"' && t.last() != '\'' {
        assert((t + b)[0] == t[0]);
        lemma_trim_front_of(a, t + b, quote);
        lemma_trim_back_of(t, b, quote);
    }
}

/// A number is written in digits, and reads as the number that was written.
pub proof fn numbers_read_as_written(n: nat)
    ensures
        number_of(decimal(n)) == n,
        decimal(n).len() > 0,
        forall|k: int| 0 <= k < decimal(n).len() ==> is_digit(#[trigger] decimal(n)[k]),
        decimal(n)[0] == '0' ==> n == 0,
    decreases n,
{
    let s = decimal(n);
    assert(number_of(Seq::<char>::empty()) == 0);
    if n < 10 {
        assert(s.drop_last() =~= Seq::<char>::empty());
        assert(s.last() == digit_char(n));
    } else {
        numbers_read_as_written(n / 10);
        assert(s.drop_last() =~= decimal(n / 10));
        assert(s.last() == digit_char(n % 10));
        assert(s[0] == decimal(n / 10)[0]);
        assert forall|k: int| 0 <= k < s.len() implies is_digit(#[trigger] s[k]) by {
            if k < s.len() - 1 {
                assert(s[k] == decimal(n / 10)[k]);
            }
        }
        assert(n == n / 10 * 10 + n % 10) by (nonlinear_arith);
    }
}

/// What counts as a path: a word of letters, digits and `_ / . - + * ?` that holds a `/` or
/// a `.`, unless it begins with `-`. A word with another character in it, or with neither a
/// `/` nor a `.`, counts as none, and neither does one that is written as a number.
pub proof fn words_with_a_slash_are_paths(w: Seq<char>)
    ensures
        is_path_argument(w) ==> w.len() > 0 && w[0] != '-' && (w.contains('/') || w.contains('.')),
        is_path_argument(w) ==> forall|i: int|
            0 <= i < w.len() ==> is_name_char(#[trigger] w[i]) || w[i] == '/' || w[i] == '.' || w[i]
                == '-' || w[i] == '+' || w[i] == '*' || w[i] == '?',
        w.len() > 0 && (w[0] == '/' || w[0] == '_') && w.contains('/') && (forall|i: int|
            0 <= i < w.len() ==> is_name_char(#[trigger] w[i]) || w[i] == '/')
            ==> is_path_argument(w),
        w.len() > 1 && w[0] == '.' && w[1] == '/' && (forall|i: int|
            1 <= i < w.len() ==> is_name_char(#[trigger] w[i]) || w[i] == '/')
            ==> is_path_argument(w),
        w.len() > 2 && w[0] == '.' && w[1] == '.' && w[2] == '/' && (forall|i: int|
            2 <= i < w.len() ==> is_name_char(#[trigger] w[i]) || w[i] == '/')
            ==> is_path_argument(w),
        (forall|i: int| 0 <= i < w.len() ==> is_digit(#[trigger] w[i]) || w[i] == '.')
            && w.len() > 0 && is_digit(w[0]) && (forall|i: int|
            0 <= i < w.len() && #[trigger] w[i] == '.' ==> i + 1 < w.len() && is_digit(w[i + 1]))
            ==> !is_path_argument(w),
{
    if w.len() > 0 && (w[0] == '/' || w[0] == '_') && w.contains('/') && (forall|i: int|
        0 <= i < w.len() ==> is_name_char(#[trigger] w[i]) || w[i] == '/') {
        assert(is_name_char(w[0]) || w[0] == '/');
        assert(!is_range(w));
        assert(!is_script(w));
    }
    if w.len() > 1 && w[0] == '.' && w[1] == '/' && (forall|i: int|
        1 <= i < w.len() ==> is_name_char(#[trigger] w[i]) || w[i] == '/') {
        assert(w.contains('.'));
        assert(!is_range(w)) by {
            if is_range(w) {
                let i = choose|i: int|
                    0 <= i < w.len() && #[trigger] spans_at(w, i);
                assert(is_name_char(w[i + 1]) || w[i + 1] == '/');
            }
        }
    }
    if w.len() > 2 && w[0] == '.' && w[1] == '.' && w[2] == '/' && (forall|i: int|
        2 <= i < w.len() ==> is_name_char(#[trigger] w[i]) || w[i] == '/') {
        assert(w.contains('.'));
        assert(!is_range(w)) by {
            if is_range(w) {
                let i = choose|i: int|
                    0 <= i < w.len() && #[trigger] spans_at(w, i);
                if i > 0 {
                    assert(is_name_char(w[i + 1]) || w[i + 1] == '/');
                }
            }
        }
    }
    if (forall|i: int| 0 <= i < w.len() ==> is_digit(#[trigger] w[i]) || w[i] == '.') && w.len() > 0
        && is_digit(w[0]) {
        assert(!w.contains('/')) by {
            if w.contains('/') {
                let i = choose|i: int| 0 <= i < w.len() && w[i] == '/';
                assert(is_digit(w[i]) || w[i] == '.');
            }
        }
    }
}

/// An allowance and a denial are answered, with the reason of the result, or in its absence
/// with a word; neither passthrough is.
pub proof fn decisions_are_answered(result: ResultView)
    ensures
        result.decision == Decision::Allow ==> answer_to(result) == Some(
            OutputView {
                hook_event_name: "PreToolUse"@,
                verdict: "allow"@,
                reason: if result.reason is Some {
                    result.reason->0
                } else {
                    "Allowed"@
                },
                suppress_output: true,
            },
        ),
        result.decision == Decision::Deny ==> answer_to(result) == Some(
            OutputView {
                hook_event_name: "PreToolUse"@,
                verdict: "deny"@,
                reason: if result.reason is Some {
                    result.reason->0
                } else {
                    "Denied"@
                },
                suppress_output: true,
            },
        ),
        result.decision == Decision::Passthrough || result.decision == Decision::ForcePassthrough
            ==> answer_to(result) is None,
{
}

/// A report tells the decision, and then, each on a line of its own and each only if there
/// is one, the reason, the table with the number of the rule, and the source.
pub proof fn reports_tell_all_of_a_result(result: ResultView)
    ensures
        ({
            let head = "Decision: "@ + (match result.decision {
                Decision::Allow => "ALLOW"@,
                Decision::Deny => "DENY"@,
                Decision::Passthrough => "PASSTHROUGH"@,
                Decision::ForcePassthrough => "FORCE PASSTHROUGH"@,
            }) + "\n"@;
            let why = if result.reason is Some {
                "Reason: "@ + result.reason->0 + "\n"@
            } else {
                Seq::empty()
            };
            let from = if result.table is Some && result.rule_index is Some {
                "Table: "@ + result.table->0 + ", Rule: "@ + decimal(result.rule_index->0 as nat)
                    + "\n"@
            } else if result.table is Some {
                "Table: "@ + result.table->0 + "\n"@
            } else {
                Seq::empty()
            };
            report_text(result) == head + why + from + "Source: "@ + result.source + "\n"@
        }),
        decision_name(result.decision) == match result.decision {
            Decision::Allow => "allow"@,
            Decision::Deny => "deny"@,
            Decision::Passthrough => "passthrough"@,
            Decision::ForcePassthrough => "force_passthrough"@,
        },
{
}

/// A check of a `Bash` call has a command, and one of a file tool a path.
pub proof fn checks_have_the_field_of_their_tool(
    tool: Seq<char>,
    command: Seq<char>,
    path: Seq<char>,
)
    ensures
        tool == "Bash"@ ==> check_fields(tool, command, path) == map!["command"@ => command],
        tool == "Read"@ || tool == "Write"@ || tool == "Edit"@ || tool == "MultiEdit"@ || tool
            == "Glob"@ ==> check_fields(tool, command, path) == map!["file_path"@ => path],
        tool == "Task"@ ==> check_fields(tool, command, path) == Map::<
            Seq<char>,
            Seq<char>,
        >::empty(),
{
    reveal_strlit("Bash");
    reveal_strlit("Read");
    reveal_strlit("Write");
    reveal_strlit("Edit");
    reveal_strlit("MultiEdit");
    reveal_strlit("Glob");
    reveal_strlit("Task");
    assert("Bash"@[0] == 'B' && "Read"@[0] == 'R' && "Write"@[0] == 'W' && "Edit"@[0] == 'E'
        && "MultiEdit"@[0] == 'M' && "Glob"@[0] == 'G' && "Task"@[0] == 'T');
    if tool == "Task"@ {
        assert(fields_of(tool).len() == 2);
        assert(seq!["file_path"@].len() == 1);
    }
}

/// Of several variables of a name the first counts.
pub proof fn the_first_variable_counts(
    vars: Seq<(String, String)>,
    name: Seq<char>,
    from: int,
    i: int,
)
    requires
        0 <= from <= i <= vars.len(),
        forall|k: int| from <= k < i ==> (#[trigger] vars[k]).0@ != name,
    ensures
        i < vars.len() && vars[i].0@ == name ==> var_from(vars, name, from) == Some(vars[i].1@),
        i == vars.len() ==> var_from(vars, name, from) is None,
    decreases i - from,
{
    if from < i {
        assert(vars[from].0@ != name);
        the_first_variable_counts(vars, name, from + 1, i);
    }
}

/// The rules of a project are those of all its files, file by file; one file in error, or one
/// pattern that does not compile, is an error of the whole.
pub proof fn project_rules_come_from_every_file(
    files: Seq<LocalFile>,
    i: int,
    acc: Seq<RuleView>,
    rules: Seq<RuleView>,
)
    requires
        0 <= i < files.len(),
    ensures
        local_rules_of(files[i].content@, files[i].path@) == Ok::<Seq<RuleView>, ErrorView>(rules)
            ==> gathered(files, i, acc) == gathered(files, i + 1, acc + rules),
        local_rules_of(files[i].content@, files[i].path@) matches Err(e) ==> gathered(
            files,
            i,
            acc,
        ) == Err::<Seq<RuleView>, ErrorView>(e),
        gathered(files, files.len() as int, acc) == Ok::<Seq<RuleView>, ErrorView>(acc),
        project_rules(files) matches Ok(all) ==> gathered(files, 0, Seq::empty()) == Ok::<
            Seq<RuleView>,
            ErrorView,
        >(all) && rules_pattern_fault(all, 0) is None,
        gathered(files, 0, Seq::empty()) matches Ok(all) ==> (rules_pattern_fault(all, 0) is None
            ==> project_rules(files) == Ok::<Seq<RuleView>, ErrorView>(all)) && (
        rules_pattern_fault(all, 0) is Some ==> project_rules(files) is Err),
{
}

/// Texts are ordered as words in a dictionary: by the first character in which they differ,
/// and a text that another begins with stands in front of it.
pub proof fn texts_are_ordered_by_the_first_difference(
    front: Seq<char>,
    a: Seq<char>,
    b: Seq<char>,
)
    ensures
        at_most(front, front + b),
        b.len() > 0 ==> !at_most(front + b, front),
        a.len() > 0 && b.len() > 0 && a[0] < b[0] ==> at_most(front + a, front + b) && !at_most(
            front + b,
            front + a,
        ),
    decreases front.len(),
{
    let x = front + a;
    let y = front + b;
    if front.len() == 0 {
        assert(x =~= a);
        assert(y =~= b);
    } else {
        let rest = front.skip(1);
        texts_are_ordered_by_the_first_difference(rest, a, b);
        assert(x.skip(1) =~= rest + a);
        assert(y.skip(1) =~= rest + b);
        assert(x[0] == front[0] && y[0] == front[0]);
    }
}

/// Whether a character can stand in a path that is written without quotes.
pub open spec fn can_be_in_a_path(c: char) -> bool {
    is_name_char(c) || c == '/' || c == '.' || c == '-' || c == '+' || c == '*' || c == '?'
}

/// A word of path characters with a `/` or a `.` in it is a path, unless it begins with `-`,
/// with a digit or with `v` and a digit, holds two dots in a row, or begins with `s/`. A word
/// with two dots between names is a range, `s/../../` a script, and neither is a path; a
/// version number is none either.
pub proof fn ranges_scripts_and_versions_are_no_paths(
    w: Seq<char>,
    a: Seq<char>,
    b: Seq<char>,
    i: int,
)
    ensures
        w.len() > 0 && (forall|k: int| 0 <= k < w.len() ==> can_be_in_a_path(#[trigger] w[k])) && (
        w.contains('/') || w.contains('.')) && w[0] != '-' && !is_digit(w[0]) && !(w.len() > 1
            && w[0] == 'v' && is_digit(w[1])) && !(w.len() > 1 && w[0] == 's' && w[1] == '/') && (
        forall|k: int|
            0 <= k && k + 1 < w.len() ==> !(#[trigger] w[k] == '.' && w[k + 1] == '.'))
            ==> is_path_argument(w),
        0 < i && i + 1 < w.len() && w[i] == '.' && w[i + 1] == '.' && w[i - 1] != '/'
            ==> !is_path_argument(w),
        0 <= i && i + 2 < w.len() && w[i] == '.' && w[i + 1] == '.' && w[i + 2] != '/'
            ==> !is_path_argument(w),
        !a.contains('/') && !b.contains('/') ==> !is_path_argument(
            seq!['s', '/'] + a + seq!['/'] + b + seq!['/'],
        ),
        w.len() > 1 && w[0] == 'v' && is_digit(w[1]) && (forall|k: int|
            1 <= k < w.len() ==> is_digit(#[trigger] w[k])) ==> !is_path_argument(w),
        w.len() > 0 && w[0] == '-' ==> !is_path_argument(w),
        w.contains(' ') || w.contains('=') || w.contains(':') || w.contains('$')
            ==> !is_path_argument(w),
{
    if w.len() > 0 && (forall|k: int| 0 <= k < w.len() ==> can_be_in_a_path(#[trigger] w[k]))
        && w[0] != '-' && (forall|k: int|
        0 <= k && k + 1 < w.len() ==> !(#[trigger] w[k] == '.' && w[k + 1] == '.')) {
        assert forall|k: int| 0 <= k < w.len() implies is_path_char(#[trigger] w[k]) by {
            assert(can_be_in_a_path(w[k]));
        }
        assert(!is_range(w));
    }
    if 0 < i && i + 1 < w.len() && w[i] == '.' && w[i + 1] == '.' && w[i - 1] != '/' {
        assert(spans_at(w, i));
    }
    if 0 <= i && i + 2 < w.len() && w[i] == '.' && w[i + 1] == '.' && w[i + 2] != '/' {
        assert(spans_at(w, i));
    }
    if !a.contains('/') && !b.contains('/') {
        let s = seq!['s', '/'] + a + seq!['/'] + b + seq!['/'];
        assert(s =~= seq!['s'] + seq!['/'] + a + seq!['/'] + b + seq!['/']);
        lemma_no_slashes(seq!['s']);
        lemma_slashes(seq!['s'], seq!['/'] + a);
        lemma_slash_led(a);
        lemma_slash_led(b);
        lemma_slash_led(Seq::empty());
        assert(seq!['/'] + Seq::<char>::empty() =~= seq!['/']);
        let one = seq!['s'] + (seq!['/'] + a);
        lemma_slashes(one, seq!['/'] + b);
        let two = one + (seq!['/'] + b);
        lemma_slashes(two, seq!['/']);
        assert(s =~= two + seq!['/']);
        assert(s[0] == 's' && s[1] == '/');
        assert(is_script(s));
    }
    if w.len() > 1 && w[0] == 'v' && (forall|k: int|
        1 <= k < w.len() ==> is_digit(#[trigger] w[k])) {
        assert(!w.contains('/')) by {
            if w.contains('/') {
                let k = choose|k: int| 0 <= k < w.len() && w[k] == '/';
                assert(k > 0);
                assert(is_digit(w[k]));
            }
        }
        assert(!w.contains('.')) by {
            if w.contains('.') {
                let k = choose|k: int| 0 <= k < w.len() && w[k] == '.';
                assert(k > 0);
                assert(is_digit(w[k]));
            }
        }
    }
    assert(!is_path_char(' ') && !is_path_char('=') && !is_path_char(':') && !is_path_char('$'));
    if w.contains(' ') {
        let k = choose|k: int| 0 <= k < w.len() && w[k] == ' ';
        assert(!is_path_char(w[k]));
    }
    if w.contains('=') {
        let k = choose|k: int| 0 <= k < w.len() && w[k] == '=';
        assert(!is_path_char(w[k]));
    }
    if w.contains(':') {
        let k = choose|k: int| 0 <= k < w.len() && w[k] == ':';
        assert(!is_path_char(w[k]));
    }
    if w.contains('$') {
        let k = choose|k: int| 0 <= k < w.len() && w[k] == '$';
        assert(!is_path_char(w[k]));
    }
}

proof fn lemma_slashes(a: Seq<char>, b: Seq<char>)
    ensures
        slashes(a + b) == slashes(a) + slashes(b),
    decreases b.len(),
{
    if b.len() == 0 {
        assert(a + b =~= a);
    } else {
        assert((a + b).last() == b.last());
        assert((a + b).drop_last() =~= a + b.drop_last());
        lemma_slashes(a, b.drop_last());
    }
}

proof fn lemma_no_slashes(a: Seq<char>)
    requires
        !a.contains('/'),
    ensures
        slashes(a) == 0,
    decreases a.len(),
{
    if a.len() > 0 {
        assert(a.contains(a.last()));
        assert(!a.drop_last().contains('/')) by {
            if a.drop_last().contains('/') {
                let k = choose|k: int| 0 <= k < a.drop_last().len() && a.drop_last()[k] == '/';
                assert(a[k] == '/');
            }
        }
        lemma_no_slashes(a.drop_last());
    }
}

proof fn lemma_slash_led(a: Seq<char>)
    requires
        !a.contains('/'),
    ensures
        slashes(seq!['/'] + a) == 1,
{
    lemma_no_slashes(a);
    let one = seq!['/'];
    assert(one.drop_last() =~= Seq::<char>::empty());
    assert(slashes(one.drop_last()) == 0);
    assert(slashes(one) == 1);
    lemma_slashes(one, a);
}

/// A file holds rules if its name ends in `.perm` with something in front of the dot; a file
/// with another extension, or without one, does not.
pub proof fn rules_files_end_in_perm(stem: Seq<char>, ext: Seq<char>)
    requires
        stem.len() > 0,
        !stem.contains('/'),
        !ext.contains('/'),
        !ext.contains('.'),
        stem + seq!['.'] + ext != seq!['.', '.'],
    ensures
        is_rules_file(stem + seq!['.'] + ext) <==> ext == "perm"@,
        !stem.contains('.') ==> !is_rules_file(stem),
{
    let name = stem + seq!['.'] + ext;
    assert(!name.contains('/')) by {
        if name.contains('/') {
            let k = choose|k: int| 0 <= k < name.len() && name[k] == '/';
            if k < stem.len() {
                assert(stem[k] == '/');
            } else if k > stem.len() {
                assert(ext[k - stem.len() - 1] == '/');
            }
        }
    }
    assert(name != seq!['.']) by {
        assert(name.len() >= 2);
    }
    bare_names_are_file_names(name, stem, ext);
    if !stem.contains('.') {
        assert(stem != seq!['.']) by {
            if stem == seq!['.'] {
                assert(stem[0] == '.');
            }
        }
        assert(stem != seq!['.', '.']) by {
            if stem == seq!['.', '.'] {
                assert(stem[0] == '.');
            }
        }
        bare_names_are_file_names(stem, stem, ext);
    }
}

} // verus!

use permiter::config::{
    default_entry_table, default_table_action, leads_outside, Action, AuditConfig, AuditLevel,
    Config, GlobalConfig, TableConfig,
};
use permiter::constants::substitute;
use permiter::dsl::{lex, parse_dsl, parse_local_rules, Parser, Token};
use permiter::engine::{
    evaluate, evaluate_table, evaluate_with_local, AuditRecord, Decision, EvalContext, EvalResult,
    ToolInput,
};
use permiter::error::Error;
use permiter::local::{load_local_rules, LocalFile, LocalRuleSet};
use permiter::paths::{has_perm_extension, join, normalize_path, parent_of};
use permiter::patterns::{exact_pattern, RegexCache};
use permiter::report::{check_input, report, validation_report};
use permiter::shell_parser::{home_or_default, parse_commands, resolve_path};
use permiter::strmap::StrMap;
use permiter::world::{env_strings, home_of, FileFacts, World};

fn fields(pairs: &[(&str, &str)]) -> ToolInput {
    let mut fields = StrMap::new();
    for (name, text) in pairs {
        fields.insert(name.to_string(), text.to_string());
    }
    ToolInput { fields }
}

fn bash(command: &str) -> ToolInput {
    fields(&[("command", command)])
}

fn run(
    config: &Config,
    tool: &str,
    input: &ToolInput,
    local: Option<&LocalRuleSet>,
    trail: &mut Vec<AuditRecord>,
) -> Result<EvalResult, Error> {
    let files = FileFacts::new();
    let world = World { home: "/root", env: &[], files: &files };
    evaluate_with_local(config, tool, input, "/home/user", local, world, trail)
}

fn decide(text: &str, command: &str) -> Decision {
    let config = parse_dsl(text).unwrap();
    run(&config, "Bash", &bash(command), None, &mut Vec::new()).unwrap().decision
}

const ALL: [Decision; 4] =
    [Decision::Allow, Decision::Passthrough, Decision::ForcePassthrough, Decision::Deny];

#[test]
fn merging_takes_the_stricter() {
    for i in 0..4 {
        for j in 0..4 {
            assert_eq!(ALL[i].merge(ALL[j]), ALL[if i > j { i } else { j }]);
            assert_eq!(ALL[i].merge(ALL[j]), ALL[j].merge(ALL[i]));
            for k in 0..4 {
                let left = ALL[i].merge(ALL[j]).merge(ALL[k]);
                assert_eq!(left, ALL[i].merge(ALL[j].merge(ALL[k])));
            }
        }
    }
}

#[test]
fn the_strictest_command_decides() {
    let text = "table input default allow {
        command /^a/ -> passthrough
        command /^b/ -> force passthrough
        command /^c/ -> deny
    }";
    assert_eq!(decide(text, "x; y"), Decision::Allow);
    assert_eq!(decide(text, "x; a; y"), Decision::Passthrough);
    assert_eq!(decide(text, "b | a | x"), Decision::ForcePassthrough);
    assert_eq!(decide(text, "a && b || c && x"), Decision::Deny);
}

#[test]
fn of_equally_strict_results_the_later_is_given() {
    let config = parse_dsl(
        "table input default deny {
        command /^a/ -> allow \"first\"
        command /^b/ -> allow \"second\"
    }",
    )
    .unwrap();
    let result = run(&config, "Bash", &bash("a; b"), None, &mut Vec::new()).unwrap();
    assert_eq!(result.reason.as_deref(), Some("second"));
    assert_eq!(result.rule_index, Some(1));
}

#[test]
fn the_first_matching_rule_decides() {
    let text = "table input default deny {
        command /^l/ -> passthrough
        command /^ls/ -> allow
    }";
    assert_eq!(decide(text, "ls"), Decision::Passthrough);
    assert_eq!(decide(text, "x"), Decision::Deny);
}

#[test]
fn exceptions_keep_rules_from_matching() {
    let text = "table input default deny {
        command /^curl/ arg /^http/ !arg /evil/ -> allow
        command /^cat/ !stdin /secret/ !stdout /secret/ !cwd /^\\/etc/ !env /^K=/ -> allow
    }";
    assert_eq!(decide(text, "curl http://a"), Decision::Allow);
    assert_eq!(decide(text, "curl -s"), Decision::Deny);
    assert_eq!(decide(text, "curl http://evil"), Decision::Deny);
    assert_eq!(decide(text, "cat < a > b"), Decision::Allow);
    assert_eq!(decide(text, "cat < secret"), Decision::Deny);
    assert_eq!(decide(text, "cat >> secret"), Decision::Deny);
    assert_eq!(decide(text, "cd /etc; cat"), Decision::Deny);
    assert_eq!(decide(text, "K=1 cat"), Decision::Deny);
}

#[test]
fn a_rule_without_conditions_matches_everything() {
    let config = parse_dsl("table input default deny { -> allow }").unwrap();
    for tool in ["Bash", "Read", "Task", "mcp__x"] {
        let result = run(&config, tool, &bash("x"), None, &mut Vec::new()).unwrap();
        assert_eq!(result.decision, Decision::Allow);
    }
}

#[test]
fn a_bare_tool_name_matches_that_tool_alone() {
    let config = parse_dsl("table input default deny { mcp_tool -> allow }").unwrap();
    for (tool, decision) in [
        ("mcp_tool", Decision::Allow),
        ("mcp_tools", Decision::Deny),
        ("a_mcp_tool", Decision::Deny),
        ("mcp_tool\n", Decision::Deny),
    ] {
        let result = run(&config, tool, &fields(&[]), None, &mut Vec::new()).unwrap();
        assert_eq!(result.decision, decision, "{tool}");
    }
}

#[test]
fn exact_patterns_escape_what_patterns_mean() {
    assert_eq!(exact_pattern("a.b-c"), r"^a\.b\-c$");
    let cache = RegexCache::new();
    assert_eq!(cache.matches(&exact_pattern("a.b"), "a.b").unwrap(), true);
    assert_eq!(cache.matches(&exact_pattern("a.b"), "axb").unwrap(), false);
    assert_eq!(cache.matches(&exact_pattern("(*"), "(*").unwrap(), true);
}

#[test]
fn the_cache_changes_no_answer() {
    let empty = RegexCache::default();
    let filled = RegexCache::new().with("^a+$").unwrap().with("b").unwrap().with("b").unwrap();
    let copy = filled.clone();
    for text in ["a", "aa", "ab", "b", ""] {
        for pattern in ["^a+$", "b"] {
            let answer = empty.matches(pattern, text).unwrap();
            assert_eq!(filled.matches(pattern, text).unwrap(), answer);
            assert_eq!(copy.matches(pattern, text).unwrap(), answer);
        }
    }
    assert!(empty.matches("[", "x").is_err());
    assert!(filled.with("[").is_err());
}

const CIRCLE: &str = "table input default allow { Bash command /^ls/ -> forward b
    Read -> forward b
    mcp -> forward b }
table b default allow { -> forward c }
table c default allow { -> forward b }";

#[test]
fn forwarding_in_a_circle_is_a_denial() {
    let config = parse_dsl(CIRCLE).unwrap();
    for (tool, input) in
        [("Bash", bash("ls")), ("Read", fields(&[("file_path", "/x")])), ("mcp", fields(&[]))]
    {
        let result = run(&config, tool, &input, None, &mut Vec::new()).unwrap();
        assert_eq!(result.decision, Decision::Deny);
        assert_eq!(result.reason.as_deref(), Some("Cycle detected: table 'b' already visited"));
        assert_eq!(result.table.as_deref(), Some("b"));
        assert_eq!(result.rule_index, None);
    }
    let result = run(&config, "Bash", &bash("pwd"), None, &mut Vec::new()).unwrap();
    assert_eq!(result.decision, Decision::Allow);
}

#[test]
fn visited_tables_are_noted() {
    let config = parse_dsl(CIRCLE).unwrap();
    let input = bash("ls");
    let ctx = EvalContext {
        tool_name: "Bash",
        tool_input: &input,
        check_string: "ls",
        field_name: "command",
        cwd: "/",
        moved: false,
        args: &[],
        written: &[],
        redirects_in: &[],
        redirects_out: &[],
        env_vars: &[],
    };
    let files = FileFacts::new();
    let world = World { home: "/root", env: &[], files: &files };
    let mut visited = vec!["x".to_string()];
    assert!(evaluate_table(&config, "input", &ctx, &mut visited, world, &mut Vec::new()).is_err());
    assert_eq!(visited, vec!["x", "input", "b", "c"]);
}

#[test]
fn wrapper_commands_nest_five_deep() {
    let text = "table input default allow {
        command /^w\\b/ -> evaluate skip 0
        command /^bad\\b/ -> deny \"bad\"
    }";
    let config = parse_dsl(text).unwrap();
    let reason = |command: &str| {
        let result = run(&config, "Bash", &bash(command), None, &mut Vec::new()).unwrap();
        (result.decision, result.reason.unwrap())
    };
    assert_eq!(reason("w w w w w bad").1, "bad");
    assert_eq!(reason("w w w w w fine").0, Decision::Allow);
    assert_eq!(
        reason("w w w w w w fine"),
        (Decision::Deny, "Maximum wrapper depth exceeded".to_string())
    );
}

#[test]
fn wrapped_commands_are_found_behind_flags_and_positionals() {
    let text = "table input default deny {
        command /^sh\\b/ -> evaluate flag -c
        command /^sudo\\b/ -> evaluate opts [-u, -g]
        command /^timeout\\b/ -> evaluate skip 1
        command /^ls\\b/ -> allow
    }";
    assert_eq!(decide(text, "sh -x -c 'ls /'"), Decision::Allow);
    assert_eq!(decide(text, "sh -c"), Decision::Deny);
    assert_eq!(decide(text, "sh -c ''"), Decision::Deny);
    assert_eq!(decide(text, "sudo -u root -E ls"), Decision::Allow);
    assert_eq!(decide(text, "sudo -E root ls"), Decision::Deny);
    assert_eq!(decide(text, "sudo -u"), Decision::Deny);
    assert_eq!(decide(text, "sudo -- ls -u"), Decision::Allow);
    assert_eq!(decide(text, "timeout -k 5 ls"), Decision::Allow);
    assert_eq!(decide(text, "timeout 5 ls"), Decision::Allow);
    assert_eq!(decide(text, "timeout 5 sudo sh -c 'ls; ls'"), Decision::Allow);
    assert_eq!(decide(text, "timeout 5 sudo sh -c 'ls; rm'"), Decision::Deny);
}

#[test]
fn evaluate_names_its_target_in_either_place() {
    let rest = "table other default allow { }";
    for action in ["evaluate flag -c target other", "evaluate other flag -c", "evaluate target other"] {
        let text = format!("table input default deny {{ command /^sh/ -> {action} \"why\" }} {rest}");
        let config = parse_dsl(&text).unwrap();
        let rule = &config.table.get("input").unwrap().rules[0];
        assert_eq!(rule.target.as_deref(), Some("other"), "{action}");
        assert_eq!(rule.reason.as_deref(), Some("why"));
    }
    let config = parse_dsl("table input default deny { -> evaluate target }\ntable target default deny { }");
    assert_eq!(config.unwrap().table.get("input").unwrap().rules[0].target.as_deref(), Some("target"));
}

fn project() -> LocalRuleSet {
    let file = LocalFile {
        path: "p.perm".to_string(),
        content: "Bash command /^a/ -> allow \"own\"\nBash command /^d/ -> deny\nRead -> deny\nmcp -> allow"
            .to_string(),
    };
    load_local_rules("/p/.permiter", &[file]).unwrap()
}

#[test]
fn project_rules_replace_a_plain_passthrough_only() {
    let local = project();
    let decide = |head: &str, default: &str, command: &str| {
        let config = parse_dsl(&format!("{head} table input default {default} {{ }}")).unwrap();
        let result = run(&config, "Bash", &bash(command), Some(&local), &mut Vec::new()).unwrap();
        (result.decision, result.source)
    };
    let on = "local_rules = true";
    assert_eq!(decide(on, "passthrough", "a"), (Decision::Allow, "/p/.permiter".to_string()));
    assert_eq!(decide(on, "passthrough", "a; d"), (Decision::Deny, "/p/.permiter".to_string()));
    assert_eq!(decide(on, "passthrough", "x"), (Decision::Passthrough, "global".to_string()));
    assert_eq!(decide(on, "passthrough", "x; a").0, Decision::Passthrough);
    assert_eq!(decide(on, "passthrough", "a; x").0, Decision::Passthrough);
    assert_eq!(decide(on, "passthrough", "x; d").0, Decision::Deny);
    assert_eq!(decide(on, "passthrough", "a 1; a 2").0, Decision::Allow);
    assert_eq!(decide(on, "deny", "a").0, Decision::Deny);
    assert_eq!(decide(on, "allow", "d").0, Decision::Allow);
    assert_eq!(decide(on, "force passthrough", "a").0, Decision::ForcePassthrough);
    assert_eq!(decide("local_rules false", "passthrough", "a").0, Decision::Passthrough);
    assert_eq!(decide("", "passthrough", "a").0, Decision::Passthrough);
}

#[test]
fn project_rules_see_other_tools() {
    let local = project();
    let config = parse_dsl("local_rules true table input default passthrough { }").unwrap();
    let read = fields(&[("file_path", "/x")]);
    let result = run(&config, "Read", &read, Some(&local), &mut Vec::new()).unwrap();
    assert_eq!((result.decision, result.reason, result.table), (Decision::Deny, None, None));
    let result = run(&config, "mcp", &fields(&[]), Some(&local), &mut Vec::new()).unwrap();
    assert_eq!((result.decision, result.rule_index), (Decision::Allow, Some(3)));
    let result = run(&config, "Task", &fields(&[]), Some(&local), &mut Vec::new()).unwrap();
    assert_eq!(result.decision, Decision::Passthrough);
}

fn logged(level: &str, file: &str) -> Vec<(String, String, Option<usize>)> {
    let text = format!(
        "audit {file} level {level}
        local_rules true
        table input default passthrough {{ command /^a/ -> allow\ncommand /^p/ -> passthrough }}"
    );
    let config = parse_dsl(&text).unwrap();
    let mut trail = Vec::new();
    run(&config, "Bash", &bash("a 1; x; p"), Some(&project()), &mut trail).unwrap();
    trail
        .into_iter()
        .map(|r| (r.check_string, r.result.source, r.result.rule_index))
        .collect()
}

#[test]
fn the_audit_log_gets_what_is_asked_for() {
    let global = |text: &str, i: Option<usize>| (text.to_string(), "global".to_string(), i);
    let own = ("a 1".to_string(), "/p/.permiter".to_string(), Some(0));
    let file = "file \"/tmp/log\"";
    assert_eq!(logged("off", file), vec![]);
    assert_eq!(logged("all", ""), vec![]);
    assert_eq!(
        logged("matched", file),
        vec![global("a 1", Some(0)), global("p", Some(1)), own.clone()]
    );
    assert_eq!(
        logged("all", file),
        vec![global("a 1", Some(0)), global("x", None), global("p", Some(1)), own]
    );
}

#[test]
fn the_audit_log_names_tool_field_and_directory() {
    let config =
        parse_dsl("audit level all file \"f\" table input default deny { Task -> allow }").unwrap();
    let mut trail = Vec::new();
    let input = fields(&[("subagent_type", "s"), ("prompt", "p")]);
    run(&config, "Task", &input, None, &mut trail).unwrap();
    run(&config, "mcp", &input, None, &mut trail).unwrap();
    let entries: Vec<(&str, &str, &str, &str, &str)> = trail
        .iter()
        .map(|r| {
            let name = r.result.decision.name();
            (r.tool.as_str(), r.field.as_str(), r.check_string.as_str(), r.cwd.as_str(), name)
        })
        .collect();
    assert_eq!(
        entries,
        vec![
            ("Task", "subagent_type", "s", "/home/user", "allow"),
            ("Task", "prompt", "p", "/home/user", "allow"),
            ("mcp", "tool", "mcp", "/home/user", "deny"),
        ]
    );
}

#[test]
fn knowing_more_changes_no_answer() {
    let config = parse_dsl("table input default deny { has_file \"a/b\" -> allow }").unwrap();
    let ask = |files: &FileFacts| {
        let world = World { home: "/root", env: &[], files };
        evaluate(&config, "Bash", &bash("x"), "/p/q", world, &mut Vec::new())
    };
    let mut files = FileFacts::new();
    let mut asked = Vec::new();
    let answer = loop {
        match ask(&files) {
            Err(Error::Unprobed { path, directory }) => {
                assert!(!directory);
                assert!(!asked.contains(&path));
                asked.push(path.clone());
                let present = path == "/p/a/b";
                files.learn(path, directory, present);
            }
            other => break other.unwrap().decision,
        }
    };
    assert_eq!(answer, Decision::Allow);
    assert_eq!(asked, vec!["/p/q/a/b", "/p/q/.git", "/p/a/b"]);
    files.learn("/p/.git".to_string(), false, true);
    files.learn("/a/b".to_string(), true, true);
    assert_eq!(ask(&files).unwrap().decision, answer);
}

#[test]
fn searching_stops_at_the_top() {
    let config = parse_dsl("table input default allow { !has_file \"a\" -> deny }").unwrap();
    let mut files = FileFacts::new();
    for path in ["/p/a", "/p/.git", "/a", "/.git"] {
        files.learn(path.to_string(), false, false);
    }
    let world = World { home: "/root", env: &[], files: &files };
    let result = evaluate(&config, "Bash", &bash("x"), "/p", world, &mut Vec::new()).unwrap();
    assert_eq!(result.decision, Decision::Deny);
    files.learn("/a".to_string(), false, true);
    let world = World { home: "/root", env: &[], files: &files };
    let result = evaluate(&config, "Bash", &bash("x"), "/p", world, &mut Vec::new()).unwrap();
    assert_eq!(result.decision, Decision::Allow);
}

#[test]
fn the_environment_is_matched() {
    let config = parse_dsl("table input default allow { env /^TOKEN=x$/ -> deny }").unwrap();
    let env = env_strings(&[("A".to_string(), "1".to_string()), ("TOKEN".to_string(), "x".to_string())]);
    assert_eq!(env, vec!["A=1", "TOKEN=x"]);
    let files = FileFacts::new();
    for (env, decision) in [(&env[..], Decision::Deny), (&env[..1], Decision::Allow)] {
        let world = World { home: "/root", env, files: &files };
        let result = evaluate(&config, "Read", &fields(&[]), "/", world, &mut Vec::new()).unwrap();
        assert_eq!(result.decision, decision);
    }
}

#[test]
fn home_comes_from_the_environment() {
    let vars = [("USER".to_string(), "u".to_string()), ("HOME".to_string(), "/h".to_string())];
    assert_eq!(home_of(&vars), "/h");
    assert_eq!(home_of(&vars[..1]), "/root");
    assert_eq!(home_or_default(None), "/root");
}

#[test]
fn no_opinion_has_a_reason() {
    let config = parse_dsl("table input default deny { }").unwrap();
    for (command, reason) in [("", "Empty command"), ("  ", "No commands parsed"), ("cd /x", "No commands parsed")] {
        let result = run(&config, "Bash", &bash(command), None, &mut Vec::new()).unwrap();
        assert_eq!(result.decision, Decision::Passthrough);
        assert_eq!(result.reason.as_deref(), Some(reason));
        assert_eq!((result.table, result.rule_index), (None, None));
    }
}

#[test]
fn results_say_where_they_come_from() {
    let config = parse_dsl("table input default deny { x -> allow\n command /^rm/ -> deny }").unwrap();
    let result = run(&config, "Bash", &bash("rm x"), None, &mut Vec::new()).unwrap();
    assert_eq!(result.reason.as_deref(), Some("Denied by rule 1 in table 'input'"));
    assert_eq!(
        report(&result),
        "Decision: DENY\nReason: Denied by rule 1 in table 'input'\nTable: input, Rule: 1\nSource: global\n"
    );
    let result = run(&config, "Bash", &bash("ls"), None, &mut Vec::new()).unwrap();
    assert_eq!(
        report(&result),
        "Decision: DENY\nReason: Default action in table 'input'\nTable: input\nSource: global\n"
    );
    let bare = EvalResult {
        decision: Decision::ForcePassthrough,
        reason: None,
        table: None,
        rule_index: None,
        source: "/p".to_string(),
    };
    assert_eq!(report(&bare), "Decision: FORCE PASSTHROUGH\nSource: /p\n");
}

#[test]
fn summaries_list_the_tables() {
    let config = parse_dsl(
        "local_rules true entry b
        table b default force passthrough { -> allow\n -> deny }
        table a default deny { }",
    )
    .unwrap();
    let summary = "Entry table: b\n  Table 'b': 2 rules, default=ForcePassthrough\n  Table 'a': 0 rules, default=Deny";
    assert_eq!(config.summary(), summary);
    assert_eq!(
        validation_report(&config),
        format!("Config valid.\nLocal rules: enabled\n{summary}\n")
    );
}

#[test]
fn checks_fill_the_field_of_the_tool() {
    let some = |s: &str| Some(s.to_string());
    let input = check_input("Bash", some("ls"), some("/f"));
    assert_eq!((input.text("command"), input.text("file_path")), ("ls", ""));
    for tool in ["Read", "Write", "Edit", "MultiEdit", "Glob"] {
        let input = check_input(tool, some("ls"), some("/f"));
        assert_eq!((input.text("command"), input.text("file_path")), ("", "/f"));
    }
    assert_eq!(check_input("Task", some("ls"), some("/f")).fields.len(), 0);
    assert_eq!(check_input("Bash", None, None).text("command"), "");
}

#[test]
fn defaults_are_as_documented() {
    assert_eq!(default_entry_table(), "input");
    assert_eq!(default_table_action(), Action::Deny);
    let global = GlobalConfig::default();
    assert_eq!((global.entry_table.as_str(), global.local_rules), ("input", false));
    let audit = AuditConfig::default();
    assert_eq!((audit.audit_file, audit.audit_level), (None, AuditLevel::Off));
    assert_eq!(AuditLevel::default(), AuditLevel::Off);
    assert_eq!(Config::empty().table.len(), 0);
}

#[test]
fn constants_are_put_in_place() {
    let mut constants = StrMap::new();
    constants.insert("home".to_string(), "^/h".to_string());
    constants.insert("_x1".to_string(), "X".to_string());
    let put = |s: &str| substitute(s, &constants).map_err(|e| e.message());
    assert_eq!(put("${home}/dev$").unwrap(), "^/h/dev$");
    assert_eq!(put("$home/dev").unwrap(), "^/h/dev");
    assert_eq!(put("a$_x1-${_x1}b").unwrap(), "aX-Xb");
    assert_eq!(put("$1 ${ ${home $").is_err(), false);
    assert_eq!(put("$1 ${ ${home $").unwrap(), "$1 ${ ${home $");
    assert_eq!(put("no reference").unwrap(), "no reference");
    assert!(put("$homes").is_err());
    assert!(put("${none}").is_err());
}

#[test]
fn prepared_configurations_hold_values_of_constants() {
    let mut config = parse_dsl("table input default deny { command /$c/ -> allow }").unwrap();
    config.constants.insert("c".to_string(), "^ls".to_string());
    let config = config.prepare().unwrap();
    assert_eq!(config.table.get("input").unwrap().rules[0].command.as_deref(), Some("^ls"));
    let config = parse_dsl("table input default deny { command /$c/ -> allow }").unwrap();
    assert!(config.prepare().is_err());
}

#[test]
fn later_definitions_replace_earlier_ones() {
    let config = parse_dsl(
        "let a = /1/
        table input default deny { command $a -> allow }
        let a = /2/
        table input default allow { command $a -> deny }",
    )
    .unwrap();
    assert_eq!(config.table.len(), 1);
    let table: &TableConfig = config.table.get("input").unwrap();
    assert_eq!(table.default, Action::Allow);
    assert_eq!(table.rules[0].command.as_deref(), Some("2"));
    assert_eq!(config.constants.get("a").map(|s| s.as_str()), Some("2"));
}

#[test]
fn parsers_go_on_where_they_stopped() {
    let mut parser = Parser::new(lex("let a = /1/ entry x table t default deny { command $a -> allow }").unwrap());
    let config = parser.parse().unwrap();
    assert_eq!(config.global.entry_table, "x");
    assert_eq!(config.table.get("t").unwrap().rules.len(), 1);
    let again = parser.parse().unwrap();
    assert_eq!(again.table.len(), 0);
    assert_eq!(again.constants.len(), 1);
}

#[test]
fn line_breaks_in_a_row_are_one() {
    let tokens = lex("\n\n # c\n\nallow\n\n").unwrap();
    let kinds: Vec<&Token> = tokens.iter().map(|t| &t.token).collect();
    assert_eq!(kinds, vec![&Token::Newline, &Token::Allow, &Token::Newline]);
    let last = &tokens[1].span;
    assert_eq!((last.line, last.col), (5, 1));
}

#[test]
fn strings_resolve_escapes() {
    let tokens = lex(r#""a\n\t\"\\\x" /a\/b/ 42"#).unwrap();
    assert_eq!(tokens[0].token, Token::Str("a\n\t\"\\\\x".to_string()));
    assert_eq!(tokens[1].token, Token::Regex(r"a\/b".to_string()));
    assert_eq!(tokens[2].token, Token::Number(42));
}

#[test]
fn project_files_may_define_variables() {
    let rules = parse_local_rules("let a = /x/\nlet b = $a\n\nRead file_path $b -> passthrough", "p").unwrap();
    assert_eq!(rules.len(), 1);
    assert_eq!(rules[0].file_path.as_deref(), Some("x"));
    assert_eq!(rules[0].action, Action::Passthrough);
}

fn programs(line: &str) -> Vec<(String, String)> {
    parse_commands(line, "/w", "/h")
        .into_iter()
        .map(|c| (c.check_string(), c.effective_cwd))
        .collect()
}

fn at(dir: &str, texts: &[&str]) -> Vec<(String, String)> {
    texts.iter().map(|t| (t.to_string(), dir.to_string())).collect()
}

#[test]
fn separators_split_command_lines() {
    for sep in [";", "\n", "&&", "||", "|", "&", " ; ", " && "] {
        let line = format!("a 1{sep}b 2");
        assert_eq!(programs(&line), at("/w", &["a 1", "b 2"]), "{line}");
        let line = format!("cd /x{sep}b");
        assert_eq!(programs(&line), at("/x", &["b"]), "{line}");
        let line = format!("echo '{sep}'");
        assert_eq!(programs(&line).len(), 1, "{line}");
        let line = format!("echo \"{sep}\"");
        assert_eq!(programs(&line).len(), 1, "{line}");
    }
}

#[test]
fn backslashes_continue_lines() {
    assert_eq!(programs("a \\\n b; c"), programs("a   b; c"));
    assert_eq!(programs("a\\\nb"), at("/w", &["a b"]));
}

#[test]
fn here_documents_are_inert() {
    let one = programs("cat <<EOF\nrm -rf /; $(x)\nEOF\nls");
    let other = programs("cat <<EOF\nEOF\nls");
    assert_eq!(one, other);
    assert_eq!(one, at("/w", &["cat", "ls"]));
}

#[test]
fn the_line_of_a_here_document_is_read_on() {
    assert_eq!(programs("cat <<EOF | sh\nls\nEOF"), at("/w", &["cat", "sh"]));
    assert_eq!(programs("cat <<EOF > f; a\nls\nEOF\nb"), at("/w", &["cat", "a", "b"]));
    assert_eq!(programs("(cat <<EOF) | a\nls\nEOF\nb"), at("/w", &["cat", "a", "b"]));
    assert_eq!(programs("cat <<A | d <<B\n1\nA\n2\nB\nb"), at("/w", &["cat", "d", "b"]));
    assert_eq!(programs("cat <<A <<B\n1\nA\n2\nB\nb"), at("/w", &["cat", "b"]));
    assert_eq!(programs("cat <<EOF x y\nls\nEOF\nb"), at("/w", &["cat x y", "b"]));
    assert_eq!(programs("echo \"$(cat <<'EOF'\nit's\nEOF\n)\"; b"), at("/w", &["cat", "echo", "b"]));
    assert_eq!(programs("echo `cat <<EOF\nls\nEOF\n`; b"), at("/w", &["cat", "echo", "b"]));
    assert_eq!(programs("cat <<EOF\nls\n"), at("/w", &["cat"]));
}

#[test]
fn here_documents_are_written_in_several_ways() {
    for line in ["cat <<EOF", "cat << EOF", "cat <<-EOF", "cat <<'EOF'", "cat <<\"EOF\""] {
        let text = format!("{line}\nrm x\n  EOF\nb");
        assert_eq!(programs(&text), at("/w", &["cat", "b"]), "{line}");
    }
    assert_eq!(programs("cat <<< text\nb\nc"), at("/w", &["cat", "b", "c"]));
    assert_eq!(programs("cat <<<$(a); b"), at("/w", &["a", "cat", "b"]));
}

#[test]
fn directories_are_followed_without_dots() {
    assert_eq!(resolve_path("/home/user", "/tmp/../etc", "/h"), "/etc");
    assert_eq!(resolve_path("/home/user", "/tmp/./a//b/", "/h"), "/tmp/a/b");
    assert_eq!(resolve_path("/home/user", "~/a/../b", "/h"), "/h/b");
    assert_eq!(resolve_path("/home/user", "~/../x", "/h"), "/x");
    assert_eq!(resolve_path("/home/user", "~", "/h"), "/h");
    assert_eq!(resolve_path("/home/user", "../a", "/h"), "/home/a");
    assert_eq!(programs("cd /tmp/../etc; b"), at("/etc", &["b"]));
}

#[test]
fn paths_behind_a_cd_are_resolved() {
    let commands = parse_commands("cd /tmp && rm secret.txt", "/home/user", "/h");
    assert_eq!(commands.len(), 1);
    assert_eq!(commands[0].program, "rm");
    assert_eq!(commands[0].effective_cwd, "/tmp");
    assert_eq!(commands[0].args, vec!["/tmp/secret.txt"]);
    let args = |line: &str| parse_commands(line, "/w", "/h").pop().unwrap().args;
    assert_eq!(args("rm secret.txt"), vec!["secret.txt"]);
    assert_eq!(args("cd a; rm -rf ../b ./c . d/e"), vec!["-rf", "/w/b", "/w/a/c", "/w/a", "/w/a/d/e"]);
    assert_eq!(args("cd a; rm /x/../y.txt"), vec!["/y.txt"]);
    assert_eq!(args("cd a; git status"), vec!["status"]);
    assert_eq!(args("cd a; curl https://x.org/y"), vec!["https://x.org/y"]);
    assert_eq!(args("cd a; sh -c 'rm ./b c.txt'"), vec!["-c", "rm ./b c.txt"]);
    assert_eq!(args("cd a; f --x=./y ~/z a=b.c $V/w"), vec!["--x=./y", "~/z", "a=b.c", "$V/w"]);
    assert_eq!(args("(cd /x); rm a.txt"), vec!["a.txt"]);
    assert_eq!(args("{ cd /x; }; rm a.txt"), vec!["/x/a.txt"]);
    assert_eq!(commands[0].written, vec!["secret.txt"]);
    assert!(commands[0].moved);
    assert!(!parse_commands("rm secret.txt", "/w", "/h")[0].moved);
}

#[test]
fn numbers_and_ranges_are_no_paths() {
    let args = |line: &str| parse_commands(line, "/w", "/h").pop().unwrap().args;
    for word in [
        "0.5", "1.5s", "10.0.0.1", "1.2.3", "v1.2.3", "v2.0-rc1", "3.12rc1", "1.2.3-rc.1", "main..dev",
        "a...b", "HEAD..origin/main", "./...", "..x", "12", "-f.x", "s/a/b/", "s/a.c/b/g",
    ] {
        assert_eq!(args(&format!("cd /tmp; f {word}")), vec![word]);
    }
    for (word, path) in [
        ("1.txt", "/tmp/1.txt"),
        ("2024-01-02.txt", "/tmp/2024-01-02.txt"),
        ("v.x", "/tmp/v.x"),
        ("1.2/x", "/tmp/1.2/x"),
        ("..", "/"),
        ("a/../b", "/tmp/b"),
        ("../x/..", "/"),
        ("a.b/c", "/tmp/a.b/c"),
        ("s/a", "/tmp/s/a"),
        ("s/a/b/c/d", "/tmp/s/a/b/c/d"),
    ] {
        assert_eq!(args(&format!("cd /tmp; f {word}")), vec![path]);
    }
}

#[test]
fn commands_are_checked_as_written() {
    let rm = &parse_commands("cd /tmp && rm ./secret.txt", "/w", "/h")[0];
    assert_eq!(rm.args, vec!["/tmp/secret.txt"]);
    assert_eq!(rm.check_string(), "rm ./secret.txt");
    let text = "table input default allow { command /^git checkout release\\// -> deny
        command /^rm/ arg /^\\/tmp\\// -> deny }";
    assert_eq!(decide(text, "git checkout release/1.0"), Decision::Deny);
    assert_eq!(decide(text, "cd /w && git checkout release/1.0"), Decision::Deny);
    assert_eq!(decide(text, "cd /w && git checkout feature/x"), Decision::Allow);
    assert_eq!(decide(text, "cd /tmp && rm secret.txt"), Decision::Deny);
    assert_eq!(decide(text, "rm secret.txt"), Decision::Allow);
    let text = "table input default allow { arg /^release\\// -> deny
        command /^cat/ !arg /^(\\/w\\/x|y)/ -> force passthrough }";
    assert_eq!(decide(text, "git checkout release/1.0"), Decision::Deny);
    assert_eq!(decide(text, "cd /w && git checkout release/1.0"), Decision::Deny);
    assert_eq!(decide(text, "cd /w && cat z.txt"), Decision::ForcePassthrough);
    assert_eq!(decide(text, "cd /w && cat x.txt"), Decision::Allow);
    assert_eq!(decide(text, "cd /w && cat y.txt"), Decision::Allow);
    assert_eq!(decide(text, "cat x.txt"), Decision::ForcePassthrough);
}

#[test]
fn no_argument_becomes_empty() {
    let ls = parse_commands("cd ..;ls .", "x", "/h");
    assert_eq!(ls[0].effective_cwd, "");
    assert_eq!(ls[0].args, vec!["."]);
    assert_eq!(ls[0].check_string(), "ls .");
    let ls = parse_commands("cd ..;ls ./y ..", "x", "/h");
    assert_eq!(ls[0].args, vec!["y", "."]);
}

#[test]
fn wrapped_commands_are_read_behind_the_cd() {
    let text = "table input default allow {
        command /^sh/ -> evaluate flag -c
        command /^timeout/ -> evaluate skip 1
        arg /^\\/etc\\/secret\\.txt$/ -> deny
        command /^\\.\\/run\\.sh/ -> force passthrough
    }";
    assert_eq!(decide(text, "cd /etc && sh -c 'rm secret.txt'"), Decision::Deny);
    assert_eq!(decide(text, "cd /etc && sh -c 'sh -c \"rm secret.txt\"'"), Decision::Deny);
    assert_eq!(decide(text, "cd /etc && timeout 5 rm secret.txt"), Decision::Deny);
    assert_eq!(decide(text, "sh -c 'cd /etc; rm secret.txt'"), Decision::Deny);
    assert_eq!(decide(text, "cd /tmp && sh -c 'rm secret.txt'"), Decision::Allow);
    assert_eq!(decide(text, "sh -c 'rm secret.txt'"), Decision::Allow);
    assert_eq!(decide(text, "cd /etc && timeout 5 ./run.sh"), Decision::ForcePassthrough);
    assert_eq!(decide(text, "cd /etc && sh -c ./run.sh"), Decision::ForcePassthrough);
}

#[test]
fn here_documents_outlive_substitutions() {
    for line in [
        "echo $(cat <<EOF)\nrm x\nEOF\nls",
        "echo \"$(cat <<EOF)\"\nrm x\nEOF\nls",
        "echo $(cat <<EOF\nrm x\nEOF\n)\nls",
        "echo \"$(cat <<'EOF'\nrm 'x\nEOF\n)\"; ls",
    ] {
        assert_eq!(programs(line), at("/w", &["cat", "echo", "ls"]), "{line}");
    }
    assert_eq!(
        programs("echo $(cat <<A) <<B | sh\nrm a\nA\nrm b\nB\nls"),
        at("/w", &["cat", "echo", "sh", "ls"]),
    );
    assert_eq!(
        programs("cat <<A $(wc <<B)\nrm a\nA\nrm b\nB\nls"),
        at("/w", &["wc", "cat", "ls"]),
    );
}

#[test]
fn bodies_of_here_documents_are_part_of_the_text() {
    let raw = |line: &str| parse_commands(line, "/w", "/h").remove(0).raw;
    assert_eq!(raw("X=1 <<EOF\nrm a\nEOF\nls"), "X=1 <<EOF\nrm a\nEOF");
    assert_eq!(raw("X=1 <<EOF  \nrm a\nEOF"), "X=1 <<EOF  \nrm a\nEOF");
    assert_eq!(raw("cat <<A <<B\na\nA\nb\nB\nls"), "cat <<A <<B\na\nA\nb\nB");
    assert_eq!(raw("(cat <<A\na\nA\n)"), "cat <<A\na\nA");
    assert_eq!(raw("cat <<EOF"), "cat <<EOF");
    assert_eq!(raw("cat <<EOF | sh\nls\nEOF"), "cat <<EOF");
    assert_eq!(raw("cat <<<x\nls"), "cat <<<x");
    let bare = &parse_commands("X=1 <<EOF\nrm a\nEOF", "/w", "/h")[0];
    assert_eq!(bare.check_string(), "X=1 <<EOF\nrm a\nEOF");
    let text = "table input default allow { command /rm a/ -> deny }";
    assert_eq!(decide(text, "X=1 <<EOF\nrm a\nEOF"), Decision::Deny);
    assert_eq!(decide(text, "cat <<EOF\nrm a\nEOF"), Decision::Allow);
}

#[test]
fn normal_paths_stay_as_they_are() {
    for path in ["", "/", "a/b/../c", "/a/b/c/../../d", "/../..", "../x", "//a///b/", "./a/.", "a/.."] {
        let once = normalize_path(path);
        assert_eq!(normalize_path(&once), once);
        assert_eq!(once.starts_with('/'), path.starts_with('/'));
        assert!(once.split('/').all(|piece| piece != "." && piece != ".."));
    }
    assert_eq!(normalize_path("/a/b/c/../../d"), "/a/d");
    assert_eq!(normalize_path("/../.."), "/");
    assert_eq!(normalize_path("//a///b/"), "/a/b");
}

#[test]
fn plain_lines_are_split_whole() {
    for x in ["ls -la", "", "  ", "export", "export -x", "export FOO", "-x cd", "cdx y", "./cd a"] {
        for sep in [";", "&&", "||", "|", "\n", "&"] {
            for y in ["pwd", "cd /a", " rm b.txt ", ""] {
                let mut both = parse_commands(x, "/w", "/h");
                both.extend(parse_commands(y, "/w", "/h"));
                assert_eq!(parse_commands(&format!("{x}{sep}{y}"), "/w", "/h"), both, "{x}{sep}{y}");
            }
        }
    }
}

#[test]
fn edge_blanks_are_nothing() {
    for x in ["ls -la", "X=1", "X=1 ls a.txt", "cd /a", "export FOO", ""] {
        let plain = parse_commands(x, "/w", "/h");
        assert_eq!(parse_commands(&format!(" \t{x}"), "/w", "/h"), plain);
        assert_eq!(parse_commands(&format!("{x}\t "), "/w", "/h"), plain);
        assert_eq!(parse_commands(&format!("  {x} "), "/w", "/h"), plain);
    }
}

#[test]
fn missing_fields_are_read_as_empty() {
    let allow = "table input default deny { Task prompt /^$/ -> allow }";
    let config = parse_dsl(allow).unwrap();
    for (input, decision) in [
        (fields(&[("subagent_type", "a")]), Decision::Allow),
        (fields(&[("subagent_type", "a"), ("prompt", "")]), Decision::Allow),
        (fields(&[("subagent_type", "a"), ("prompt", "p")]), Decision::Deny),
        (fields(&[]), Decision::Allow),
    ] {
        let result = run(&config, "Task", &input, None, &mut Vec::new()).unwrap();
        assert_eq!(result.decision, decision);
    }
    let result = run(&config, "Read", &fields(&[]), None, &mut Vec::new()).unwrap();
    assert_eq!(result.decision, Decision::Deny);
}

#[test]
fn what_is_listed_is_whole() {
    let line = "X=1 export Y > '' < a ls \"\" b; declare -x Z=$(w) > o; local; readonly Q";
    for command in parse_commands(line, "/w", "/h") {
        assert!(!["cd", "export", "local", "declare", "typeset", "readonly"]
            .contains(&command.program.as_str()));
        assert!(!command.program.is_empty() || !command.env_vars.is_empty());
        for text in command.args.iter().chain(&command.redirects_in).chain(&command.redirects_out) {
            assert!(!text.is_empty());
        }
        assert!(command.env_vars.iter().all(|v| v.contains('=')));
    }
}

#[test]
fn paths_are_those_of_unix() {
    assert_eq!(join("/a", "b"), "/a/b");
    assert_eq!(join("/a/", "b"), "/a/b");
    assert_eq!(join("/a", "/b"), "/b");
    assert_eq!(join("", "b"), "b");
    assert_eq!(normalize_path("a/../../b"), "b");
    assert_eq!(parent_of("/a/b/").as_deref(), Some("/a"));
    assert_eq!(parent_of("/a").as_deref(), Some("/"));
    assert_eq!(parent_of("a").as_deref(), Some(""));
    assert_eq!(parent_of("/"), None);
    assert_eq!(parent_of(""), None);
    assert!(has_perm_extension("/x/a.perm"));
    assert!(!has_perm_extension("/x/.perm"));
    assert!(!has_perm_extension("/x.perm/a"));
    assert!(leads_outside("/a") && leads_outside("a/..b") && !leads_outside("a/.b/c."));
}

#[test]
fn names_may_be_written_in_any_alphabet() {
    let config = parse_dsl("entry t\u{e4}b_1 table t\u{e4}b_1 default allow { }").unwrap();
    assert_eq!(config.global.entry_table, "t\u{e4}b_1");
    assert!(parse_dsl("entry \u{20ac}").is_err());
    let commands = parse_commands("\u{e9}\u{661}=1 ls", "/", "/h");
    assert_eq!(commands[0].program, "ls");
    assert_eq!(commands[0].env_vars, vec!["\u{e9}\u{661}=1"]);
}

#[test]
fn every_condition_on_a_field_counts() {
    let text = "table input default deny { subagent_type /^a$/ prompt /^p$/ -> allow }";
    let config = parse_dsl(text).unwrap();
    for (tool, input, decision) in [
        ("Task", fields(&[("subagent_type", "a"), ("prompt", "p")]), Decision::Allow),
        ("Task", fields(&[("subagent_type", "b"), ("prompt", "p")]), Decision::Deny),
        ("Task", fields(&[("subagent_type", "a"), ("prompt", "q")]), Decision::Deny),
        ("Task", fields(&[("subagent_type", "a")]), Decision::Deny),
        ("Read", fields(&[("file_path", "/x")]), Decision::Deny),
        ("Read", fields(&[]), Decision::Deny),
        ("Read", fields(&[("subagent_type", "a"), ("prompt", "p")]), Decision::Deny),
        ("mcp", fields(&[("subagent_type", "a"), ("prompt", "p")]), Decision::Deny),
    ] {
        let result = run(&config, tool, &input, None, &mut Vec::new()).unwrap();
        assert_eq!(result.decision, decision, "{tool}");
    }
    let text = "table input default allow { Task subagent_type /^gp$/ prompt /danger/ -> deny }";
    let config = parse_dsl(text).unwrap();
    for (prompt, decision) in [("safe", Decision::Allow), ("danger", Decision::Deny)] {
        let input = fields(&[("subagent_type", "gp"), ("prompt", prompt)]);
        let result = run(&config, "Task", &input, None, &mut Vec::new()).unwrap();
        assert_eq!(result.decision, decision, "{prompt}");
    }
    assert_eq!(decide("table input default allow { file_path /x/ -> deny }", "x"), Decision::Allow);
}

#[test]
fn copies_decide_alike() {
    let text = "local_rules = true\nentry t\naudit file \"f\" level all\nlet v = /^a/\n\
        table t default passthrough { Bash command $v -> deny \"no\" }";
    let config = parse_dsl(text).unwrap();
    let copy = config.clone();
    assert_eq!(copy.summary(), config.summary());
    assert_eq!(copy.global.entry_table, "t");
    assert_eq!(copy.audit.audit_file.as_deref(), Some("f"));
    let local = project();
    let copied = local.clone();
    assert_eq!(copied.source_dir, local.source_dir);
    for command in ["a", "d", "x", "d; a"] {
        let (mut first, mut second) = (Vec::new(), Vec::new());
        let one = run(&config, "Bash", &bash(command), Some(&local), &mut first).unwrap();
        let two = run(&copy, "Bash", &bash(command), Some(&copied), &mut second).unwrap();
        assert_eq!((one.decision, one.reason), (two.decision, two.reason));
        assert_eq!(first.len(), second.len());
    }
}

#[test]
fn comments_are_read_as_nothing() {
    let spans = |text: &str| -> Vec<(Token, usize, usize)> {
        lex(text).unwrap().into_iter().map(|t| (t.token, t.span.line, t.span.col)).collect()
    };
    for (a, b) in [("let x", "entry y"), ("", "a"), ("a # b", "c"), ("a\n", "\n\nb"), ("-c", "{")] {
        for note in ["", " note", "# more \" / $", "!"] {
            assert_eq!(spans(&format!("{a}#{note}\n{b}")), spans(&format!("{a}\n{b}")));
        }
    }
    assert_eq!(lex("a#x\n?").unwrap_err(), lex("a\n?").unwrap_err());
}

#[test]
fn variables_read_as_patterns_throughout() {
    let text = "table t default deny { command /a/ -> allow }\nentry t\nlet x = /b+/\n\
        table u default deny { command $x !arg $x -> allow\n cwd $x -> forward t }\nlet y = $x\n";
    let config = parse_dsl(text).unwrap();
    let plain = parse_dsl(&text.replace("$x", "/b+/")).unwrap();
    assert_eq!(config.summary(), plain.summary());
    for name in ["t", "u"] {
        let (one, two) = (config.table.get(name).unwrap(), plain.table.get(name).unwrap());
        for (a, b) in one.rules.iter().zip(&two.rules) {
            assert_eq!((&a.command, &a.arg_not, &a.cwd), (&b.command, &b.arg_not, &b.cwd));
        }
    }
    assert_eq!(config.constants.get("y").unwrap(), "b+");
    assert!(parse_dsl("table input default deny { command $x -> allow }\nlet x = /a/").is_err());
}

#[test]
fn joined_project_files_yield_all_rules() {
    let a = "let v = /a/\nBash command $v -> allow \"one\"";
    let b = "\n# second\nlet v = /b/\nBash command $v -> deny\nRead -> passthrough";
    for (first, second) in [(a, b), (b, a), (a, a), ("", a), (a, ""), ("\n", b)] {
        let whole = parse_local_rules(&format!("{first}\n{second}"), "w").unwrap();
        let mut parts = parse_local_rules(first, "f").unwrap();
        parts.extend(parse_local_rules(second, "s").unwrap());
        assert_eq!(whole.len(), parts.len());
        for (x, y) in whole.iter().zip(&parts) {
            assert_eq!((&x.tool, &x.command, &x.reason), (&y.tool, &y.command, &y.reason));
            assert_eq!(x.action, y.action);
        }
    }
}

#[test]
fn one_more_condition_matches_no_more() {
    let less = "table input default deny { Bash command /^a/ -> allow }";
    for more in ["arg /^x$/", "!arg /y/", "cwd /user/", "!stdout /f/", "prompt /p/", "file_path /./"] {
        let text = format!("table input default deny {{ Bash command /^a/ {more} -> allow }}");
        for line in ["a", "a x", "a y", "a x y", "a x > f", "b x"] {
            if decide(&text, line) == Decision::Allow {
                assert_eq!(decide(less, line), Decision::Allow, "{more} {line}");
            }
        }
    }
}

#[test]
fn two_commands_decide_as_the_stricter() {
    let text = "table input default passthrough { command /^a/ -> allow
        command /^d/ -> deny
        command /^f/ -> force passthrough }";
    for x in ["a 1", "d 2", "f 3", "p 4"] {
        for y in ["a 1", "d 2", "f 3", "p 4"] {
            for sep in [";", "&&", "||", "|", "&", "\n", " && ", " || ", " | ", "; ", "\t& "] {
                let both = decide(text, &format!("{x}{sep}{y}"));
                assert_eq!(both, decide(text, x).merge(decide(text, y)), "{x}{sep}{y}");
            }
        }
    }
}

#[test]
fn stray_brackets_are_no_commands() {
    for line in [")", "}", ") } )", "(", "{", "( {", "';", "\"&&"] {
        assert!(parse_commands(line, "/w", "/h").len() <= 1, "{line}");
    }
    assert!(parse_commands(")", "/w", "/h").is_empty());
    assert!(parse_commands("}", "/w", "/h").is_empty());
    assert!(parse_commands(" );\n}\r\n) ", "/w", "/h").is_empty());
    assert_eq!(programs(") a } b"), at("/w", &["a", "b"]));
}

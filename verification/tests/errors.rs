use permiter::config::{Action, Config, RuleConfig, TableConfig};
use permiter::dsl::{parse_dsl, parse_local_rules};
use permiter::engine::{evaluate_table, EvalContext, ToolInput};
use permiter::error::Error;
use permiter::strmap::StrMap;
use permiter::world::{FileFacts, World};

fn fault(text: &str) -> String {
    match parse_dsl(text) {
        Ok(_) => panic!("accepted: {text}"),
        Err(e) => e.message(),
    }
}

fn local_fault(text: &str) -> String {
    match parse_local_rules(text, "dir/x.perm") {
        Ok(_) => panic!("accepted: {text}"),
        Err(e) => e.message(),
    }
}

#[test]
fn unterminated_literals() {
    assert_eq!(fault("let a = /abc"), "Unterminated regex at line 1, col 9");
    assert_eq!(fault("\n let a = r\"abc"), "Unterminated raw string at line 2, col 10");
    assert_eq!(fault("audit file \"abc"), "Unterminated string at line 1, col 12");
}

#[test]
fn characters_that_begin_nothing() {
    assert_eq!(fault("entry $ x"), "Empty variable reference at line 1, col 7");
    assert_eq!(fault("entry ?"), "Unexpected character '?' at line 1, col 7");
    assert_eq!(
        fault("entry 99999999999999999999999"),
        "Invalid number '99999999999999999999999' at line 1, col 7"
    );
}

#[test]
fn missing_symbols() {
    assert_eq!(
        fault("let a /x/"),
        "Expected Equals, got Regex(\"x\") at line 1, col 7"
    );
    assert_eq!(fault("let a"), "Expected Equals, got end of input at line 0, col 0");
    assert_eq!(fault("table a {"), "Expected Default, got LBrace at line 1, col 9");
    assert_eq!(
        fault("table a default deny Bash"),
        "Expected LBrace, got Ident(\"Bash\") at line 1, col 22"
    );
    assert_eq!(
        fault("table a default deny { "),
        "Expected RBrace, got end of input at line 0, col 0"
    );
    assert_eq!(
        fault("table a default deny { Bash -> evaluate opts -c }"),
        "Expected LBracket, got FlagLit(\"-c\") at line 1, col 46"
    );
}

#[test]
fn missing_words() {
    assert_eq!(fault("entry 5"), "Expected identifier, got Number(5) at line 1, col 7");
    assert_eq!(fault("entry"), "Expected identifier, got end of input at line 0, col 0");
    assert_eq!(
        fault("let a = \"b\""),
        "Expected pattern (regex or $var), got Str(\"b\") at line 1, col 9"
    );
    assert_eq!(fault("let a ="), "Expected pattern, got end of input at line 0, col 0");
    assert_eq!(
        fault("table a default { }"),
        "Expected action (allow/deny/passthrough/force passthrough), got LBrace at line 1, col 17"
    );
    assert_eq!(
        fault("table a default"),
        "Expected action, got end of input at line 0, col 0"
    );
    assert_eq!(
        fault("table a default force deny { }"),
        "Expected 'passthrough' after 'force', got Deny at line 1, col 17"
    );
    assert_eq!(
        fault("table a default force"),
        "Expected 'passthrough' after 'force', got end of input"
    );
}

#[test]
fn rules_that_break_off() {
    assert_eq!(
        fault("table a default deny { Bash -> }"),
        "Expected action, got RBrace at line 1, col 32"
    );
    assert_eq!(fault("table a default deny { Bash ->"), "Expected action at line 0, col 0");
    assert_eq!(
        fault("table a default deny { Bash -> force allow }"),
        "Expected 'passthrough' after 'force', got Allow at line 1, col 38"
    );
    assert_eq!(
        fault("table a default deny { Bash -> force"),
        "Expected 'passthrough' after 'force' at line 0, col 0"
    );
    assert_eq!(
        fault("table a default deny { Bash deny }"),
        "Expected condition keyword, got Deny at line 1, col 29"
    );
    assert_eq!(
        fault("table a default deny { Bash !"),
        "Expected condition keyword at line 0, col 0"
    );
    assert_eq!(
        fault("table a default deny { Bash\n}"),
        "Expected \u{2192} in rule at line 1, col 28"
    );
    assert_eq!(
        fault("table a default deny { has_file /x/ -> allow }"),
        "Expected quoted string, got Regex(\"x\") at line 1, col 33"
    );
    assert_eq!(
        fault("table a default deny { has_file"),
        "Expected quoted string, got end of input at line 0, col 0"
    );
    assert_eq!(
        fault("table a default deny { command $none -> allow }"),
        "Unknown variable '$none' at line 1, col 32"
    );
    assert_eq!(
        fault("table a default deny { !command /x/ -> allow }"),
        "Negation not supported for condition 'command'"
    );
    let unknown = Error::UnknownCondition { field: "foo".to_string() };
    assert_eq!(unknown.message(), "Unknown condition field 'foo'");
}

#[test]
fn evaluate_parameters_that_break_off() {
    assert_eq!(
        fault("table a default deny { Bash -> evaluate flag c }"),
        "Expected flag literal after 'flag', got Ident(\"c\") at line 1, col 46"
    );
    assert_eq!(
        fault("table a default deny { Bash -> evaluate flag"),
        "Expected flag literal at line 0, col 0"
    );
    assert_eq!(
        fault("table a default deny { Bash -> evaluate skip x }"),
        "Expected number after 'skip', got Ident(\"x\") at line 1, col 46"
    );
    assert_eq!(
        fault("table a default deny { Bash -> evaluate skip"),
        "Expected number at line 0, col 0"
    );
    assert_eq!(
        fault("table a default deny { Bash -> evaluate opts [x] }"),
        "Expected flag or ']' in opts, got Ident(\"x\") at line 1, col 47"
    );
    assert_eq!(
        fault("table a default deny { Bash -> evaluate opts [-u"),
        "Unterminated opts list"
    );
}

#[test]
fn directives_that_break_off() {
    assert_eq!(fault("allow"), "Unexpected token Allow at top level, line 1, col 1");
    assert_eq!(
        fault("audit nowhere"),
        "Unexpected token Ident(\"nowhere\") in audit at line 1, col 7"
    );
    assert_eq!(
        fault("audit file x"),
        "Expected file path string, got Ident(\"x\") at line 1, col 12"
    );
    assert_eq!(fault("audit file"), "Expected file path string at line 0, col 0");
    assert_eq!(
        fault("audit level some"),
        "Unknown audit level 'some' at line 1, col 13"
    );
    assert_eq!(
        fault("audit level \"all\""),
        "Expected audit level, got Str(\"all\") at line 1, col 13"
    );
    assert_eq!(fault("audit level"), "Expected audit level at line 0, col 0");
    assert_eq!(
        fault("local_rules = yes"),
        "Expected 'true' or 'false' after local_rules, got Ident(\"yes\") at line 1, col 15"
    );
    assert_eq!(fault("local_rules"), "Expected 'true' or 'false' at line 0, col 0");
}

#[test]
fn texts_in_messages_are_escaped() {
    assert_eq!(
        fault("entry \"a\\\"b\\n\""),
        "Expected identifier, got Str(\"a\\\"b\\n\") at line 1, col 7"
    );
}

#[test]
fn project_rules_that_go_too_far() {
    assert_eq!(
        local_fault("\ntable a default deny { }"),
        "Local rules file dir/x.perm cannot contain 'table' directives (line 2, col 1)"
    );
    assert_eq!(
        local_fault("entry a"),
        "Local rules file dir/x.perm cannot contain 'entry' directives (line 1, col 1)"
    );
    assert_eq!(
        local_fault("audit level all"),
        "Local rules file dir/x.perm cannot contain 'audit' directives (line 1, col 1)"
    );
    assert_eq!(
        local_fault("Bash -> forward a"),
        "Local rules file dir/x.perm cannot use 'forward' action"
    );
    assert_eq!(
        local_fault("Bash -> evaluate flag -c"),
        "Local rules file dir/x.perm cannot use 'evaluate' action"
    );
    assert_eq!(
        local_fault("Bash -> force passthrough"),
        "Local rules file dir/x.perm cannot use 'force passthrough' action"
    );
    assert_eq!(
        local_fault("has_file \"/a\" -> allow"),
        "Local rules file dir/x.perm: has_file must be a relative path without '..', got '/a'"
    );
    assert_eq!(
        local_fault("!has_file \"a/../b\" -> allow"),
        "Local rules file dir/x.perm: has_file_not must be a relative path without '..', got 'a/../b'"
    );
}

#[test]
fn configurations_that_do_not_hold_together() {
    assert_eq!(fault("entry main"), "Entry table 'main' not found in config");
    assert_eq!(
        fault("table input default deny { Bash -> forward none }"),
        "Rule 0 in table 'input' forwards to unknown table 'none'"
    );
    assert_eq!(
        fault("table input default deny { Bash -> allow\n Bash -> evaluate none flag -c }"),
        "Rule 1 in table 'input' evaluates to unknown table 'none'"
    );
    assert_eq!(
        fault("table input default deny { Bash -> evaluate flag -c skip 1 }"),
        "Rule 0 in table 'input' cannot have both 'flag_arg' and 'positional'"
    );
    assert_eq!(
        fault("table input default deny { has_file \"..\" -> allow }"),
        "Rule 0 in table 'input': has_file must be a relative path without '..', got '..'"
    );
    assert_eq!(
        fault("table input default deny { !has_file \"/x\" -> allow }"),
        "Rule 0 in table 'input': has_file_not must be a relative path without '..', got '/x'"
    );
    let message = fault("table input default deny { command /(/ -> allow }");
    assert!(message.starts_with("Invalid regex '(': "), "{message}");
}

fn rule(action: Action) -> RuleConfig {
    RuleConfig {
        tool: None,
        command: None,
        file_path: None,
        subagent_type: None,
        prompt: None,
        cwd: None,
        arg: None,
        arg_not: None,
        stdin: None,
        stdin_not: None,
        stdout: None,
        stdout_not: None,
        cwd_not: None,
        env: None,
        env_not: None,
        has_file: None,
        has_file_not: None,
        action,
        reason: None,
        target: None,
        flag_arg: None,
        positional: None,
        opts_with_args: Vec::new(),
    }
}

fn config(default: Action, rules: Vec<RuleConfig>) -> Config {
    let mut config = Config::empty();
    config.table.insert("input".to_string(), TableConfig { default, rules });
    config
}

#[test]
fn forward_needs_a_target() {
    let c = config(Action::Deny, vec![rule(Action::Forward)]);
    assert_eq!(
        c.validate().unwrap_err().message(),
        "Rule 0 in table 'input' has action 'forward' but no target"
    );
}

#[test]
fn unknown_constants_name_the_pattern() {
    let mut r = rule(Action::Allow);
    r.arg = Some("a${b}\"".to_string());
    let mut c = config(Action::Deny, vec![r]);
    assert_eq!(
        c.resolve_constants().unwrap_err().message(),
        "Unknown constant '$b' in pattern \"a${b}\\\"\""
    );
}

fn outcome_of(config: &Config, table: &str, visited: &mut Vec<String>) -> Result<String, String> {
    let input = ToolInput { fields: StrMap::new() };
    let ctx = EvalContext {
        tool_name: "Bash",
        tool_input: &input,
        check_string: "ls",
        field_name: "command",
        cwd: "/",
        moved: false,
        args: &[],
        written: &[],
        redirects_in: &[],
        redirects_out: &[],
        env_vars: &[],
    };
    let files = FileFacts::new();
    let world = World { home: "/root", env: &[], files: &files };
    match evaluate_table(config, table, &ctx, visited, world, &mut Vec::new()) {
        Ok(result) => Ok(result.decision.name().to_string()),
        Err(e) => Err(e.message()),
    }
}

#[test]
fn tables_that_cannot_decide() {
    let c = config(Action::Forward, vec![]);
    assert_eq!(
        outcome_of(&c, "input", &mut Vec::new()),
        Err("Table 'input' has 'Forward' as default \u{2014} not allowed".to_string())
    );
    assert_eq!(
        outcome_of(&c, "none", &mut Vec::new()),
        Err("Table 'none' not found".to_string())
    );
    assert_eq!(
        outcome_of(&c, "input", &mut vec!["input".to_string()]),
        Err("Cycle detected: table 'input' already visited".to_string())
    );
}

#[test]
fn paths_are_asked_for() {
    let mut r = rule(Action::Allow);
    r.has_file = Some("a".to_string());
    let c = config(Action::Deny, vec![r]);
    assert_eq!(
        outcome_of(&c, "input", &mut Vec::new()),
        Err("Not known whether '/a' exists".to_string())
    );
    let dir = Error::Unprobed { path: "/x".to_string(), directory: true };
    assert_eq!(dir.message(), "Not known whether '/x' is a directory");
}

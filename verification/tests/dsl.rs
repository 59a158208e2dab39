use permiter::config::{Action, AuditLevel, Config, TableConfig};
use permiter::dsl::{lex, parse_dsl, parse_local_rules, Token};

fn table<'a>(config: &'a Config, name: &str) -> &'a TableConfig {
    config.table.get(name).expect("a table of that name")
}


#[test]
fn test_lex_basic() {
    let tokens = lex("let x = /^foo$/").unwrap();
    let kinds: Vec<&Token> = tokens.iter().map(|t| &t.token).collect();
    assert_eq!(kinds, vec![
        &Token::Let,
        &Token::Ident("x".into()),
        &Token::Equals,
        &Token::Regex("^foo$".into()),
    ]);
}

#[test]
fn test_lex_arrow_unicode() {
    let tokens = lex("→").unwrap();
    assert_eq!(tokens[0].token, Token::Arrow);
}

#[test]
fn test_lex_arrow_ascii() {
    let tokens = lex("->").unwrap();
    assert_eq!(tokens[0].token, Token::Arrow);
}

#[test]
fn test_lex_flag_lit() {
    let tokens = lex("-c -vvv -p").unwrap();
    let kinds: Vec<&Token> = tokens.iter().map(|t| &t.token).collect();
    assert_eq!(kinds, vec![
        &Token::FlagLit("-c".into()),
        &Token::FlagLit("-vvv".into()),
        &Token::FlagLit("-p".into()),
    ]);
}

#[test]
fn test_lex_var_ref() {
    let tokens = lex("$my_var").unwrap();
    assert_eq!(tokens[0].token, Token::VarRef("my_var".into()));
}

#[test]
fn test_lex_raw_string() {
    let tokens = lex(r#"r"^foo\bbar""#).unwrap();
    assert_eq!(tokens[0].token, Token::Regex(r"^foo\bbar".into()));
}

#[test]
fn test_lex_quoted_string() {
    let tokens = lex(r#""hello world""#).unwrap();
    assert_eq!(tokens[0].token, Token::Str("hello world".into()));
}

#[test]
fn test_lex_comment_skipped() {
    let tokens = lex("allow # this is a comment\ndeny").unwrap();
    let kinds: Vec<&Token> = tokens.iter().map(|t| &t.token).collect();
    assert_eq!(kinds, vec![&Token::Allow, &Token::Newline, &Token::Deny]);
}

#[test]
fn test_lex_opts_list() {
    let tokens = lex("[-i, -p, -o]").unwrap();
    let kinds: Vec<&Token> = tokens.iter().map(|t| &t.token).collect();
    assert_eq!(kinds, vec![
        &Token::LBracket,
        &Token::FlagLit("-i".into()),
        &Token::Comma,
        &Token::FlagLit("-p".into()),
        &Token::Comma,
        &Token::FlagLit("-o".into()),
        &Token::RBracket,
    ]);
}

#[test]
fn test_parse_minimal_config() {
    let config = parse_dsl(r#"
table input default deny {
    command /^ls\b/ → allow "safe"
}
"#).unwrap();
    assert_eq!(config.global.entry_table, "input");
    assert_eq!(table(&config, "input").rules.len(), 1);
    assert_eq!(table(&config, "input").rules[0].command.as_deref(), Some(r"^ls\b"));
    assert_eq!(table(&config, "input").rules[0].action, Action::Allow);
    assert_eq!(table(&config, "input").rules[0].reason.as_deref(), Some("safe"));
}

#[test]
fn test_parse_let_and_varref() {
    let config = parse_dsl(r#"
let safe = /^(ls|pwd)\b/
table input default deny {
    command $safe → allow
}
"#).unwrap();
    assert_eq!(
        table(&config, "input").rules[0].command.as_deref(),
        Some(r"^(ls|pwd)\b")
    );
}

#[test]
fn test_parse_tool_shorthand() {
    let config = parse_dsl(r#"
table input default deny {
    Bash command /^ls/ → allow
    Read file_path /^\/home/ → allow
}
"#).unwrap();
    assert_eq!(table(&config, "input").rules[0].tool.as_deref(), Some("^Bash$"));
    assert_eq!(table(&config, "input").rules[1].tool.as_deref(), Some("^Read$"));
}

#[test]
fn test_parse_negation() {
    let config = parse_dsl(r#"
table input default deny {
    command /^curl\b/ !arg /evil\.com/ → allow
}
"#).unwrap();
    assert_eq!(table(&config, "input").rules[0].arg_not.as_deref(), Some(r"evil\.com"));
}

#[test]
fn test_parse_forward() {
    let config = parse_dsl(r#"
table input default deny {
    Bash → forward scrutiny
}
table scrutiny default deny {
    command /^ls/ → allow
}
"#).unwrap();
    assert_eq!(table(&config, "input").rules[0].action, Action::Forward);
    assert_eq!(table(&config, "input").rules[0].target.as_deref(), Some("scrutiny"));
}

#[test]
fn test_parse_evaluate_flag() {
    let config = parse_dsl(r#"
table input default deny {
    command /^sh\b/ → evaluate flag -c
}
"#).unwrap();
    let rule = &table(&config, "input").rules[0];
    assert_eq!(rule.action, Action::Evaluate);
    assert_eq!(rule.flag_arg.as_deref(), Some("-c"));
    assert!(rule.target.is_none());
}

#[test]
fn test_parse_evaluate_with_target_and_opts() {
    let config = parse_dsl(r#"
table input default deny {
    command /^ssh\b/ → evaluate remote_cmds opts [-i, -p, -o] skip 1
}
table remote_cmds default deny {
    command /^ls/ → allow
}
"#).unwrap();
    let rule = &table(&config, "input").rules[0];
    assert_eq!(rule.action, Action::Evaluate);
    assert_eq!(rule.target.as_deref(), Some("remote_cmds"));
    assert_eq!(rule.opts_with_args, vec!["-i", "-p", "-o"]);
    assert_eq!(rule.positional, Some(1));
}

#[test]
fn test_parse_evaluate_recycle() {
    let config = parse_dsl(r#"
table input default deny {
    command /^sudo\b/ → evaluate opts [-u, -g]
}
"#).unwrap();
    let rule = &table(&config, "input").rules[0];
    assert_eq!(rule.action, Action::Evaluate);
    assert!(rule.target.is_none()); // recycle = no target
    assert_eq!(rule.opts_with_args, vec!["-u", "-g"]);
}

#[test]
fn test_parse_entry_directive() {
    let config = parse_dsl(r#"
entry main
table main default allow {
}
"#).unwrap();
    assert_eq!(config.global.entry_table, "main");
}

#[test]
fn test_parse_audit() {
    let config = parse_dsl(r#"
audit file "/tmp/audit.json" level matched
table input default allow {
}
"#).unwrap();
    assert_eq!(config.audit.audit_file.as_deref(), Some("/tmp/audit.json"));
    assert_eq!(config.audit.audit_level, AuditLevel::Matched);
}

#[test]
fn test_parse_ascii_arrow() {
    let config = parse_dsl(r#"
table input default deny {
    command /^ls/ -> allow
}
"#).unwrap();
    assert_eq!(table(&config, "input").rules[0].action, Action::Allow);
}

#[test]
fn test_parse_full_example() {
    let config = parse_dsl(r#"
let safe_cmds = /^(ls|pwd|echo|cat)\b/
let dev_dir = /^\/home\/user\/dev\/.*/

audit file "/tmp/permiter-audit.json" level matched

table input default deny {
    Bash command $safe_cmds → allow "Safe read-only commands"
    Bash → forward shell_scrutiny
    Read file_path $dev_dir → allow "Dev reads"
    Write file_path $dev_dir → allow "Dev writes"
}

table shell_scrutiny default deny {
    command /^rm\b/ → deny "rm not allowed"
    command /^(sudo|su)\b/ → deny "No privilege escalation"

    # Wrapper evaluate rules
    command /^(sh|bash|zsh)\b/ → evaluate flag -c
    command /^timeout\b/ → evaluate skip 1

    command /^(cargo|git)\b/ → allow "Dev tools"
}
"#).unwrap();
    assert_eq!(config.table.len(), 2);
    assert_eq!(table(&config, "input").rules.len(), 4);
    assert_eq!(table(&config, "shell_scrutiny").rules.len(), 5);
}

#[test]
fn test_parse_raw_string_regex() {
    let config = parse_dsl(r#"
table input default deny {
    command r"^ls\b" → allow
}
"#).unwrap();
    assert_eq!(table(&config, "input").rules[0].command.as_deref(), Some(r"^ls\b"));
}

#[test]
fn test_parse_multiple_conditions() {
    let config = parse_dsl(r#"
table input default deny {
    command /^curl\b/ arg /^https:/ !arg /evil\.com/ cwd /^\/home/ → allow
}
"#).unwrap();
    let rule = &table(&config, "input").rules[0];
    assert_eq!(rule.command.as_deref(), Some(r"^curl\b"));
    assert_eq!(rule.arg.as_deref(), Some("^https:"));
    assert_eq!(rule.arg_not.as_deref(), Some(r"evil\.com"));
    assert_eq!(rule.cwd.as_deref(), Some(r"^\/home"));
}

#[test]
fn test_force_passthrough_allowed_as_default() {
    let config = parse_dsl(r#"
table input default force passthrough {
    command /^ls/ -> allow
}
"#).unwrap();
    assert_eq!(table(&config, "input").default, Action::ForcePassthrough);
}

#[test]
fn test_parse_force_passthrough() {
    let config = parse_dsl(r#"
table input default deny {
    Bash command /^ls\b/ -> force passthrough "safe read-only"
}
"#).unwrap();
    let rule = &table(&config, "input").rules[0];
    assert_eq!(rule.action, Action::ForcePassthrough);
    assert_eq!(rule.reason.as_deref(), Some("safe read-only"));
}

#[test]
fn test_unknown_variable_errors() {
    let result = parse_dsl(r#"
table input default deny {
    command $undefined → allow
}
"#);
    assert!(result.is_err());
}

#[test]
fn test_parse_has_file_condition() {
    let input = r#"
entry input
table input default passthrough {
    Bash command /^pip\b/ has_file ".venv/bin/pip" -> allow "pip in venv"
}
"#;
    let config = parse_dsl(input).unwrap();
    let rule = &table(&config, "input").rules[0];
    assert_eq!(rule.has_file.as_deref(), Some(".venv/bin/pip"));
    assert_eq!(rule.action, Action::Allow);
}

#[test]
fn test_parse_has_file_not_condition() {
    let input = r#"
entry input
table input default passthrough {
    Bash command /^npm\b/ !has_file "node_modules/.bin/npm" -> deny "no local npm"
}
"#;
    let config = parse_dsl(input).unwrap();
    let rule = &table(&config, "input").rules[0];
    assert_eq!(rule.has_file_not.as_deref(), Some("node_modules/.bin/npm"));
}

// ── parse_local_rules tests ─────────────────────────────────────────────

#[test]
fn test_parse_local_rules_basic() {
    let input = r#"
Bash command /^\.venv\/bin\/(pip|python)/ -> allow "venv pip/python"
Bash command /^pip\b/ has_file ".venv/bin/pip" -> allow "pip (venv exists)"
"#;
    let rules = parse_local_rules(input, ".permiter/python.perm").unwrap();
    assert_eq!(rules.len(), 2);
    assert_eq!(rules[0].action, Action::Allow);
    assert_eq!(rules[1].has_file.as_deref(), Some(".venv/bin/pip"));
}

#[test]
fn test_parse_local_rules_rejects_table() {
    let input = r#"
table foo default deny {
    Bash -> allow
}
"#;
    assert!(parse_local_rules(input, ".permiter/bad.perm").is_err());
}

#[test]
fn test_parse_local_rules_rejects_forward() {
    let input = "Bash -> forward some_table\n";
    assert!(parse_local_rules(input, ".permiter/bad.perm").is_err());
}

#[test]
fn test_parse_local_rules_rejects_evaluate() {
    let input = "command /^sudo/ -> evaluate flag -c\n";
    assert!(parse_local_rules(input, ".permiter/bad.perm").is_err());
}

#[test]
fn test_parse_local_rules_rejects_force_passthrough() {
    let input = r#"Bash command /^rm/ -> force passthrough "nope""#;
    assert!(parse_local_rules(input, ".permiter/bad.perm").is_err());
}

#[test]
fn test_parse_local_rules_rejects_has_file_traversal() {
    let input = r#"Bash has_file "../../.ssh/id_rsa" -> allow "sneaky""#;
    assert!(parse_local_rules(input, ".permiter/bad.perm").is_err());
}

#[test]
fn test_parse_local_rules_rejects_has_file_absolute() {
    let input = r#"Bash has_file "/etc/passwd" -> allow "sneaky""#;
    assert!(parse_local_rules(input, ".permiter/bad.perm").is_err());
}

#[test]
fn test_parse_local_rules_allows_deny() {
    let input = r#"Bash command /^rm/ -> deny "no rm in this project""#;
    let rules = parse_local_rules(input, ".permiter/strict.perm").unwrap();
    assert_eq!(rules.len(), 1);
    assert_eq!(rules[0].action, Action::Deny);
}

#[test]
fn test_parse_local_rules_allows_let() {
    let input = r#"
let venv = /^\.venv\/bin\//
Bash command $venv -> allow "venv commands"
"#;
    let rules = parse_local_rules(input, ".permiter/python.perm").unwrap();
    assert_eq!(rules.len(), 1);
}

#[test]
fn test_parse_local_rules_directive() {
    let input = r#"
local_rules = true
entry input
table input default deny {
    Bash -> allow
}
"#;
    let config = parse_dsl(input).unwrap();
    assert!(config.global.local_rules);
}

#[test]
fn test_local_rules_default_false() {
    let input = r#"
entry input
table input default deny {
    Bash -> allow
}
"#;
    let config = parse_dsl(input).unwrap();
    assert!(!config.global.local_rules);
}

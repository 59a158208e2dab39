use permiter::config::Action;
use permiter::error::Error;
use permiter::local::{discover_local_dir, load_local_rules, rules_files, LocalFile};
use permiter::world::FileFacts;

/// Looks for the directory in a file system that holds the given directories.
fn discover(start_dir: &str, dirs: &[&str]) -> (Option<String>, Vec<String>) {
    let mut files = FileFacts::new();
    let mut asked = Vec::new();
    loop {
        match discover_local_dir(start_dir, &files) {
            Ok(found) => return (found, asked),
            Err(Error::Unprobed { path, directory }) => {
                asked.push(path.clone());
                let answer = dirs.contains(&path.as_str());
                files.learn(path, directory, answer);
            }
            Err(e) => panic!("{}", e.message()),
        }
    }
}

#[test]
fn test_discover_local_dir_found() {
    let project = "/tmp/permiter_test_discover/myproject";
    let permiter_dir = "/tmp/permiter_test_discover/myproject/.permiter";
    let (result, _) = discover(
        project,
        &[permiter_dir, "/tmp/permiter_test_discover/myproject/.git"],
    );
    assert_eq!(result.as_deref(), Some(permiter_dir));
}

#[test]
fn test_discover_local_dir_stops_at_git_root() {
    let subdir = "/tmp/permiter_test_git_root/myproject/src/deep";
    let (result, asked) = discover(
        subdir,
        &[
            "/tmp/permiter_test_git_root/myproject/.git",
            "/tmp/permiter_test_git_root/.permiter",
        ],
    );
    assert_eq!(result, None);
    assert!(!asked.contains(&"/tmp/permiter_test_git_root/.permiter".to_string()));
}

#[test]
fn test_discover_local_dir_none() {
    let (result, asked) = discover("/tmp/nonexistent_permiter_test_dir", &[]);
    assert_eq!(result, None);
    assert_eq!(
        asked,
        vec![
            "/tmp/nonexistent_permiter_test_dir/.permiter",
            "/tmp/nonexistent_permiter_test_dir/.git",
            "/tmp/.permiter",
            "/tmp/.git",
            "/.permiter",
            "/.git",
        ]
    );
}

fn file(path: &str, content: &str) -> LocalFile {
    LocalFile { path: path.to_string(), content: content.to_string() }
}

#[test]
fn test_load_local_rules() {
    let permiter_dir = "/tmp/permiter_test_load/.permiter";
    let names = rules_files(vec!["python.perm".to_string(), "node.perm".to_string()]);
    assert_eq!(names, vec!["node.perm", "python.perm"]); // node.perm sorts before python.perm
    let files = vec![
        file("node.perm", r#"Bash command /^npm\b/ -> allow "npm allowed""#),
        file("python.perm", r#"Bash command /^pip\b/ -> allow "pip allowed""#),
    ];

    let ruleset = load_local_rules(permiter_dir, &files).unwrap();
    assert_eq!(ruleset.rules.len(), 2);
    assert_eq!(ruleset.source_dir, permiter_dir);
    assert_eq!(ruleset.rules[0].reason.as_deref(), Some("npm allowed"));
    assert_eq!(ruleset.rules[1].action, Action::Allow);
}

#[test]
fn test_load_local_rules_rejects_bad_file() {
    let files = vec![file(
        "/tmp/permiter_test_load_bad/.permiter/evil.perm",
        "table sneaky default allow {\n    Bash -> allow\n}\n",
    )];
    assert!(load_local_rules("/tmp/permiter_test_load_bad/.permiter", &files).is_err());
}

#[test]
fn bad_patterns_of_a_project_are_errors() {
    let files = vec![file("a.perm", "Bash command /(/ -> allow\n")];
    match load_local_rules("d", &files) {
        Err(Error::InvalidRegex { pattern, .. }) => assert_eq!(pattern, "("),
        _ => panic!("the pattern should be refused"),
    }
}

#[test]
fn only_rules_files_are_read_in_alphabetical_order() {
    let names = ["b.perm", "README.md", "a.perm", ".perm", "c.perm.bak", "Z.perm", "ab.perm", "perm"];
    let sorted = rules_files(names.iter().map(|n| n.to_string()).collect());
    assert_eq!(sorted, vec!["Z.perm", "a.perm", "ab.perm", "b.perm"]);
}

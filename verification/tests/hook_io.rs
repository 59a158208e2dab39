use permiter::engine::{Decision, EvalResult, ToolInput};
use permiter::hook_io::{respond, HookInput, HookOutput};
use permiter::strmap::StrMap;

#[test]
fn allow_serializes_correctly() {
    let output = HookOutput::allow("safe command".into());

    assert_eq!(output.decision.verdict, "allow");
    assert_eq!(output.decision.reason, "safe command");
    assert_eq!(output.decision.hook_event_name, "PreToolUse");
    assert_eq!(output.suppress_output, true);
}

#[test]
fn deny_serializes_correctly() {
    let output = HookOutput::deny("dangerous".into());

    assert_eq!(output.decision.verdict, "deny");
    assert_eq!(output.decision.reason, "dangerous");
}

#[test]
fn hook_input_holds_the_fields_of_a_call() {
    let mut fields = StrMap::new();
    fields.insert("command".to_string(), "ls -la".to_string());
    let input = HookInput {
        session_id: "abc".into(),
        transcript_path: "/tmp/t".into(),
        cwd: "/home".into(),
        hook_event_name: "PreToolUse".into(),
        tool_name: "Bash".into(),
        tool_input: ToolInput { fields },
    };
    assert_eq!(input.tool_name, "Bash");
    assert_eq!(input.tool_input.text("command"), "ls -la");
    assert_eq!(input.tool_input.text("file_path"), "");
}

fn result(decision: Decision, reason: Option<&str>) -> EvalResult {
    EvalResult {
        decision,
        reason: reason.map(|r| r.to_string()),
        table: Some("input".to_string()),
        rule_index: Some(3),
        source: "global".to_string(),
    }
}

#[test]
fn verdicts_follow_decisions() {
    let output = respond(result(Decision::Allow, Some("fine"))).unwrap();
    assert_eq!(output.decision.verdict, "allow");
    assert_eq!(output.decision.reason, "fine");
    let output = respond(result(Decision::Deny, Some("no"))).unwrap();
    assert_eq!(output.decision.verdict, "deny");
    assert_eq!(output.decision.reason, "no");
}

#[test]
fn verdicts_without_a_reason_get_one() {
    let output = respond(result(Decision::Allow, None)).unwrap();
    assert_eq!(output.decision.reason, "Allowed");
    let output = respond(result(Decision::Deny, None)).unwrap();
    assert_eq!(output.decision.reason, "Denied");
}

#[test]
fn no_opinion_is_no_answer() {
    assert!(respond(result(Decision::Passthrough, Some("x"))).is_none());
    assert!(respond(result(Decision::ForcePassthrough, None)).is_none());
}

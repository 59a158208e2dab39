//! What a hook event brings, and how it is answered.
use vstd::prelude::*;
use crate::engine::{EvalResult, ToolInput};
use crate::engine_model::{Decision, ResultView};

verus! {

/// A hook event that comes before a tool call.
pub struct HookInput {
    pub session_id: String,
    pub transcript_path: String,
    pub cwd: String,
    pub hook_event_name: String,
    pub tool_name: String,
    pub tool_input: ToolInput,
}

/// The part of an answer that holds the decision.
#[derive(Debug)]
pub struct PermissionDecision {
    pub hook_event_name: &'static str,
    pub verdict: &'static str,
    pub reason: String,
}

/// The answer to a hook event.
#[derive(Debug)]
pub struct HookOutput {
    pub decision: PermissionDecision,
    pub suppress_output: bool,
}

/// An answer, in mathematical form.
pub struct OutputView {
    pub hook_event_name: Seq<char>,
    pub verdict: Seq<char>,
    pub reason: Seq<char>,
    pub suppress_output: bool,
}

impl View for HookOutput {
    type V = OutputView;

    open spec fn view(&self) -> OutputView {
        OutputView {
            hook_event_name: self.decision.hook_event_name@,
            verdict: self.decision.verdict@,
            reason: self.decision.reason@,
            suppress_output: self.suppress_output,
        }
    }
}

/// The answer with a given verdict.
pub open spec fn answer(verdict: Seq<char>, reason: Seq<char>) -> OutputView {
    OutputView { hook_event_name: "PreToolUse"@, verdict, reason, suppress_output: true }
}

impl HookOutput {
    fn new(verdict: &'static str, reason: String) -> (r: HookOutput)
        ensures
            r@ == answer(verdict@, reason@),
    {
        HookOutput {
            decision: PermissionDecision { hook_event_name: "PreToolUse", verdict, reason },
            suppress_output: true,
        }
    }

    /// The answer that permits the tool call.
    pub fn allow(reason: String) -> (r: HookOutput)
        ensures
            r@ == answer("allow"@, reason@),
    {
        Self::new("allow", reason)
    }

    /// The answer that blocks the tool call.
    pub fn deny(reason: String) -> (r: HookOutput)
        ensures
            r@ == answer("deny"@, reason@),
    {
        Self::new("deny", reason)
    }
}

/// The answer to an event whose tool call came to `result`. Where there is no opinion
/// there is no answer.
pub open spec fn answer_to(result: ResultView) -> Option<OutputView> {
    match result.decision {
        Decision::Allow => Some(
            answer(
                "allow"@,
                match result.reason {
                    Some(reason) => reason,
                    None => "Allowed"@,
                },
            ),
        ),
        Decision::Deny => Some(
            answer(
                "deny"@,
                match result.reason {
                    Some(reason) => reason,
                    None => "Denied"@,
                },
            ),
        ),
        Decision::Passthrough | Decision::ForcePassthrough => None,
    }
}

/// The answer to an event whose tool call came to `result`, if there is to be one.
pub fn respond(result: EvalResult) -> (r: Option<HookOutput>)
    ensures
        match r {
            Some(output) => answer_to(result@) == Some(output@),
            None => answer_to(result@) is None,
        },
{
    match result.decision {
        Decision::Allow => {
            let reason = match result.reason {
                Some(reason) => reason,
                None => "Allowed".to_owned(),
            };
            Some(HookOutput::allow(reason))
        },
        Decision::Deny => {
            let reason = match result.reason {
                Some(reason) => reason,
                None => "Denied".to_owned(),
            };
            Some(HookOutput::deny(reason))
        },
        Decision::Passthrough | Decision::ForcePassthrough => None,
    }
}

} // verus!

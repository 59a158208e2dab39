//! The texts and inputs of the command line tool.
use vstd::prelude::*;
use crate::config::{constant_map, summary_text, Config, ConfigView};
use crate::engine::{EvalResult, ToolInput};
use crate::engine_model::{fields_of, Decision, ResultView};
use crate::strmap::{lemma_dict_inserted, lemma_map_inserted, map_entries, StrMap};
use crate::text::{decimal, decimal_of, str_eq};

verus! {

/// A decision, as the audit log has it.
pub open spec fn decision_name(d: Decision) -> Seq<char> {
    match d {
        Decision::Allow => "allow"@,
        Decision::Deny => "deny"@,
        Decision::Passthrough => "passthrough"@,
        Decision::ForcePassthrough => "force_passthrough"@,
    }
}

/// A decision, as the report on a check has it.
pub open spec fn decision_label(d: Decision) -> Seq<char> {
    match d {
        Decision::Allow => "ALLOW"@,
        Decision::Deny => "DENY"@,
        Decision::Passthrough => "PASSTHROUGH"@,
        Decision::ForcePassthrough => "FORCE PASSTHROUGH"@,
    }
}

impl Decision {
    /// The decision, as the audit log has it.
    pub fn name(&self) -> (r: &'static str)
        ensures
            r@ == decision_name(*self),
    {
        match self {
            Decision::Allow => "allow",
            Decision::Deny => "deny",
            Decision::Passthrough => "passthrough",
            Decision::ForcePassthrough => "force_passthrough",
        }
    }

    /// The decision, as the report on a check has it.
    pub fn label(&self) -> (r: &'static str)
        ensures
            r@ == decision_label(*self),
    {
        match self {
            Decision::Allow => "ALLOW",
            Decision::Deny => "DENY",
            Decision::Passthrough => "PASSTHROUGH",
            Decision::ForcePassthrough => "FORCE PASSTHROUGH",
        }
    }
}

/// The line of a report that gives the reason, if there is one.
pub open spec fn reason_line(result: ResultView) -> Seq<char> {
    match result.reason {
        Some(reason) => "Reason: "@ + reason + "\n"@,
        None => Seq::empty(),
    }
}

/// The line of a report that says where the decision was made, if a table made it.
pub open spec fn place_line(result: ResultView) -> Seq<char> {
    match (result.table, result.rule_index) {
        (Some(table), Some(i)) => "Table: "@ + table + ", Rule: "@ + decimal(i as nat) + "\n"@,
        (Some(table), None) => "Table: "@ + table + "\n"@,
        _ => Seq::empty(),
    }
}

/// The report on a check.
pub open spec fn report_text(result: ResultView) -> Seq<char> {
    "Decision: "@ + decision_label(result.decision) + "\n"@ + reason_line(result) + place_line(
        result,
    ) + "Source: "@ + result.source + "\n"@
}

fn write_reason(result: &EvalResult) -> (r: String)
    ensures
        r@ == reason_line(result@),
{
    let mut text = String::new();
    if let Some(reason) = &result.reason {
        text.push_str("Reason: ");
        text.push_str(reason);
        text.push_str("\n");
    }
    assert(text@ =~= reason_line(result@));
    text
}

fn write_place(result: &EvalResult) -> (r: String)
    ensures
        r@ == place_line(result@),
{
    let mut text = String::new();
    if let Some(table) = &result.table {
        text.push_str("Table: ");
        text.push_str(table);
        if let Some(i) = result.rule_index {
            text.push_str(", Rule: ");
            text.push_str(&decimal_of(i));
        }
        text.push_str("\n");
    }
    assert(text@ =~= place_line(result@));
    text
}

/// The report on a check.
pub fn report(result: &EvalResult) -> (r: String)
    ensures
        r@ == report_text(result@),
{
    let mut text = "Decision: ".to_owned();
    text.push_str(result.decision.label());
    text.push_str("\n");
    text.push_str(&write_reason(result));
    text.push_str(&write_place(result));
    text.push_str("Source: ");
    text.push_str(&result.source);
    text.push_str("\n");
    text
}

/// The report on a valid configuration.
pub open spec fn validation_text(config: ConfigView) -> Seq<char> {
    "Config valid.\nLocal rules: "@ + (if config.local_rules {
        "enabled"@
    } else {
        "disabled"@
    }) + "\n"@ + summary_text(config) + "\n"@
}

/// The report on a valid configuration.
pub fn validation_report(config: &Config) -> (r: String)
    ensures
        r@ == validation_text(config@),
{
    let mut text = "Config valid.\nLocal rules: ".to_owned();
    if config.global.local_rules {
        text.push_str("enabled");
    } else {
        text.push_str("disabled");
    }
    text.push_str("\n");
    text.push_str(&config.summary());
    text.push_str("\n");
    text
}

/// The text of an option; empty if it is not given.
pub open spec fn given(o: Option<String>) -> Seq<char> {
    match o {
        Some(s) => s@,
        None => Seq::empty(),
    }
}

/// The fields of a tool call that is checked from the command line.
pub open spec fn check_fields(
    tool: Seq<char>,
    command: Seq<char>,
    file_path: Seq<char>,
) -> Map<Seq<char>, Seq<char>> {
    if tool == "Bash"@ {
        map!["command"@ => command]
    } else if fields_of(tool) == seq!["file_path"@] {
        map!["file_path"@ => file_path]
    } else {
        Map::empty()
    }
}

fn single_field(name: &str, text: Option<String>) -> (r: ToolInput)
    ensures
        r@ == map![name@ => given(text)],
{
    let value = match text {
        Some(text) => text,
        None => String::new(),
    };
    assert(value@ =~= given(text));
    let mut fields: StrMap<String> = StrMap::new();
    proof {
        lemma_map_inserted(fields@, |s: String| s@, name@, value);
        lemma_dict_inserted(map_entries(fields@, |s: String| s@), name@, value@);
        assert(constant_map(fields) =~= Map::<Seq<char>, Seq<char>>::empty());
    }
    fields.insert(name.to_owned(), value);
    ToolInput { fields }
}

/// The tool call that is checked from the command line.
pub fn check_input(tool: &str, command: Option<String>, file_path: Option<String>) -> (r: ToolInput)
    ensures
        r@ == check_fields(tool@, given(command), given(file_path)),
{
    if str_eq(tool, "Bash") {
        single_field("command", command)
    } else if str_eq(tool, "Read") || str_eq(tool, "Write") || str_eq(tool, "Edit") || str_eq(
        tool,
        "MultiEdit",
    ) || str_eq(tool, "Glob") {
        single_field("file_path", file_path)
    } else {
        let fields: StrMap<String> = StrMap::new();
        assert(constant_map(fields) =~= Map::<Seq<char>, Seq<char>>::empty());
        assert(fields_of(tool@).len() != 1);
        ToolInput { fields }
    }
}

} // verus!

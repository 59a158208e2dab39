//! What a text in the rule language yields: what is written down in it.
use vstd::prelude::*;
use crate::config::{checked, Action, AuditLevel, AuditView, ConfigView, RuleView, TableView};
use crate::dsl_grammar::{config_of, local_rules_of, program_at, statement_at, tok, Built, Parsed};
use crate::error::ErrorView;
use crate::lexer::{tokens_of, SpannedView, TokenView};
use crate::spelling_properties::{can_all_be_spelled, reads_as, spelled_out, texts_read_as_spelled};
use crate::strmap::{dict, key_from, lemma_key_from};
use crate::writing_properties::{
    all_suit, lemma_stand_apart, lines_tokens, project_files_read_as_written,
    settings_read_as_written, stand_at, table_tokens, tables_read_as_written,
};

verus! {

proof fn lemma_read_stands(read: Result<Seq<SpannedView>, ErrorView>, tokens: Seq<TokenView>)
    requires
        reads_as(read, tokens),
    ensures
        stand_at(read->Ok_0, 0, tokens),
{
    let ts = read->Ok_0;
    assert forall|k: int| 0 <= k < tokens.len() implies #[trigger] ts[0 + k].token
        == tokens[k] by {
        assert(ts[k].token == tokens[k]);
    }
}

/// The text of a project's rules, spelled out, yields the rules: all of them, in order, each
/// with the conditions, the action and the reason that are written down.
pub proof fn project_texts_yield_their_rules(rules: Seq<RuleView>, source: Seq<char>)
    requires
        all_suit(rules),
        forall|k: int|
            0 <= k < rules.len() ==> ((#[trigger] rules[k]).action == Action::Allow
                || rules[k].action == Action::Deny || rules[k].action == Action::Passthrough)
                && rules[k].has_file is None && rules[k].has_file_not is None,
        can_all_be_spelled(lines_tokens(rules)),
    ensures
        local_rules_of(spelled_out(lines_tokens(rules)), source) == Ok::<Seq<RuleView>, ErrorView>(
            rules,
        ),
{
    let tokens = lines_tokens(rules);
    texts_read_as_spelled(tokens);
    let read = tokens_of(spelled_out(tokens));
    lemma_read_stands(read, tokens);
    project_files_read_as_written(
        read->Ok_0,
        0,
        Map::empty(),
        rules,
        Seq::empty(),
        source,
    );
    assert(Seq::<RuleView>::empty() + rules =~= rules);
}

/// The tokens of some tables, each with a line break behind it.
pub open spec fn tables_tokens(tables: Seq<(Seq<char>, TableView)>) -> Seq<TokenView>
    decreases tables.len(),
{
    if tables.len() == 0 {
        Seq::empty()
    } else {
        table_tokens(tables[0].0, tables[0].1) + seq![TokenView::Newline] + tables_tokens(
            tables.skip(1),
        )
    }
}

/// Whether tables can be written down: no name occurs twice, defaults decide, and rules have
/// what their actions take.
pub open spec fn tables_are_writable(tables: Seq<(Seq<char>, TableView)>) -> bool {
    &&& forall|i: int, j: int|
        0 <= i < j < tables.len() ==> (#[trigger] tables[i]).0 != (#[trigger] tables[j]).0
    &&& forall|k: int|
        0 <= k < tables.len() ==> (#[trigger] tables[k]).1.default != Action::Forward
            && tables[k].1.default != Action::Evaluate && all_suit(tables[k].1.rules)
}

proof fn lemma_tables_read(
    ts: Seq<SpannedView>,
    i: int,
    tables: Seq<(Seq<char>, TableView)>,
    built: Built,
)
    requires
        tables_are_writable(built.config.tables + tables),
        stand_at(ts, i, tables_tokens(tables)),
    ensures
        program_at(ts, i, built) == program_at(
            ts,
            i + tables_tokens(tables).len(),
            Built {
                config: ConfigView { tables: built.config.tables + tables, ..built.config },
                ..built
            },
        ),
    decreases tables.len(),
{
    let before = built.config.tables;
    if tables.len() == 0 {
        assert(before + tables =~= before);
    } else {
        let name = tables[0].0;
        let table = tables[0].1;
        let one = table_tokens(name, table);
        let newline = seq![TokenView::Newline];
        let rest = tables.skip(1);
        let all = before + tables;
        assert(all[before.len() as int] == tables[0]);
        lemma_stand_apart(ts, i, one + newline, tables_tokens(rest));
        lemma_stand_apart(ts, i, one, newline);
        let j = i + one.len();
        assert(ts[j + 0].token == newline[0]);
        assert(i + (one + newline).len() == j + 1);
        tables_read_as_written(ts, i, built, name, table);
        assert(!dict(before).dom().contains(name)) by {
            lemma_key_from(before, name, 0);
            if dict(before).dom().contains(name) {
                let k = key_from(before, name, 0)->0;
                assert(all[k] == before[k]);
            }
        }
        let more = Built {
            config: ConfigView { tables: before.push((name, table)), ..built.config },
            ..built
        };
        assert(statement_at(ts, i, built) == (Parsed {
            value: Ok::<Built, ErrorView>(more),
            end: j,
        }));
        assert(program_at(ts, i, built) == program_at(ts, j, more));
        assert(program_at(ts, j, more) == program_at(ts, j + 1, more));
        assert(before.push((name, table)) + rest =~= all);
        lemma_tables_read(ts, j + 1, rest, more);
        assert(i + tables_tokens(tables).len() == j + 1 + tables_tokens(rest).len());
    }
}

/// A text with an entry and tables, spelled out, yields the configuration with that entry
/// and those tables, in order, with all their rules, if it is in order: projects add no
/// rules, nothing is logged, and there are no constants.
pub proof fn texts_yield_their_tables(
    entry: Seq<char>,
    tables: Seq<(Seq<char>, TableView)>,
)
    requires
        tables_are_writable(tables),
        can_all_be_spelled(tables_tokens(tables) + seq![TokenView::Entry, TokenView::Ident(entry)]),
    ensures
        config_of(
            spelled_out(tables_tokens(tables) + seq![TokenView::Entry, TokenView::Ident(entry)]),
        ) == checked(
            ConfigView {
                entry_table: entry,
                local_rules: false,
                audit: AuditView { audit_file: None, audit_level: AuditLevel::Off },
                constants: Map::empty(),
                tables,
            },
        ),
{
    let last = seq![TokenView::Entry, TokenView::Ident(entry)];
    let tokens = tables_tokens(tables) + last;
    texts_read_as_spelled(tokens);
    let read = tokens_of(spelled_out(tokens));
    lemma_read_stands(read, tokens);
    let ts = read->Ok_0;
    lemma_stand_apart(ts, 0, tables_tokens(tables), last);
    let none = Built {
        config: ConfigView {
            entry_table: "input"@,
            local_rules: false,
            audit: AuditView { audit_file: None, audit_level: AuditLevel::Off },
            constants: Map::empty(),
            tables: Seq::empty(),
        },
        vars: Map::empty(),
    };
    assert(none.config.tables + tables =~= tables);
    lemma_tables_read(ts, 0, tables, none);
    let built = Built { config: ConfigView { tables, ..none.config }, ..none };
    let i = tables_tokens(tables).len() as int;
    settings_read_as_written(ts, i, built, entry, Seq::empty(), false);
    let more = Built { config: ConfigView { entry_table: entry, ..built.config }, ..built };
    assert(tok(ts, i) is Some) by {
        assert(ts[i + 0].token == last[0]);
    }
    assert(program_at(ts, i, built) == program_at(ts, i + 2, more));
    assert(tok(ts, i + 2) is None);
}

} // verus!

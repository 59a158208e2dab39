//! The configuration: tables of rules, and the settings around them.
use vstd::prelude::*;
use crate::constants::{substitute, substituted};
use crate::error::{outcome, Error, ErrorView};
use crate::patterns::{pattern_error, RegexCache};
use crate::strmap::{
    dict, inserted, lemma_key_from, lemma_map_inserted, lemma_map_lookup, lookup, map_entries,
    unique, StrMap,
};
use crate::text::{chars_of, copy_opt, copy_strings, decimal, decimal_of, opt_text, texts};

verus! {

#[derive(Debug)]
pub struct GlobalConfig {
    /// The table that evaluation starts in.
    pub entry_table: String,
    /// Whether a project may add rules of its own.
    pub local_rules: bool,
}

#[derive(Debug, Clone, Copy, PartialEq, Eq, Structural)]
pub enum AuditLevel {
    Off,
    Matched,
    All,
}

#[derive(Debug)]
pub struct AuditConfig {
    pub audit_file: Option<String>,
    pub audit_level: AuditLevel,
}

#[derive(Debug, Clone, Copy, PartialEq, Eq, Structural)]
pub enum Action {
    Allow,
    Deny,
    Passthrough,
    ForcePassthrough,
    Forward,
    Evaluate,
}

/// A rule: conditions, all of which must hold, and an action. A condition that is
/// left out always holds.
#[derive(Debug)]
pub struct RuleConfig {
    /// Pattern on the tool name.
    pub tool: Option<String>,
    /// Pattern on the command text (`Bash`).
    pub command: Option<String>,
    /// Pattern on the file path (`Read`, `Write`, `Edit`, `MultiEdit`, `Glob`).
    pub file_path: Option<String>,
    /// Pattern on the agent type (`Task`).
    pub subagent_type: Option<String>,
    /// Pattern on the prompt (`Task`).
    pub prompt: Option<String>,
    /// Pattern on the directory that the command runs in.
    pub cwd: Option<String>,
    /// Pattern that some argument matches.
    pub arg: Option<String>,
    /// Pattern that no argument matches.
    pub arg_not: Option<String>,
    /// Pattern that the target of some `<` redirection matches.
    pub stdin: Option<String>,
    /// Pattern that the target of no `<` redirection matches.
    pub stdin_not: Option<String>,
    /// Pattern that the target of some `>` or `>>` redirection matches.
    pub stdout: Option<String>,
    /// Pattern that the target of no `>` or `>>` redirection matches.
    pub stdout_not: Option<String>,
    /// Pattern that the directory does not match.
    pub cwd_not: Option<String>,
    /// Pattern that some `VAR=value` of the environment matches.
    pub env: Option<String>,
    /// Pattern that no `VAR=value` of the environment matches.
    pub env_not: Option<String>,
    /// Relative path that exists, in the directory or above it up to the git root.
    pub has_file: Option<String>,
    /// Relative path that does not exist there.
    pub has_file_not: Option<String>,
    pub action: Action,
    /// Text for the user.
    pub reason: Option<String>,
    /// The table that `Forward` and `Evaluate` lead to.
    pub target: Option<String>,
    /// For `Evaluate`: the flag whose argument is a command line, as `-c` of `sh`.
    pub flag_arg: Option<String>,
    /// For `Evaluate`: how many positional arguments precede the wrapped command.
    pub positional: Option<usize>,
    /// For `Evaluate`: the flags that take the argument behind them.
    pub opts_with_args: Vec<String>,
}

/// A rule, in mathematical form.
pub struct RuleView {
    pub tool: Option<Seq<char>>,
    pub command: Option<Seq<char>>,
    pub file_path: Option<Seq<char>>,
    pub subagent_type: Option<Seq<char>>,
    pub prompt: Option<Seq<char>>,
    pub cwd: Option<Seq<char>>,
    pub arg: Option<Seq<char>>,
    pub arg_not: Option<Seq<char>>,
    pub stdin: Option<Seq<char>>,
    pub stdin_not: Option<Seq<char>>,
    pub stdout: Option<Seq<char>>,
    pub stdout_not: Option<Seq<char>>,
    pub cwd_not: Option<Seq<char>>,
    pub env: Option<Seq<char>>,
    pub env_not: Option<Seq<char>>,
    pub has_file: Option<Seq<char>>,
    pub has_file_not: Option<Seq<char>>,
    pub action: Action,
    pub reason: Option<Seq<char>>,
    pub target: Option<Seq<char>>,
    pub flag_arg: Option<Seq<char>>,
    pub positional: Option<usize>,
    pub opts_with_args: Seq<Seq<char>>,
}

impl View for RuleConfig {
    type V = RuleView;

    open spec fn view(&self) -> RuleView {
        RuleView {
            tool: opt_text(self.tool),
            command: opt_text(self.command),
            file_path: opt_text(self.file_path),
            subagent_type: opt_text(self.subagent_type),
            prompt: opt_text(self.prompt),
            cwd: opt_text(self.cwd),
            arg: opt_text(self.arg),
            arg_not: opt_text(self.arg_not),
            stdin: opt_text(self.stdin),
            stdin_not: opt_text(self.stdin_not),
            stdout: opt_text(self.stdout),
            stdout_not: opt_text(self.stdout_not),
            cwd_not: opt_text(self.cwd_not),
            env: opt_text(self.env),
            env_not: opt_text(self.env_not),
            has_file: opt_text(self.has_file),
            has_file_not: opt_text(self.has_file_not),
            action: self.action,
            reason: opt_text(self.reason),
            target: opt_text(self.target),
            flag_arg: opt_text(self.flag_arg),
            positional: self.positional,
            opts_with_args: texts(self.opts_with_args@),
        }
    }
}

/// The rules of a vector, in mathematical form.
pub open spec fn rule_views(v: Seq<RuleConfig>) -> Seq<RuleView> {
    Seq::new(v.len(), |i: int| v[i]@)
}

#[derive(Debug)]
pub struct TableConfig {
    /// The action when no rule of the table matches.
    pub default: Action,
    pub rules: Vec<RuleConfig>,
}

/// A table, in mathematical form.
pub struct TableView {
    pub default: Action,
    pub rules: Seq<RuleView>,
}

impl View for TableConfig {
    type V = TableView;

    open spec fn view(&self) -> TableView {
        TableView { default: self.default, rules: rule_views(self.rules@) }
    }
}

/// The settings of the audit log, in mathematical form.
pub struct AuditView {
    pub audit_file: Option<Seq<char>>,
    pub audit_level: AuditLevel,
}

impl View for AuditConfig {
    type V = AuditView;

    open spec fn view(&self) -> AuditView {
        AuditView { audit_file: opt_text(self.audit_file), audit_level: self.audit_level }
    }
}

#[derive(Debug)]
pub struct Config {
    pub global: GlobalConfig,
    pub audit: AuditConfig,
    /// Named patterns.
    pub constants: StrMap<String>,
    pub table: StrMap<TableConfig>,
    pub regex_cache: RegexCache,
}

/// A configuration, in mathematical form. Compiled patterns are left out: what a
/// pattern matches does not depend on whether it is compiled.
pub struct ConfigView {
    pub entry_table: Seq<char>,
    pub local_rules: bool,
    pub audit: AuditView,
    pub constants: Map<Seq<char>, Seq<char>>,
    pub tables: Seq<(Seq<char>, TableView)>,
}

/// Named patterns as a mathematical map.
pub open spec fn constant_map(m: StrMap<String>) -> Map<Seq<char>, Seq<char>> {
    dict(map_entries(m@, |s: String| s@))
}

/// Named tables, in mathematical form.
pub open spec fn table_entries(m: StrMap<TableConfig>) -> Seq<(Seq<char>, TableView)> {
    map_entries(m@, |t: TableConfig| t@)
}

impl View for Config {
    type V = ConfigView;

    open spec fn view(&self) -> ConfigView {
        ConfigView {
            entry_table: self.global.entry_table@,
            local_rules: self.global.local_rules,
            audit: self.audit@,
            constants: constant_map(self.constants),
            tables: table_entries(self.table),
        }
    }
}

/// The entry table of a configuration that names none.
pub fn default_entry_table() -> (r: String)
    ensures
        r@ == "input"@,
{
    "input".to_owned()
}

/// The default action of a table that names none.
pub fn default_table_action() -> (r: Action)
    ensures
        r == Action::Deny,
{
    Action::Deny
}

impl Default for GlobalConfig {
    fn default() -> (r: GlobalConfig)
        ensures
            r.entry_table@ == "input"@,
            !r.local_rules,
    {
        GlobalConfig { entry_table: default_entry_table(), local_rules: false }
    }
}

impl Default for AuditLevel {
    fn default() -> (r: AuditLevel)
        ensures
            r == AuditLevel::Off,
    {
        AuditLevel::Off
    }
}

impl Default for AuditConfig {
    fn default() -> (r: AuditConfig)
        ensures
            r.audit_file is None,
            r.audit_level == AuditLevel::Off,
    {
        AuditConfig { audit_file: None, audit_level: AuditLevel::default() }
    }
}

/// The configuration that nothing has been said of.
pub open spec fn blank_config() -> ConfigView {
    ConfigView {
        entry_table: "input"@,
        local_rules: false,
        audit: AuditView { audit_file: None, audit_level: AuditLevel::Off },
        constants: Map::empty(),
        tables: Seq::empty(),
    }
}

impl Config {
    /// The configuration that nothing has been said of.
    pub fn empty() -> (r: Config)
        ensures
            r@ == blank_config(),
            forall|p: Seq<char>| !r.regex_cache.holds(p),
    {
        let r = Config {
            global: GlobalConfig::default(),
            audit: AuditConfig::default(),
            constants: StrMap::new(),
            table: StrMap::new(),
            regex_cache: RegexCache::new(),
        };
        assert(r@.constants =~= Map::<Seq<char>, Seq<char>>::empty());
        assert(r@.tables =~= Seq::<(Seq<char>, TableView)>::empty());
        r
    }

    /// Puts the values of constants in place of references to them, in the pattern
    /// fields of all rules. Where a constant is not known nothing changes.
    pub fn resolve_constants(&mut self) -> (r: Result<(), Error>)
        ensures
            match r {
                Ok(_) => resolved_tables(
                    old(self)@.tables,
                    0,
                    old(self)@.constants,
                    Seq::empty(),
                ) == Ok::<Seq<(Seq<char>, TableView)>, ErrorView>(final(self)@.tables)
                    && final(self)@ == (ConfigView { tables: final(self)@.tables, ..old(self)@ }),
                Err(e) => resolved_tables(
                    old(self)@.tables,
                    0,
                    old(self)@.constants,
                    Seq::empty(),
                ) == Err::<Seq<(Seq<char>, TableView)>, ErrorView>(e@) && final(self)@
                    == old(self)@,
            },
            final(self).regex_cache == old(self).regex_cache,
    {
        let ghost before = self@;
        let count = self.table.len();
        let mut tables: StrMap<TableConfig> = StrMap::new();
        assert(table_entries(tables) =~= Seq::<(Seq<char>, TableView)>::empty());
        let mut t: usize = 0;
        while t < count
            invariant
                t <= count,
                count == self.table@.len(),
                count == before.tables.len(),
                self@ == before,
                *self == *old(self),
                unique(self.table@),
                resolved_tables(before.tables, t as int, before.constants, table_entries(tables))
                    == resolved_tables(before.tables, 0, before.constants, Seq::empty()),
                tables@.len() == t,
                forall|k: int| 0 <= k < t ==> (#[trigger] tables@[k]).0 == self.table@[k].0,
            decreases count - t,
        {
            let name = self.table.key_at(t);
            let table = self.table.value_at(t);
            match resolve_rules(&table.rules, &self.constants) {
                Ok(rules) => {
                    let resolved = TableConfig { default: table.default, rules };
                    proof {
                        assert(before.tables[t as int] == (name@, table@));
                        lemma_map_inserted(tables@, |t: TableConfig| t@, name@, resolved);
                        lemma_key_from(tables@, name@, 0);
                        assert(inserted(tables@, name@, resolved) == tables@.push(
                            (name@, resolved),
                        ));
                        lemma_key_from(table_entries(tables), name@, 0);
                        assert(inserted(table_entries(tables), name@, resolved@)
                            == table_entries(tables).push((name@, resolved@)));
                    }
                    tables.insert(name.to_owned(), resolved);
                },
                Err(e) => {
                    return Err(e);
                },
            }
            t = t + 1;
        }
        self.table = tables;
        Ok(())
    }

    /// Checks that the entry table and all targets exist, that no rule has two ways to
    /// find a wrapped command, and that all paths that rules ask for stay inside.
    pub fn validate(&self) -> (r: Result<(), Error>)
        ensures
            match r {
                Ok(_) => config_fault(self@) is None,
                Err(e) => config_fault(self@) == Some(e@),
            },
    {
        proof {
            lemma_map_lookup(self.table@, |t: TableConfig| t@, self.global.entry_table@);
        }
        if !self.table.contains_key(&self.global.entry_table) {
            return Err(Error::EntryNotFound { entry: self.global.entry_table.clone() });
        }
        let count = self.table.len();
        let mut t: usize = 0;
        while t < count
            invariant
                t <= count,
                count == self@.tables.len(),
                tables_fault(self@.tables, t as int) == tables_fault(self@.tables, 0),
                config_fault(self@) == tables_fault(self@.tables, 0),
            decreases count - t,
        {
            let name = self.table.key_at(t);
            let table = self.table.value_at(t);
            assert(self@.tables[t as int] == (name@, table@));
            let mut i: usize = 0;
            while i < table.rules.len()
                invariant
                    i <= table.rules@.len(),
                    rules_fault(self@.tables, name@, table@.rules, i as int) == rules_fault(
                        self@.tables,
                        name@,
                        table@.rules,
                        0,
                    ),
                    t < self@.tables.len(),
                    self@.tables[t as int] == (name@, table@),
                    tables_fault(self@.tables, t as int) == tables_fault(self@.tables, 0),
                    config_fault(self@) == tables_fault(self@.tables, 0),
                decreases table.rules@.len() - i,
            {
                match self.check_rule(name, i, &table.rules[i]) {
                    Some(e) => {
                        return Err(e);
                    },
                    None => {},
                }
                i = i + 1;
            }
            t = t + 1;
        }
        Ok(())
    }

    fn check_rule(&self, table: &str, i: usize, rule: &RuleConfig) -> (r: Option<Error>)
        ensures
            match r {
                None => rule_fault(self@.tables, table@, i as nat, rule@) is None,
                Some(e) => rule_fault(self@.tables, table@, i as nat, rule@) == Some(e@),
            },
    {
        match rule.action {
            Action::Forward => match &rule.target {
                None => {
                    return Some(Error::ForwardWithoutTarget { rule: i, table: table.to_owned() });
                },
                Some(target) => {
                    proof {
                        lemma_map_lookup(self.table@, |t: TableConfig| t@, target@);
                    }
                    if !self.table.contains_key(target) {
                        return Some(
                            Error::ForwardToUnknown {
                                rule: i,
                                table: table.to_owned(),
                                target: target.clone(),
                            },
                        );
                    }
                },
            },
            Action::Evaluate => {
                if rule.flag_arg.is_some() && rule.positional.is_some() {
                    return Some(Error::FlagAndPositional { rule: i, table: table.to_owned() });
                }
                match &rule.target {
                    None => {},
                    Some(target) => {
                        proof {
                            lemma_map_lookup(self.table@, |t: TableConfig| t@, target@);
                        }
                        if !self.table.contains_key(target) {
                            return Some(
                                Error::EvaluateToUnknown {
                                    rule: i,
                                    table: table.to_owned(),
                                    target: target.clone(),
                                },
                            );
                        }
                    },
                }
            },
            _ => {},
        }
        match &rule.has_file {
            Some(path) => if leads_outside(path) {
                return Some(
                    Error::HasFilePath {
                        rule: i,
                        table: table.to_owned(),
                        negated: false,
                        path: path.clone(),
                    },
                );
            },
            None => {},
        }
        match &rule.has_file_not {
            Some(path) => if leads_outside(path) {
                return Some(
                    Error::HasFilePath {
                        rule: i,
                        table: table.to_owned(),
                        negated: true,
                        path: path.clone(),
                    },
                );
            },
            None => {},
        }
        None
    }

    /// Compiles the patterns of all rules into the cache. If one of them cannot be
    /// compiled the cache stays as it was.
    pub fn compile_regexes(&mut self) -> (r: Result<(), Error>)
        ensures
            final(self)@ == old(self)@,
            match r {
                Ok(_) => tables_pattern_fault(old(self)@.tables, 0) is None && forall|p: Seq<char>|
                    #![trigger final(self).regex_cache.holds(p)]
                    final(self).regex_cache.holds(p) <==> tables_use(
                        old(self)@.tables,
                        p,
                        old(self)@.tables.len() as int,
                    ),
                Err(e) => tables_pattern_fault(old(self)@.tables, 0) == Some(e@) && final(
                    self
                ).regex_cache == old(self).regex_cache,
            },
    {
        let mut cache = RegexCache::new();
        let count = self.table.len();
        let mut t: usize = 0;
        while t < count
            invariant
                t <= count,
                *self == *old(self),
                count == self@.tables.len(),
                tables_pattern_fault(self@.tables, t as int) == tables_pattern_fault(
                    self@.tables,
                    0,
                ),
                forall|p: Seq<char>|
                    #![trigger cache.holds(p)]
                    cache.holds(p) <==> tables_use(self@.tables, p, t as int),
            decreases count - t,
        {
            let table = self.table.value_at(t);
            assert(self@.tables[t as int].1 == table@);
            let ghost before = cache;
            match compile_rules(cache, &table.rules) {
                Ok(more) => {
                    cache = more;
                    proof {
                        assert forall|p: Seq<char>|
                            #![trigger cache.holds(p)]
                            cache.holds(p) <==> tables_use(self@.tables, p, t + 1) by {
                            if rules_use(table@.rules, p, table@.rules.len() as int) {
                                assert(rules_use(
                                    self@.tables[t as int].1.rules,
                                    p,
                                    self@.tables[t as int].1.rules.len() as int,
                                ));
                            }
                            assert(before.holds(p) <==> tables_use(self@.tables, p, t as int));
                        }
                    }
                },
                Err(e) => {
                    return Err(e);
                },
            }
            t = t + 1;
        }
        self.regex_cache = cache;
        Ok(())
    }

    /// Makes a configuration that was read from named fields ready for use: puts
    /// constants in place, checks it and compiles its patterns.
    pub fn prepare(self) -> (r: Result<Config, Error>)
        ensures
            outcome(r) == prepared(self@),
            r is Ok ==> r->Ok_0.is_compiled(),
    {
        let mut config = self;
        match config.resolve_constants() {
            Ok(_) => {},
            Err(e) => {
                return Err(e);
            },
        }
        config.check()
    }

    /// Checks a configuration and compiles its patterns.
    pub fn check(self) -> (r: Result<Config, Error>)
        ensures
            outcome(r) == checked(self@),
            r is Ok ==> r->Ok_0.is_compiled(),
    {
        let mut config = self;
        match config.validate() {
            Ok(_) => {},
            Err(e) => {
                return Err(e);
            },
        }
        match config.compile_regexes() {
            Ok(_) => Ok(config),
            Err(e) => Err(e),
        }
    }

    /// The cache holds the patterns of the rules, and no others.
    pub open spec fn is_compiled(self) -> bool {
        forall|p: Seq<char>|
            #![trigger self.regex_cache.holds(p)]
            self.regex_cache.holds(p) <==> tables_use(self@.tables, p, self@.tables.len() as int)
    }

    /// The entry table, and of each table its name, how many rules it has and its
    /// default.
    pub fn summary(&self) -> (r: String)
        ensures
            r@ == summary_text(self@),
    {
        let mut text = "Entry table: ".to_owned();
        text.push_str(&self.global.entry_table);
        let count = self.table.len();
        let mut t: usize = 0;
        while t < count
            invariant
                t <= count,
                count == self@.tables.len(),
                text@ == "Entry table: "@ + self@.entry_table + table_lines(self@.tables, t as int),
            decreases count - t,
        {
            let table = self.table.value_at(t);
            assert(self@.tables[t as int] == (self.table@[t as int].0, table@));
            let ghost before = text@;
            text.push_str("\n  Table '");
            text.push_str(self.table.key_at(t));
            text.push_str("': ");
            text.push_str(&decimal_of(table.rules.len()));
            text.push_str(" rules, default=");
            text.push_str(table.default.name());
            assert(text@ =~= before + table_line(self@.tables[t as int]));
            t = t + 1;
            assert(text@ =~= "Entry table: "@ + self@.entry_table + table_lines(
                self@.tables,
                t as int,
            ));
        }
        text
    }
}

/// How many fields of a rule hold a pattern.
pub const PATTERN_FIELDS: usize = 15;

/// The fields of a rule that hold a pattern, by number.
pub open spec fn pattern_field(rule: RuleView, k: int) -> Option<Seq<char>> {
    if k == 0 {
        rule.tool
    } else if k == 1 {
        rule.command
    } else if k == 2 {
        rule.file_path
    } else if k == 3 {
        rule.subagent_type
    } else if k == 4 {
        rule.prompt
    } else if k == 5 {
        rule.cwd
    } else if k == 6 {
        rule.cwd_not
    } else if k == 7 {
        rule.arg
    } else if k == 8 {
        rule.arg_not
    } else if k == 9 {
        rule.stdin
    } else if k == 10 {
        rule.stdin_not
    } else if k == 11 {
        rule.stdout
    } else if k == 12 {
        rule.stdout_not
    } else if k == 13 {
        rule.env
    } else {
        rule.env_not
    }
}

/// `rule` with another pattern in one of its fields.
pub open spec fn with_pattern(rule: RuleView, k: int, p: Seq<char>) -> RuleView {
    if k == 0 {
        RuleView { tool: Some(p), ..rule }
    } else if k == 1 {
        RuleView { command: Some(p), ..rule }
    } else if k == 2 {
        RuleView { file_path: Some(p), ..rule }
    } else if k == 3 {
        RuleView { subagent_type: Some(p), ..rule }
    } else if k == 4 {
        RuleView { prompt: Some(p), ..rule }
    } else if k == 5 {
        RuleView { cwd: Some(p), ..rule }
    } else if k == 6 {
        RuleView { cwd_not: Some(p), ..rule }
    } else if k == 7 {
        RuleView { arg: Some(p), ..rule }
    } else if k == 8 {
        RuleView { arg_not: Some(p), ..rule }
    } else if k == 9 {
        RuleView { stdin: Some(p), ..rule }
    } else if k == 10 {
        RuleView { stdin_not: Some(p), ..rule }
    } else if k == 11 {
        RuleView { stdout: Some(p), ..rule }
    } else if k == 12 {
        RuleView { stdout_not: Some(p), ..rule }
    } else if k == 13 {
        RuleView { env: Some(p), ..rule }
    } else {
        RuleView { env_not: Some(p), ..rule }
    }
}

/// `rule` with constants put in place in its pattern fields from number `k` on.
pub open spec fn resolved_rule(
    rule: RuleView,
    k: int,
    constants: Map<Seq<char>, Seq<char>>,
) -> Result<RuleView, ErrorView>
    decreases PATTERN_FIELDS - k,
{
    if k < 0 || k >= PATTERN_FIELDS {
        Ok(rule)
    } else {
        match pattern_field(rule, k) {
            Some(p) => match substituted(p, constants) {
                Ok(text) => resolved_rule(with_pattern(rule, k, text), k + 1, constants),
                Err(e) => Err(e),
            },
            None => resolved_rule(rule, k + 1, constants),
        }
    }
}

/// The rules from number `i` on, with constants put in place, behind `acc`.
pub open spec fn resolved_rules(
    rules: Seq<RuleView>,
    i: int,
    constants: Map<Seq<char>, Seq<char>>,
    acc: Seq<RuleView>,
) -> Result<Seq<RuleView>, ErrorView>
    decreases rules.len() - i,
{
    if i < 0 || i >= rules.len() {
        Ok(acc)
    } else {
        match resolved_rule(rules[i], 0, constants) {
            Ok(rule) => resolved_rules(rules, i + 1, constants, acc.push(rule)),
            Err(e) => Err(e),
        }
    }
}

/// The tables from number `t` on, with constants put in place, behind `acc`.
pub open spec fn resolved_tables(
    tables: Seq<(Seq<char>, TableView)>,
    t: int,
    constants: Map<Seq<char>, Seq<char>>,
    acc: Seq<(Seq<char>, TableView)>,
) -> Result<Seq<(Seq<char>, TableView)>, ErrorView>
    decreases tables.len() - t,
{
    if t < 0 || t >= tables.len() {
        Ok(acc)
    } else {
        match resolved_rules(tables[t].1.rules, 0, constants, Seq::empty()) {
            Ok(rules) => resolved_tables(
                tables,
                t + 1,
                constants,
                acc.push((tables[t].0, TableView { rules, ..tables[t].1 })),
            ),
            Err(e) => Err(e),
        }
    }
}

impl Clone for RuleConfig {
    fn clone(&self) -> (r: RuleConfig)
        ensures
            r@ == self@,
    {
        RuleConfig {
            tool: copy_opt(&self.tool),
            command: copy_opt(&self.command),
            file_path: copy_opt(&self.file_path),
            subagent_type: copy_opt(&self.subagent_type),
            prompt: copy_opt(&self.prompt),
            cwd: copy_opt(&self.cwd),
            arg: copy_opt(&self.arg),
            arg_not: copy_opt(&self.arg_not),
            stdin: copy_opt(&self.stdin),
            stdin_not: copy_opt(&self.stdin_not),
            stdout: copy_opt(&self.stdout),
            stdout_not: copy_opt(&self.stdout_not),
            cwd_not: copy_opt(&self.cwd_not),
            env: copy_opt(&self.env),
            env_not: copy_opt(&self.env_not),
            has_file: copy_opt(&self.has_file),
            has_file_not: copy_opt(&self.has_file_not),
            action: self.action,
            reason: copy_opt(&self.reason),
            target: copy_opt(&self.target),
            flag_arg: copy_opt(&self.flag_arg),
            positional: self.positional,
            opts_with_args: copy_strings(&self.opts_with_args),
        }
    }
}

impl Clone for TableConfig {
    fn clone(&self) -> (r: TableConfig)
        ensures
            r@ == self@,
    {
        let mut rules: Vec<RuleConfig> = Vec::new();
        let mut i: usize = 0;
        while i < self.rules.len()
            invariant
                i <= self.rules@.len(),
                rules@.len() == i,
                forall|k: int| 0 <= k < i ==> (#[trigger] rules@[k])@ == self.rules@[k]@,
            decreases self.rules@.len() - i,
        {
            rules.push(self.rules[i].clone());
            i = i + 1;
        }
        let r = TableConfig { default: self.default, rules };
        assert(r@.rules =~= self@.rules);
        r
    }
}

impl Clone for GlobalConfig {
    fn clone(&self) -> (r: GlobalConfig)
        ensures
            r == *self,
    {
        GlobalConfig { entry_table: self.entry_table.clone(), local_rules: self.local_rules }
    }
}

impl Clone for AuditConfig {
    fn clone(&self) -> (r: AuditConfig)
        ensures
            r == *self,
    {
        AuditConfig { audit_file: copy_opt(&self.audit_file), audit_level: self.audit_level }
    }
}

impl Clone for Config {
    fn clone(&self) -> (r: Config)
        ensures
            r@ == self@,
            forall|p: Seq<char>| r.regex_cache.holds(p) == self.regex_cache.holds(p),
    {
        let count = self.table.len();
        let mut table: StrMap<TableConfig> = StrMap::new();
        let mut t: usize = 0;
        while t < count
            invariant
                t <= count,
                count == self.table@.len(),
                unique(self.table@),
                table@.len() == t,
                forall|k: int|
                    0 <= k < t ==> (#[trigger] table@[k]).0 == self.table@[k].0 && table@[k].1@
                        == self.table@[k].1@,
            decreases count - t,
        {
            let name = self.table.key_at(t);
            proof {
                lemma_key_from(table@, name@, 0);
            }
            table.insert(name.to_owned(), self.table.value_at(t).clone());
            t = t + 1;
        }
        let r = Config {
            global: self.global.clone(),
            audit: self.audit.clone(),
            constants: self.constants.clone(),
            table,
            regex_cache: self.regex_cache.clone(),
        };
        assert(r@.tables =~= self@.tables);
        r
    }
}

impl RuleConfig {
    /// The pattern in one of the fields that hold one.
    fn pattern(&self, k: usize) -> (r: &Option<String>)
        requires
            k < PATTERN_FIELDS,
        ensures
            opt_text(*r) == pattern_field(self@, k as int),
    {
        match k {
            0 => &self.tool,
            1 => &self.command,
            2 => &self.file_path,
            3 => &self.subagent_type,
            4 => &self.prompt,
            5 => &self.cwd,
            6 => &self.cwd_not,
            7 => &self.arg,
            8 => &self.arg_not,
            9 => &self.stdin,
            10 => &self.stdin_not,
            11 => &self.stdout,
            12 => &self.stdout_not,
            13 => &self.env,
            _ => &self.env_not,
        }
    }

    /// The rule with another pattern in one of the fields that hold one.
    fn with_pattern(self, k: usize, p: String) -> (r: RuleConfig)
        requires
            k < PATTERN_FIELDS,
        ensures
            r@ == with_pattern(self@, k as int, p@),
    {
        match k {
            0 => RuleConfig { tool: Some(p), ..self },
            1 => RuleConfig { command: Some(p), ..self },
            2 => RuleConfig { file_path: Some(p), ..self },
            3 => RuleConfig { subagent_type: Some(p), ..self },
            4 => RuleConfig { prompt: Some(p), ..self },
            5 => RuleConfig { cwd: Some(p), ..self },
            6 => RuleConfig { cwd_not: Some(p), ..self },
            7 => RuleConfig { arg: Some(p), ..self },
            8 => RuleConfig { arg_not: Some(p), ..self },
            9 => RuleConfig { stdin: Some(p), ..self },
            10 => RuleConfig { stdin_not: Some(p), ..self },
            11 => RuleConfig { stdout: Some(p), ..self },
            12 => RuleConfig { stdout_not: Some(p), ..self },
            13 => RuleConfig { env: Some(p), ..self },
            _ => RuleConfig { env_not: Some(p), ..self },
        }
    }
}

fn resolve_rule(rule: &RuleConfig, constants: &StrMap<String>) -> (r: Result<RuleConfig, Error>)
    ensures
        outcome(r) == resolved_rule(rule@, 0, constant_map(*constants)),
{
    let mut built = rule.clone();
    let mut k: usize = 0;
    while k < PATTERN_FIELDS
        invariant
            k <= PATTERN_FIELDS,
            resolved_rule(built@, k as int, constant_map(*constants)) == resolved_rule(
                rule@,
                0,
                constant_map(*constants),
            ),
        decreases PATTERN_FIELDS - k,
    {
        let text = match built.pattern(k) {
            Some(p) => match substitute(p, constants) {
                Ok(text) => Some(text),
                Err(e) => {
                    return Err(e);
                },
            },
            None => None,
        };
        match text {
            Some(text) => {
                built = built.with_pattern(k, text);
            },
            None => {},
        }
        k = k + 1;
    }
    Ok(built)
}

fn resolve_rules(rules: &Vec<RuleConfig>, constants: &StrMap<String>) -> (r: Result<
    Vec<RuleConfig>,
    Error,
>)
    ensures
        match r {
            Ok(v) => resolved_rules(
                rule_views(rules@),
                0,
                constant_map(*constants),
                Seq::empty(),
            ) == Ok::<Seq<RuleView>, ErrorView>(rule_views(v@)),
            Err(e) => resolved_rules(
                rule_views(rules@),
                0,
                constant_map(*constants),
                Seq::empty(),
            ) == Err::<Seq<RuleView>, ErrorView>(e@),
        },
{
    let mut out: Vec<RuleConfig> = Vec::new();
    assert(rule_views(out@) =~= Seq::<RuleView>::empty());
    let mut i: usize = 0;
    while i < rules.len()
        invariant
            i <= rules@.len(),
            resolved_rules(
                rule_views(rules@),
                i as int,
                constant_map(*constants),
                rule_views(out@),
            ) == resolved_rules(rule_views(rules@), 0, constant_map(*constants), Seq::empty()),
        decreases rules@.len() - i,
    {
        match resolve_rule(&rules[i], constants) {
            Ok(rule) => {
                assert(rule_views(out@.push(rule)) =~= rule_views(out@).push(rule@));
                out.push(rule);
            },
            Err(e) => {
                return Err(e);
            },
        }
        i = i + 1;
    }
    Ok(out)
}

/// Whether a path is not one that rules may ask for: it is absolute, or holds `..`.
pub open spec fn is_outside(path: Seq<char>) -> bool {
    ||| path.len() > 0 && path[0] == '/'
    ||| exists|i: int|
        0 <= i && i + 1 < path.len() && #[trigger] path[i] == '.' && path[i + 1] == '.'
}


pub fn leads_outside(path: &str) -> (r: bool)
    ensures
        r == is_outside(path@),
{
    let cs = chars_of(path);
    if cs.len() > 0 && cs[0] == '/' {
        return true;
    }
    let mut i: usize = 1;
    while i < cs.len()
        invariant
            cs@ == path@,
            1 <= i,
            forall|k: int|
                0 <= k && k + 1 < i && k + 1 < cs@.len() ==> !(#[trigger] cs@[k] == '.' && cs@[k
                    + 1] == '.'),
            cs@.len() > 0 ==> cs@[0] != '/',
        decreases cs@.len() - i,
    {
        if cs[i - 1] == '.' && cs[i] == '.' {
            assert(path@[i - 1] == '.');
            return true;
        }
        i = i + 1;
    }
    false
}

/// What is wrong with a rule, if anything.
pub open spec fn rule_fault(
    tables: Seq<(Seq<char>, TableView)>,
    table: Seq<char>,
    i: nat,
    rule: RuleView,
) -> Option<ErrorView> {
    if rule.action == Action::Forward && rule.target is None {
        Some(ErrorView::ForwardWithoutTarget { rule: i, table })
    } else if rule.action == Action::Forward && lookup(tables, rule.target->0) is None {
        Some(ErrorView::ForwardToUnknown { rule: i, table, target: rule.target->0 })
    } else if rule.action == Action::Evaluate && rule.flag_arg is Some && rule.positional is Some {
        Some(ErrorView::FlagAndPositional { rule: i, table })
    } else if rule.action == Action::Evaluate && rule.target is Some && lookup(
        tables,
        rule.target->0,
    ) is None {
        Some(ErrorView::EvaluateToUnknown { rule: i, table, target: rule.target->0 })
    } else if rule.has_file is Some && is_outside(rule.has_file->0) {
        Some(
            ErrorView::HasFilePath { rule: i, table, negated: false, path: rule.has_file->0 },
        )
    } else if rule.has_file_not is Some && is_outside(rule.has_file_not->0) {
        Some(
            ErrorView::HasFilePath { rule: i, table, negated: true, path: rule.has_file_not->0 },
        )
    } else {
        None
    }
}

/// What is wrong with the first bad rule of a table from number `i` on.
pub open spec fn rules_fault(
    tables: Seq<(Seq<char>, TableView)>,
    table: Seq<char>,
    rules: Seq<RuleView>,
    i: int,
) -> Option<ErrorView>
    decreases rules.len() - i,
{
    if i < 0 || i >= rules.len() {
        None
    } else {
        match rule_fault(tables, table, i as nat, rules[i]) {
            Some(e) => Some(e),
            None => rules_fault(tables, table, rules, i + 1),
        }
    }
}

/// What is wrong with the first bad rule of the tables from number `t` on.
pub open spec fn tables_fault(tables: Seq<(Seq<char>, TableView)>, t: int) -> Option<ErrorView>
    decreases tables.len() - t,
{
    if t < 0 || t >= tables.len() {
        None
    } else {
        match rules_fault(tables, tables[t].0, tables[t].1.rules, 0) {
            Some(e) => Some(e),
            None => tables_fault(tables, t + 1),
        }
    }
}

/// What is wrong with a configuration, if anything.
pub open spec fn config_fault(config: ConfigView) -> Option<ErrorView> {
    if lookup(config.tables, config.entry_table) is None {
        Some(ErrorView::EntryNotFound { entry: config.entry_table })
    } else {
        tables_fault(config.tables, 0)
    }
}

/// What is wrong with the first bad pattern of a rule from field `k` on.
pub open spec fn rule_pattern_fault(rule: RuleView, k: int) -> Option<ErrorView>
    decreases PATTERN_FIELDS - k,
{
    if k < 0 || k >= PATTERN_FIELDS {
        None
    } else {
        match pattern_field(rule, k) {
            Some(p) => match pattern_error(p) {
                Some(detail) => Some(ErrorView::InvalidRegex { pattern: p, detail }),
                None => rule_pattern_fault(rule, k + 1),
            },
            None => rule_pattern_fault(rule, k + 1),
        }
    }
}

/// What is wrong with the first bad pattern of the rules from number `i` on.
pub open spec fn rules_pattern_fault(rules: Seq<RuleView>, i: int) -> Option<ErrorView>
    decreases rules.len() - i,
{
    if i < 0 || i >= rules.len() {
        None
    } else {
        match rule_pattern_fault(rules[i], 0) {
            Some(e) => Some(e),
            None => rules_pattern_fault(rules, i + 1),
        }
    }
}

/// What is wrong with the first bad pattern of the tables from number `t` on.
pub open spec fn tables_pattern_fault(tables: Seq<(Seq<char>, TableView)>, t: int) -> Option<
    ErrorView,
>
    decreases tables.len() - t,
{
    if t < 0 || t >= tables.len() {
        None
    } else {
        match rules_pattern_fault(tables[t].1.rules, 0) {
            Some(e) => Some(e),
            None => tables_pattern_fault(tables, t + 1),
        }
    }
}

/// Whether one of the first `n` pattern fields of a rule holds `p`.
pub open spec fn rule_uses(rule: RuleView, p: Seq<char>, n: int) -> bool {
    exists|k: int| 0 <= k < n && #[trigger] pattern_field(rule, k) == Some(p)
}

/// Whether one of the first `n` rules holds the pattern `p`.
pub open spec fn rules_use(rules: Seq<RuleView>, p: Seq<char>, n: int) -> bool {
    exists|i: int| 0 <= i < n && rule_uses(#[trigger] rules[i], p, PATTERN_FIELDS as int)
}

/// Whether a rule of one of the first `n` tables holds the pattern `p`.
pub open spec fn tables_use(tables: Seq<(Seq<char>, TableView)>, p: Seq<char>, n: int) -> bool {
    exists|t: int|
        0 <= t < n && rules_use(
            (#[trigger] tables[t]).1.rules,
            p,
            tables[t].1.rules.len() as int,
        )
}

/// Adds the patterns of rules to a cache.
pub fn compile_rules(cache: RegexCache, rules: &Vec<RuleConfig>) -> (r: Result<RegexCache, Error>)
    ensures
        match r {
            Ok(c) => rules_pattern_fault(rule_views(rules@), 0) is None && forall|p: Seq<char>|
                #![trigger c.holds(p)]
                c.holds(p) <==> cache.holds(p) || rules_use(
                    rule_views(rules@),
                    p,
                    rules@.len() as int,
                ),
            Err(e) => rules_pattern_fault(rule_views(rules@), 0) == Some(e@),
        },
{
    let ghost views = rule_views(rules@);
    let ghost first = cache;
    let mut cache = cache;
    let mut i: usize = 0;
    while i < rules.len()
        invariant
            i <= rules@.len(),
            views == rule_views(rules@),
            rules_pattern_fault(views, i as int) == rules_pattern_fault(views, 0),
            forall|p: Seq<char>|
                #![trigger cache.holds(p)]
                cache.holds(p) <==> first.holds(p) || rules_use(views, p, i as int),
        decreases rules@.len() - i,
    {
        let ghost before = cache;
        match compile_rule(cache, &rules[i]) {
            Ok(more) => {
                cache = more;
                proof {
                    assert forall|p: Seq<char>|
                        #![trigger cache.holds(p)]
                        cache.holds(p) <==> first.holds(p) || rules_use(views, p, i + 1) by {
                        assert(before.holds(p) <==> first.holds(p) || rules_use(
                            views,
                            p,
                            i as int,
                        ));
                        if rule_uses(rules@[i as int]@, p, PATTERN_FIELDS as int) {
                            assert(rule_uses(views[i as int], p, PATTERN_FIELDS as int));
                        }
                    }
                }
            },
            Err(e) => {
                return Err(e);
            },
        }
        i = i + 1;
    }
    Ok(cache)
}

fn compile_rule(cache: RegexCache, rule: &RuleConfig) -> (r: Result<RegexCache, Error>)
    ensures
        match r {
            Ok(c) => rule_pattern_fault(rule@, 0) is None && forall|p: Seq<char>|
                #![trigger c.holds(p)]
                c.holds(p) <==> cache.holds(p) || rule_uses(rule@, p, PATTERN_FIELDS as int),
            Err(e) => rule_pattern_fault(rule@, 0) == Some(e@),
        },
{
    let ghost first = cache;
    let mut cache = cache;
    let mut k: usize = 0;
    while k < PATTERN_FIELDS
        invariant
            k <= PATTERN_FIELDS,
            rule_pattern_fault(rule@, k as int) == rule_pattern_fault(rule@, 0),
            forall|p: Seq<char>|
                #![trigger cache.holds(p)]
                cache.holds(p) <==> first.holds(p) || rule_uses(rule@, p, k as int),
        decreases PATTERN_FIELDS - k,
    {
        let ghost before = cache;
        match rule.pattern(k) {
            Some(pattern) => match cache.with(pattern) {
                Ok(more) => {
                    cache = more;
                },
                Err(e) => {
                    return Err(e);
                },
            },
            None => {},
        }
        proof {
            assert forall|p: Seq<char>|
                #![trigger cache.holds(p)]
                cache.holds(p) <==> first.holds(p) || rule_uses(rule@, p, k + 1) by {
                assert(before.holds(p) <==> first.holds(p) || rule_uses(rule@, p, k as int));
                if pattern_field(rule@, k as int) == Some(p) {
                    assert(rule_uses(rule@, p, k + 1));
                }
            }
        }
        k = k + 1;
    }
    Ok(cache)
}

/// What comes of checking a configuration: the configuration, or what is wrong with
/// its rules or its patterns.
pub open spec fn checked(config: ConfigView) -> Result<ConfigView, ErrorView> {
    match config_fault(config) {
        Some(e) => Err(e),
        None => match tables_pattern_fault(config.tables, 0) {
            Some(e) => Err(e),
            None => Ok(config),
        },
    }
}

/// What comes of putting constants in place and then checking.
pub open spec fn prepared(config: ConfigView) -> Result<ConfigView, ErrorView> {
    match resolved_tables(config.tables, 0, config.constants, Seq::empty()) {
        Ok(tables) => checked(ConfigView { tables, ..config }),
        Err(e) => Err(e),
    }
}

/// The name of an action.
pub open spec fn action_name(action: Action) -> Seq<char> {
    match action {
        Action::Allow => "Allow"@,
        Action::Deny => "Deny"@,
        Action::Passthrough => "Passthrough"@,
        Action::ForcePassthrough => "ForcePassthrough"@,
        Action::Forward => "Forward"@,
        Action::Evaluate => "Evaluate"@,
    }
}

impl Action {
    /// The name of the action.
    pub fn name(&self) -> (r: &'static str)
        ensures
            r@ == action_name(*self),
    {
        match self {
            Action::Allow => "Allow",
            Action::Deny => "Deny",
            Action::Passthrough => "Passthrough",
            Action::ForcePassthrough => "ForcePassthrough",
            Action::Forward => "Forward",
            Action::Evaluate => "Evaluate",
        }
    }
}

/// The line of a summary that is about one table.
pub open spec fn table_line(entry: (Seq<char>, TableView)) -> Seq<char> {
    "\n  Table '"@ + entry.0 + "': "@ + decimal(entry.1.rules.len()) + " rules, default="@
        + action_name(entry.1.default)
}

/// The lines of a summary that are about the first `n` tables.
pub open spec fn table_lines(tables: Seq<(Seq<char>, TableView)>, n: int) -> Seq<char>
    decreases n,
{
    if n <= 0 {
        Seq::empty()
    } else {
        table_lines(tables, n - 1) + table_line(tables[n - 1])
    }
}

/// The text that sums a configuration up.
pub open spec fn summary_text(config: ConfigView) -> Seq<char> {
    "Entry table: "@ + config.entry_table + table_lines(config.tables, config.tables.len() as int)
}

} // verus!

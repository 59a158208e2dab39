//! Decomposition of a shell command line into the commands that it runs.
use vstd::prelude::*;
use crate::paths::{join, normalize_path};
use crate::shell_grammar::{
    add_word, after, argument, arguments, awaiting, backtick_at, bodies_end, char_at, check_text,
    clean_args, command_at, commands_from, commands_of, ends_word, entered, heredoc_end,
    is_assignment_builtin, is_fd_prefix, is_number, is_path_argument, is_path_char, is_range,
    is_script, lemma_skips, list_at, next_command, no_parts, on_new_line, opened, opening_at,
    parts_at, past, piece_at, quoted_at, resolved, simple_command, skip_blanks, skip_digits,
    skip_lines, skip_margin, slashes, spans_at, strip_assignments, target_at, text_end,
    without_placeholders, word_after, word_at, CommandView, Parts, Place, Scan, Word,
};
use crate::shell_properties::lists_are_read_to_the_end;
use crate::text::{
    all_names, chars_of, find_char, is_digit, join_from, lemma_texts_push, replace, str_eq,
    string_of, texts, trim, trim_quotes, unquoted,
};

verus! {

/// A command that a command line runs.
#[derive(Debug, Clone, PartialEq)]
pub struct ParsedCommand {
    pub program: String,
    /// The arguments. Behind a `cd`, those that are written as paths are resolved.
    pub args: Vec<String>,
    /// The arguments as written, of which the check string is made.
    pub written: Vec<String>,
    /// The working directory that the command runs in.
    pub effective_cwd: String,
    /// Whether a `cd` led to that directory.
    pub moved: bool,
    /// The text of the command as written, with the bodies of its here-documents where
    /// they follow it.
    pub raw: String,
    /// Targets of `<` redirections.
    pub redirects_in: Vec<String>,
    /// Targets of `>` and `>>` redirections.
    pub redirects_out: Vec<String>,
    /// `VAR=value` assignments in front of the command.
    pub env_vars: Vec<String>,
}

impl View for ParsedCommand {
    type V = CommandView;

    open spec fn view(&self) -> CommandView {
        CommandView {
            program: self.program@,
            args: texts(self.args@),
            written: texts(self.written@),
            effective_cwd: self.effective_cwd@,
            moved: self.moved,
            raw: self.raw@,
            redirects_in: texts(self.redirects_in@),
            redirects_out: texts(self.redirects_out@),
            env_vars: texts(self.env_vars@),
        }
    }
}

impl ParsedCommand {
    /// The text that `command` patterns are matched against: the program and its
    /// arguments as written, without substitution placeholders. Of a bare assignment it is
    /// the whole text.
    pub fn check_string(&self) -> (r: String)
        ensures
            r@ == check_text(self@),
    {
        if self.program.as_str().is_empty() {
            let raw = chars_of(self.raw.as_str());
            assert(raw@.subrange(0, raw@.len() as int) =~= self.raw@);
            return trim(&raw, 0, raw.len());
        }
        let mut cleaned: Vec<String> = Vec::new();
        let mut i: usize = 0;
        let ghost args = texts(self.written@);
        assert(texts(cleaned@) =~= clean_args(args.take(0)));
        while i < self.written.len()
            invariant
                i <= self.written@.len(),
                args == texts(self.written@),
                texts(cleaned@) == clean_args(args.take(i as int)),
            decreases self.written@.len() - i,
        {
            assert(args.take(i + 1).drop_last() =~= args.take(i as int));
            assert(args.take(i + 1).last() == self.written@[i as int]@);
            let arg = strip_placeholders(self.written[i].as_str());
            if !arg.as_str().is_empty() {
                proof {
                    lemma_texts_push(cleaned@, arg);
                }
                cleaned.push(arg);
            }
            i = i + 1;
        }
        assert(args.take(i as int) =~= args);
        if cleaned.len() == 0 {
            return self.program.clone();
        }
        let mut r = self.program.clone();
        r.push_str(" ");
        let list = join_from(cleaned.as_slice(), 0, " ");
        assert(cleaned@.skip(0) =~= cleaned@);
        r.push_str(list.as_str());
        r
    }
}

/// The commands of a vector, in mathematical form.
pub open spec fn command_views(v: Seq<ParsedCommand>) -> Seq<CommandView> {
    Seq::new(v.len(), |i: int| v[i]@)
}

/// Where the shell stands.
struct Standing {
    dir: String,
    moved: bool,
    pending: Vec<String>,
}

impl View for Standing {
    type V = Place;

    closed spec fn view(&self) -> Place {
        Place { dir: self.dir@, moved: self.moved, pending: texts(self.pending@) }
    }
}

impl Clone for Standing {
    fn clone(&self) -> (r: Standing)
        ensures
            r@ == self@,
    {
        let pending = strings_from(&self.pending, 0);
        assert(self.pending@.skip(0) =~= self.pending@);
        Standing { dir: self.dir.clone(), moved: self.moved, pending }
    }
}

struct Parser {
    input: Vec<char>,
    pos: usize,
    cwd: Standing,
    home: String,
    commands: Vec<ParsedCommand>,
}

impl Parser {
    spec fn inv(self) -> bool {
        self.pos <= self.input@.len()
    }

    spec fn found(self) -> Seq<CommandView> {
        command_views(self.commands@)
    }

    /// What reading leaves behind: the position, the directory and the new commands.
    spec fn moved(self, from: Parser, end: int, cwd: Place, found: Seq<CommandView>) -> bool {
        &&& self.input == from.input
        &&& self.home == from.home
        &&& from.pos <= self.pos <= self.input@.len()
        &&& self.pos == end
        &&& self.cwd@ == cwd
        &&& self.found() == from.found() + found
    }

    fn new(input: &str, cwd: &str, moved: bool, home: &str) -> (r: Parser)
        ensures
            r.input@ == input@,
            r.pos == 0,
            r.cwd@ == (Place { moved, ..entered(cwd@) }),
            r.home@ == home@,
            r.found() == Seq::<CommandView>::empty(),
    {
        let r = Parser {
            input: chars_of(input),
            pos: 0,
            cwd: Standing { dir: cwd.to_owned(), moved, pending: Vec::new() },
            home: home.to_owned(),
            commands: Vec::new(),
        };
        assert(texts(r.cwd.pending@) =~= Seq::<Seq<char>>::empty());
        assert(r.found() =~= Seq::<CommandView>::empty());
        r
    }

    fn peek(&self) -> (r: Option<char>)
        requires
            self.inv(),
        ensures
            r == if self.pos < self.input@.len() {
                Some(self.input@[self.pos as int])
            } else {
                None
            },
    {
        if self.pos < self.input.len() {
            Some(self.input[self.pos])
        } else {
            None
        }
    }

    fn peek2(&self) -> (r: Option<char>)
        requires
            self.inv(),
        ensures
            r == if self.pos + 1 < self.input@.len() {
                Some(self.input@[self.pos + 1])
            } else {
                None
            },
    {
        if self.input.len() - self.pos > 1 {
            Some(self.input[self.pos + 1])
        } else {
            None
        }
    }

    /// Whether the character `c` comes next.
    fn sees(&self, c: char) -> (r: bool)
        requires
            self.inv(),
        ensures
            r == char_at(self.input@, self.pos as int, c),
    {
        match self.peek() {
            Some(d) => c == d,
            None => false,
        }
    }

    fn advance(&mut self) -> (r: Option<char>)
        requires
            old(self).inv(),
        ensures
            final(self).moved(
                *old(self),
                if old(self).pos < old(self).input@.len() {
                    old(self).pos + 1
                } else {
                    old(self).pos as int
                },
                old(self).cwd@,
                Seq::empty(),
            ),
            final(self).commands == old(self).commands,
            r == if old(self).pos < old(self).input@.len() {
                Some(old(self).input@[old(self).pos as int])
            } else {
                None
            },
    {
        let r = self.peek();
        if r.is_some() {
            assert(self.pos < self.input.len());
            self.pos = self.pos + 1;
        }
        assert(self.found() =~= old(self).found() + Seq::<CommandView>::empty());
        r
    }

    /// Consumes the character `c` if it comes next.
    fn accept(&mut self, c: char)
        requires
            old(self).inv(),
        ensures
            final(self).moved(
                *old(self),
                past(old(self).input@, old(self).pos as int, c),
                old(self).cwd@,
                Seq::empty(),
            ),
            final(self).commands == old(self).commands,
    {
        if self.sees(c) {
            self.advance();
        }
        assert(self.found() =~= old(self).found() + Seq::<CommandView>::empty());
    }

    fn skip_whitespace(&mut self)
        requires
            old(self).inv(),
        ensures
            final(self).moved(
                *old(self),
                skip_blanks(old(self).input@, old(self).pos as int),
                old(self).cwd@,
                Seq::empty(),
            ),
            final(self).commands == old(self).commands,
    {
        while self.pos < self.input.len() && (self.input[self.pos] == ' ' || self.input[self.pos]
            == '\t')
            invariant
                self.input == old(self).input,
                self.home == old(self).home,
                self.cwd@ == old(self).cwd@,
                self.commands == old(self).commands,
                old(self).pos <= self.pos <= self.input@.len(),
                skip_blanks(self.input@, self.pos as int) == skip_blanks(
                    self.input@,
                    old(self).pos as int,
                ),
            decreases self.input@.len() - self.pos,
        {
            self.pos = self.pos + 1;
        }
        assert(self.found() =~= old(self).found() + Seq::<CommandView>::empty());
    }

    fn skip_whitespace_and_newlines(&mut self)
        requires
            old(self).inv(),
        ensures
            final(self).moved(
                *old(self),
                skip_lines(old(self).input@, old(self).pos as int),
                old(self).cwd@,
                Seq::empty(),
            ),
            final(self).commands == old(self).commands,
    {
        while self.pos < self.input.len() && (self.input[self.pos] == ' ' || self.input[self.pos]
            == '\t' || self.input[self.pos] == '\n' || self.input[self.pos] == '\r')
            invariant
                self.input == old(self).input,
                self.home == old(self).home,
                self.cwd@ == old(self).cwd@,
                self.commands == old(self).commands,
                old(self).pos <= self.pos <= self.input@.len(),
                skip_lines(self.input@, self.pos as int) == skip_lines(
                    self.input@,
                    old(self).pos as int,
                ),
            decreases self.input@.len() - self.pos,
        {
            self.pos = self.pos + 1;
        }
        assert(self.found() =~= old(self).found() + Seq::<CommandView>::empty());
    }

    fn skip_margin(&mut self)
        requires
            old(self).inv(),
        ensures
            final(self).moved(
                *old(self),
                skip_margin(old(self).input@, old(self).pos as int),
                old(self).cwd@,
                Seq::empty(),
            ),
            final(self).commands == old(self).commands,
    {
        while self.pos < self.input.len() && (self.input[self.pos] == ' ' || self.input[self.pos]
            == '\t' || self.input[self.pos] == '\r')
            invariant
                self.input == old(self).input,
                self.home == old(self).home,
                self.cwd@ == old(self).cwd@,
                self.commands == old(self).commands,
                old(self).pos <= self.pos <= self.input@.len(),
                skip_margin(self.input@, self.pos as int) == skip_margin(
                    self.input@,
                    old(self).pos as int,
                ),
            decreases self.input@.len() - self.pos,
        {
            self.pos = self.pos + 1;
        }
        assert(self.found() =~= old(self).found() + Seq::<CommandView>::empty());
    }

    fn skip_number(&mut self)
        requires
            old(self).inv(),
        ensures
            final(self).moved(
                *old(self),
                skip_digits(old(self).input@, old(self).pos as int),
                old(self).cwd@,
                Seq::empty(),
            ),
            final(self).commands == old(self).commands,
    {
        while self.pos < self.input.len() && self.input[self.pos] >= '0' && self.input[self.pos]
            <= '9'
            invariant
                self.input == old(self).input,
                self.home == old(self).home,
                self.cwd@ == old(self).cwd@,
                self.commands == old(self).commands,
                old(self).pos <= self.pos <= self.input@.len(),
                skip_digits(self.input@, self.pos as int) == skip_digits(
                    self.input@,
                    old(self).pos as int,
                ),
            decreases self.input@.len() - self.pos,
        {
            self.pos = self.pos + 1;
        }
        assert(self.found() =~= old(self).found() + Seq::<CommandView>::empty());
    }

    /// Skips a line break and the bodies of the here-documents that were opened in front
    /// of it.
    fn skip_bodies(&mut self)
        requires
            old(self).inv(),
            char_at(old(self).input@, old(self).pos as int, '\n'),
        ensures
            final(self).moved(
                *old(self),
                bodies_end(old(self).input@, old(self).pos + 1, old(self).cwd@.pending),
                on_new_line(old(self).cwd@),
                Seq::empty(),
            ),
            final(self).pos > old(self).pos,
    {
        assert(self.pos < self.input.len());
        self.pos = skip_heredocs(&self.input, self.pos + 1, &self.cwd.pending);
        self.cwd = Standing {
            dir: self.cwd.dir.clone(),
            moved: self.cwd.moved,
            pending: Vec::new(),
        };
        assert(texts(self.cwd.pending@) =~= Seq::<Seq<char>>::empty());
        assert(self.cwd@ == on_new_line(old(self).cwd@));
        assert(self.found() =~= old(self).found() + Seq::<CommandView>::empty());
    }

    /// Parses commands separated by `;`, `&&`, `||`, `|`, `&` and line breaks; inside
    /// a bracket, up to a closing bracket.
    fn parse_command_list(&mut self, inner: bool)
        requires
            old(self).inv(),
        ensures
            ({
                let scan = list_at(
                    old(self).input@,
                    old(self).pos as int,
                    old(self).cwd@,
                    old(self).home@,
                    inner,
                );
                final(self).moved(*old(self), scan.end, scan.cwd, scan.found)
            }),
            !inner ==> final(self).pos == final(self).input@.len(),
            final(self).input == old(self).input,
            old(self).found().is_prefix_of(final(self).found()),
        decreases old(self).input@.len() - old(self).pos, 5int,
    {
        proof {
            lists_are_read_to_the_end(self.input@, self.pos as int, self.cwd@, self.home@);
        }
        let ghost s = self.input@;
        let ghost home = self.home@;
        let ghost goal = list_at(s, self.pos as int, self.cwd@, home, inner);
        let ghost mut sofar: Seq<CommandView> = Seq::empty();
        assert(after(sofar, goal).found =~= goal.found);
        assert(self.found() =~= old(self).found() + sofar);
        loop
            invariant_except_break
                self.input == old(self).input,
                self.home == old(self).home,
                s == self.input@,
                home == self.home@,
                old(self).pos <= self.pos <= s.len(),
                self.found() == old(self).found() + sofar,
                goal == after(sofar, list_at(s, self.pos as int, self.cwd@, home, inner)),
            ensures
                self.moved(*old(self), goal.end, goal.cwd, goal.found),
            decreases s.len() - self.pos,
        {
            let ghost here = self.pos as int;
            let ghost found0 = self.found();
            let ghost rest = list_at(s, here, self.cwd@, home, inner);
            proof {
                lemma_skips(s, here);
            }
            if self.cwd.pending.len() == 0 {
                self.skip_whitespace_and_newlines();
            } else {
                self.skip_margin();
            }
            assert(self.found() =~= found0);
            if self.pos >= self.input.len() {
                assert(sofar + Seq::<CommandView>::empty() =~= sofar);
                break;
            }
            if self.sees('\n') {
                self.skip_bodies();
                assert(self.found() =~= found0);
                continue;
            }
            if inner && (self.sees(')') || self.sees('}')) {
                assert(sofar + Seq::<CommandView>::empty() =~= sofar);
                break;
            }
            if self.sees(';') {
                self.advance();
                assert(self.found() =~= found0);
                continue;
            }
            let before = self.pos;
            let ghost cwd0 = self.cwd@;
            let ghost one = command_at(s, before as int, cwd0, home);
            self.parse_single_command();
            assert(self.found() =~= old(self).found() + (sofar + one.found));
            let ghost found1 = self.found();
            proof {
                lemma_skips(s, self.pos as int);
            }
            self.skip_whitespace();
            assert(self.found() =~= found1);
            let ghost q = self.pos as int;
            if inner && (self.sees(')') || self.sees('}')) {
                proof {
                    sofar = sofar + one.found;
                }
                break;
            }
            if self.sees(';') || self.sees('\n') && self.cwd.pending.len() == 0 {
                self.advance();
            } else if self.sees('&') {
                self.advance();
                self.accept('&');
            } else if self.sees('|') {
                self.advance();
                self.accept('|');
            } else if self.pos == before {
                self.advance();
            }
            assert(self.found() =~= found1);
            assert(self.pos == next_command(s, before as int, q, one.cwd.pending.len() > 0));
            proof {
                let next = list_at(s, self.pos as int, one.cwd, home, inner);
                assert(rest == after(one.found, next));
                assert(sofar + (one.found + next.found) =~= (sofar + one.found) + next.found);
                sofar = sofar + one.found;
            }
        }
    }

    /// Parses one command: a subshell, a command group or a simple command.
    fn parse_single_command(&mut self)
        requires
            old(self).inv(),
        ensures
            ({
                let scan = command_at(
                    old(self).input@,
                    old(self).pos as int,
                    old(self).cwd@,
                    old(self).home@,
                );
                final(self).moved(*old(self), scan.end, scan.cwd, scan.found)
            }),
        decreases old(self).input@.len() - old(self).pos, 4int,
    {
        proof {
            lemma_skips(self.input@, self.pos as int);
        }
        self.skip_whitespace();
        assert(self.found() =~= old(self).found());
        if self.pos >= self.input.len() {
            return;
        }
        if self.sees('(') {
            self.parse_subshell();
            return;
        }
        if self.sees('{') {
            self.parse_command_group();
            return;
        }
        let start = self.pos;
        let ghost parts = parts_at(
            self.input@,
            start as int,
            self.cwd@,
            self.home@,
            no_parts(start as int),
        );
        let before = self.cwd.pending.len();
        let (words, redirects_in, redirects_out) = self.read_parts();
        let opens = self.cwd.pending.len() > before;
        self.finish_command(
            start,
            words,
            redirects_in,
            redirects_out,
            opens,
            Ghost(old(self).cwd@),
        );
        proof {
            let scan = simple_command(
                old(self).input@,
                start as int,
                parts,
                old(self).cwd@,
                old(self).home@,
            );
            assert(self.found() =~= old(self).found() + scan.found);
        }
    }

    /// `( ... )`: a directory change inside does not outlive the subshell.
    fn parse_subshell(&mut self)
        requires
            old(self).inv(),
            char_at(old(self).input@, old(self).pos as int, '('),
        ensures
            ({
                let body = list_at(
                    old(self).input@,
                    old(self).pos + 1,
                    old(self).cwd@,
                    old(self).home@,
                    true,
                );
                final(self).moved(
                    *old(self),
                    past(old(self).input@, body.end, ')'),
                    awaiting(old(self).cwd@, body.cwd.pending),
                    body.found,
                )
            }),
        decreases old(self).input@.len() - old(self).pos, 3int,
    {
        self.advance();
        let ghost found0 = self.found();
        assert(found0 =~= old(self).found());
        self.parse_substitution();
    }

    /// `{ ... }`: runs in the same shell, so a directory change stays.
    fn parse_command_group(&mut self)
        requires
            old(self).inv(),
            char_at(old(self).input@, old(self).pos as int, '{'),
        ensures
            ({
                let body = list_at(
                    old(self).input@,
                    old(self).pos + 1,
                    old(self).cwd@,
                    old(self).home@,
                    true,
                );
                final(self).moved(
                    *old(self),
                    past(old(self).input@, body.end, '}'),
                    body.cwd,
                    body.found,
                )
            }),
        decreases old(self).input@.len() - old(self).pos, 3int,
    {
        self.advance();
        self.parse_command_list(true);
        let ghost found1 = self.found();
        self.accept('}');
        assert(self.found() =~= found1);
    }

    /// Reads the words and redirections of a simple command.
    #[verifier::rlimit(60)]
    #[verifier::spinoff_prover]
    fn read_parts(&mut self) -> (r: (Vec<String>, Vec<String>, Vec<String>))
        requires
            old(self).inv(),
        ensures
            ({
                let start = old(self).pos as int;
                let parts = parts_at(
                    old(self).input@,
                    start,
                    old(self).cwd@,
                    old(self).home@,
                    no_parts(start),
                );
                &&& final(self).moved(
                    *old(self),
                    parts.end,
                    awaiting(old(self).cwd@, parts.pending),
                    parts.found,
                )
                &&& texts(r.0@) == parts.words
                &&& texts(r.1@) == parts.redirects_in
                &&& texts(r.2@) == parts.redirects_out
            }),
        decreases old(self).input@.len() - old(self).pos, 3int,
    {
        let mut words: Vec<String> = Vec::new();
        let mut redirects_in: Vec<String> = Vec::new();
        let mut redirects_out: Vec<String> = Vec::new();
        let ghost s = self.input@;
        let ghost home = self.home@;
        let ghost mut acc = no_parts(self.pos as int);
        let ghost goal = parts_at(s, self.pos as int, self.cwd@, home, acc);
        assert(texts(words@) =~= acc.words);
        assert(self.found() =~= old(self).found() + acc.found);
        loop
            invariant_except_break
                self.input == old(self).input,
                self.home == old(self).home,
                self.cwd@ == awaiting(old(self).cwd@, self.cwd@.pending),
                s == self.input@,
                home == self.home@,
                old(self).pos <= self.pos <= s.len(),
                self.found() == old(self).found() + acc.found,
                texts(words@) == acc.words,
                texts(redirects_in@) == acc.redirects_in,
                texts(redirects_out@) == acc.redirects_out,
                goal == parts_at(s, self.pos as int, self.cwd@, home, acc),
            ensures
                self.moved(
                    *old(self),
                    goal.end,
                    awaiting(old(self).cwd@, goal.pending),
                    goal.found,
                ),
                texts(words@) == goal.words,
                texts(redirects_in@) == goal.redirects_in,
                texts(redirects_out@) == goal.redirects_out,
            decreases s.len() - self.pos,
        {
            let ghost found0 = self.found();
            proof {
                lemma_skips(s, self.pos as int);
            }
            self.skip_whitespace();
            assert(self.found() =~= found0);
            let c = match self.peek() {
                None => {
                    break;
                },
                Some(c) => c,
            };
            if c == ';' || c == '\n' || c == '&' || c == '|' || c == ')' || c == '}' {
                break;
            }
            let ghost p = self.pos as int;
            let ghost cwd = self.cwd@;
            if c == '<' {
                let target = self.read_input();
                if let Some(text) = target {
                    proof {
                        let found = target_at(s, p + 1, cwd, home);
                        lemma_texts_push(redirects_in@, text);
                        acc = Parts {
                            redirects_in: add_word(acc.redirects_in, found.text),
                            found: acc.found + found.found,
                            ..acc
                        };
                    }
                    if !text.as_str().is_empty() {
                        redirects_in.push(text);
                    }
                } else {
                    proof {
                        if char_at(s, p + 1, '<') {
                            let word = opening_at(s, p + 2, cwd, home);
                            acc = Parts { found: acc.found + word.found, ..acc };
                        }
                    }
                }
                assert(self.found() =~= old(self).found() + acc.found);
            } else if c == '>' {
                let target = self.read_output();
                if let Some(text) = target {
                    proof {
                        let found = target_at(s, past(s, p + 1, '>'), cwd, home);
                        lemma_texts_push(redirects_out@, text);
                        acc = Parts {
                            redirects_out: add_word(acc.redirects_out, found.text),
                            found: acc.found + found.found,
                            ..acc
                        };
                    }
                    if !text.as_str().is_empty() {
                        redirects_out.push(text);
                    }
                }
                assert(self.found() =~= old(self).found() + acc.found);
            } else {
                let ghost word = word_at(s, p, cwd, home);
                let text = self.read_word();
                assert(self.found() =~= old(self).found() + (acc.found + word.found));
                let numeric = all_digits(text.as_str());
                let is_fd = numeric && (self.sees('>') || self.sees('<'));
                proof {
                    lemma_texts_push(words@, text);
                    acc = Parts {
                        words: if is_fd_prefix(s, word) {
                            acc.words
                        } else {
                            add_word(acc.words, word.text)
                        },
                        found: acc.found + word.found,
                        ..acc
                    };
                }
                if !text.as_str().is_empty() && !is_fd {
                    words.push(text);
                }
            }
        }
        (words, redirects_in, redirects_out)
    }

    /// Reads what begins with `<`: a redirection, which has a target, or a here-document, a
    /// text or a copy of a descriptor, which have none.
    fn read_input(&mut self) -> (r: Option<String>)
        requires
            old(self).inv(),
            char_at(old(self).input@, old(self).pos as int, '<'),
        ensures
            ({
                let s = old(self).input@;
                let p = old(self).pos as int;
                let cwd = old(self).cwd@;
                let home = old(self).home@;
                let word = opening_at(s, p + 2, cwd, home);
                let target = target_at(s, p + 1, cwd, home);
                if char_at(s, p + 1, '<') {
                    &&& final(self).moved(
                        *old(self),
                        word.end,
                        awaiting(cwd, opened(s, p + 2, word)),
                        word.found,
                    )
                    &&& r is None
                } else if char_at(s, p + 1, '&') {
                    &&& final(self).moved(*old(self), skip_digits(s, p + 2), cwd, Seq::empty())
                    &&& r is None
                } else {
                    &&& final(self).moved(
                        *old(self),
                        target.end,
                        awaiting(cwd, target.pending),
                        target.found,
                    )
                    &&& r is Some && r->0@ == target.text
                }
            }),
            final(self).pos > old(self).pos,
        decreases old(self).input@.len() - old(self).pos, 2int,
    {
        let ghost found0 = self.found();
        let ghost s = self.input@;
        let ghost p = self.pos as int;
        self.advance();
        assert(self.found() =~= found0);
        if self.sees('<') {
            self.advance();
            assert(self.found() =~= found0);
            self.read_opening();
            return None;
        }
        if self.sees('&') {
            self.advance();
            proof {
                lemma_skips(s, p + 2);
            }
            self.skip_number();
            assert(self.found() =~= found0 + Seq::<CommandView>::empty());
            return None;
        }
        Some(self.read_target())
    }

    /// Reads what begins with `>`: a copy of a descriptor, which is passed over, or a
    /// redirection, which has a target.
    fn read_output(&mut self) -> (r: Option<String>)
        requires
            old(self).inv(),
            char_at(old(self).input@, old(self).pos as int, '>'),
        ensures
            ({
                let s = old(self).input@;
                let p = old(self).pos as int;
                let cwd = old(self).cwd@;
                let target = target_at(s, past(s, p + 1, '>'), cwd, old(self).home@);
                if char_at(s, p + 1, '&') {
                    &&& final(self).moved(*old(self), skip_digits(s, p + 2), cwd, Seq::empty())
                    &&& r is None
                } else {
                    &&& final(self).moved(
                        *old(self),
                        target.end,
                        awaiting(cwd, target.pending),
                        target.found,
                    )
                    &&& r is Some && r->0@ == target.text
                }
            }),
            final(self).pos > old(self).pos,
        decreases old(self).input@.len() - old(self).pos, 2int,
    {
        let ghost found0 = self.found();
        let ghost s = self.input@;
        let ghost p = self.pos as int;
        self.advance();
        assert(self.found() =~= found0);
        if self.sees('&') {
            self.advance();
            proof {
                lemma_skips(s, p + 2);
            }
            self.skip_number();
            assert(self.found() =~= found0 + Seq::<CommandView>::empty());
            return None;
        }
        self.accept('>');
        assert(self.found() =~= found0);
        Some(self.read_target())
    }

    /// Reads what stands behind `<<`: the delimiter of a here-document, whose body begins on
    /// the next line, or a text.
    fn read_opening(&mut self)
        requires
            old(self).inv(),
        ensures
            ({
                let s = old(self).input@;
                let p = old(self).pos as int;
                let word = opening_at(s, p, old(self).cwd@, old(self).home@);
                final(self).moved(
                    *old(self),
                    word.end,
                    awaiting(old(self).cwd@, opened(s, p, word)),
                    word.found,
                )
            }),
        decreases old(self).input@.len() - old(self).pos, 3int,
    {
        let ghost found0 = self.found();
        if self.sees('<') {
            self.advance();
            assert(self.found() =~= found0);
            self.read_target();
            return;
        }
        self.accept('-');
        assert(self.found() =~= found0);
        let delimiter = self.read_target();
        let ghost found1 = self.found();
        let mut pending = strings_from(&self.cwd.pending, 0);
        proof {
            assert(pending@ =~= self.cwd.pending@);
            lemma_texts_push(pending@, delimiter);
        }
        pending.push(delimiter);
        self.cwd = Standing { dir: self.cwd.dir.clone(), moved: self.cwd.moved, pending };
        assert(self.found() =~= found1);
    }

    /// Reads the target of a redirection.
    fn read_target(&mut self) -> (r: String)
        requires
            old(self).inv(),
        ensures
            ({
                let word = target_at(
                    old(self).input@,
                    old(self).pos as int,
                    old(self).cwd@,
                    old(self).home@,
                );
                &&& final(self).moved(
                    *old(self),
                    word.end,
                    awaiting(old(self).cwd@, word.pending),
                    word.found,
                )
                &&& r@ == word.text
            }),
        decreases old(self).input@.len() - old(self).pos, 2int,
    {
        proof {
            lemma_skips(self.input@, self.pos as int);
        }
        self.skip_whitespace();
        assert(self.found() =~= old(self).found());
        self.read_word()
    }

    /// Reads one word, with its quoted parts and substitutions.
    #[verifier::rlimit(60)]
    #[verifier::spinoff_prover]
    fn read_word(&mut self) -> (r: String)
        requires
            old(self).inv(),
        ensures
            ({
                let word = word_at(
                    old(self).input@,
                    old(self).pos as int,
                    old(self).cwd@,
                    old(self).home@,
                );
                &&& final(self).moved(
                    *old(self),
                    word.end,
                    awaiting(old(self).cwd@, word.pending),
                    word.found,
                )
                &&& r@ == word.text
            }),
            old(self).pos < old(self).input@.len() && !ends_word(
                old(self).input@[old(self).pos as int],
            ) ==> final(self).pos > old(self).pos,
            final(self).input == old(self).input,
            final(self).cwd@.dir == old(self).cwd@.dir,
            final(self).cwd@.moved == old(self).cwd@.moved,
            old(self).pos <= final(self).pos <= final(self).input@.len(),
            old(self).found().is_prefix_of(final(self).found()),
        decreases old(self).input@.len() - old(self).pos, 1int,
    {
        let mut result = String::new();
        let ghost s = self.input@;
        let ghost home = self.home@;
        let ghost goal = word_at(s, self.pos as int, self.cwd@, home);
        let ghost mut text: Seq<char> = Seq::empty();
        let ghost mut sofar: Seq<CommandView> = Seq::empty();
        assert(text + goal.text =~= goal.text);
        assert(sofar + goal.found =~= goal.found);
        assert(self.found() =~= old(self).found() + sofar);
        loop
            invariant_except_break
                self.input == old(self).input,
                self.home == old(self).home,
                self.cwd@ == awaiting(old(self).cwd@, self.cwd@.pending),
                s == self.input@,
                home == self.home@,
                old(self).pos <= self.pos <= s.len(),
                self.found() == old(self).found() + sofar,
                result@ == text,
                ({
                    let rest = word_at(s, self.pos as int, self.cwd@, home);
                    goal == (Word {
                        text: text + rest.text,
                        found: sofar + rest.found,
                        ..rest
                    })
                }),
            ensures
                self.moved(
                    *old(self),
                    goal.end,
                    awaiting(old(self).cwd@, goal.pending),
                    goal.found,
                ),
                result@ == goal.text,
                old(self).pos < s.len() && !ends_word(s[old(self).pos as int]) ==> self.pos
                    > old(self).pos,
            decreases s.len() - self.pos,
        {
            let c = match self.peek() {
                None => {
                    assert(text + Seq::<char>::empty() =~= text);
                    assert(sofar + Seq::<CommandView>::empty() =~= sofar);
                    break;
                },
                Some(c) => c,
            };
            if c == ' ' || c == '\t' || c == '\n' || c == ';' || c == '&' || c == '|' || c == ')'
                || c == '}' || c == '>' || c == '<' {
                assert(text + Seq::<char>::empty() =~= text);
                assert(sofar + Seq::<CommandView>::empty() =~= sofar);
                break;
            }
            let ghost p = self.pos as int;
            let ghost cwd = self.cwd@;
            let ghost first = piece_at(s, p, cwd, home);
            self.read_piece(&mut result);
            proof {
                let rest = word_at(s, self.pos as int, self.cwd@, home);
                assert(word_at(s, p, cwd, home) == word_after(first, rest));
                assert((text + first.text) + rest.text =~= text + (first.text + rest.text));
                assert((sofar + first.found) + rest.found =~= sofar + (first.found + rest.found));
                text = text + first.text;
                sofar = sofar + first.found;
                assert(self.found() =~= old(self).found() + sofar);
            }
        }
        result
    }

    /// Reads one part of a word and appends its text to `out`.
    fn read_piece(&mut self, out: &mut String)
        requires
            old(self).inv(),
            old(self).pos < old(self).input@.len(),
        ensures
            ({
                let piece = piece_at(
                    old(self).input@,
                    old(self).pos as int,
                    old(self).cwd@,
                    old(self).home@,
                );
                &&& final(self).moved(
                    *old(self),
                    piece.end,
                    awaiting(old(self).cwd@, piece.pending),
                    piece.found,
                )
                &&& final(self).pos > old(self).pos
                &&& final(out)@ == old(out)@ + piece.text
            }),
        decreases old(self).input@.len() - old(self).pos, 0int,
    {
        let ghost found0 = self.found();
        let c = self.input[self.pos];
        if c == '\'' {
            self.advance();
            let close = find_char(&self.input, self.pos, '\'');
            let text = string_of(&self.input, self.pos, close);
            out.push_str(text.as_str());
            self.pos = close;
            self.accept('\'');
            assert(self.found() =~= found0 + Seq::<CommandView>::empty());
        } else if c == '"' {
            self.advance();
            assert(self.found() =~= found0);
            self.read_quoted(out);
        } else if c == '$' && self.peek2() == Some('(') {
            self.advance();
            self.advance();
            assert(self.found() =~= found0);
            self.parse_substitution();
            out.push_str("$()");
        } else if c == '`' {
            self.advance();
            assert(self.found() =~= found0);
            let saved_cwd = self.cwd.clone();
            self.parse_backtick();
            self.leave(saved_cwd);
            out.push_str("`...`");
        } else {
            self.advance();
            out.push(c);
            assert(out@ =~= old(out)@ + seq![c]);
            assert(self.found() =~= found0 + Seq::<CommandView>::empty());
        }
    }

    /// Reads the commands of a `$(...)` behind its opening bracket, in a subshell.
    fn parse_substitution(&mut self)
        requires
            old(self).inv(),
        ensures
            ({
                let body = list_at(
                    old(self).input@,
                    old(self).pos as int,
                    old(self).cwd@,
                    old(self).home@,
                    true,
                );
                final(self).moved(
                    *old(self),
                    past(old(self).input@, body.end, ')'),
                    awaiting(old(self).cwd@, body.cwd.pending),
                    body.found,
                )
            }),
        decreases old(self).input@.len() - old(self).pos, 6int,
    {
        let saved_cwd = self.cwd.clone();
        self.parse_command_list(true);
        let ghost found1 = self.found();
        self.accept(')');
        assert(self.found() =~= found1);
        self.leave(saved_cwd);
        assert(self.found() =~= found1);
    }

    /// Goes back from a subshell to where the shell stood before it. Here-documents that are
    /// open stay open.
    fn leave(&mut self, saved: Standing)
        requires
            old(self).inv(),
        ensures
            final(self).moved(
                *old(self),
                old(self).pos as int,
                awaiting(saved@, old(self).cwd@.pending),
                Seq::empty(),
            ),
    {
        let pending = strings_from(&self.cwd.pending, 0);
        assert(pending@ =~= self.cwd.pending@);
        self.cwd = Standing { dir: saved.dir, moved: saved.moved, pending };
        assert(self.found() =~= old(self).found() + Seq::<CommandView>::empty());
    }

    /// Reads the rest of a double-quoted string and appends its text to `out`.
    fn read_quoted(&mut self, out: &mut String)
        requires
            old(self).inv(),
        ensures
            ({
                let word = quoted_at(
                    old(self).input@,
                    old(self).pos as int,
                    old(self).cwd@,
                    old(self).home@,
                );
                &&& final(self).moved(
                    *old(self),
                    word.end,
                    awaiting(old(self).cwd@, word.pending),
                    word.found,
                )
                &&& final(out)@ == old(out)@ + word.text
            }),
        decreases old(self).input@.len() - old(self).pos, 0int,
    {
        let ghost s = self.input@;
        let ghost home = self.home@;
        let ghost out0 = out@;
        let ghost goal = quoted_at(s, self.pos as int, self.cwd@, home);
        let ghost mut text: Seq<char> = Seq::empty();
        let ghost mut sofar: Seq<CommandView> = Seq::empty();
        assert(text + goal.text =~= goal.text);
        assert(sofar + goal.found =~= goal.found);
        assert(self.found() =~= old(self).found() + sofar);
        assert(out@ =~= out0 + text);
        loop
            invariant_except_break
                self.input == old(self).input,
                self.home == old(self).home,
                self.cwd@ == awaiting(old(self).cwd@, self.cwd@.pending),
                s == self.input@,
                home == self.home@,
                old(self).pos <= self.pos <= s.len(),
                self.found() == old(self).found() + sofar,
                out@ == out0 + text,
                ({
                    let rest = quoted_at(s, self.pos as int, self.cwd@, home);
                    goal == (Word {
                        text: text + rest.text,
                        found: sofar + rest.found,
                        ..rest
                    })
                }),
            ensures
                self.moved(
                    *old(self),
                    goal.end,
                    awaiting(old(self).cwd@, goal.pending),
                    goal.found,
                ),
                out@ == out0 + goal.text,
            decreases s.len() - self.pos,
        {
            let ghost p = self.pos as int;
            let ghost cwd = self.cwd@;
            let ghost found0 = self.found();
            let c = match self.peek() {
                None => {
                    assert(text + Seq::<char>::empty() =~= text);
                    assert(sofar + Seq::<CommandView>::empty() =~= sofar);
                    break;
                },
                Some(c) => c,
            };
            let ghost mut first = Word {
                end: p + 1,
                text: seq![c],
                pending: cwd.pending,
                found: Seq::empty(),
            };
            if c == '"' {
                self.advance();
                assert(self.found() =~= found0);
                assert(text + Seq::<char>::empty() =~= text);
                assert(sofar + Seq::<CommandView>::empty() =~= sofar);
                break;
            } else if c == '$' && self.peek2() == Some('(') {
                self.advance();
                self.advance();
                assert(self.found() =~= found0);
                self.parse_substitution();
                proof {
                    let body = list_at(s, p + 2, cwd, home, true);
                    first = Word {
                        end: past(s, body.end, ')'),
                        text: Seq::empty(),
                        pending: body.cwd.pending,
                        found: body.found,
                    };
                }
            } else if c == '`' {
                self.advance();
                assert(self.found() =~= found0);
                let saved_cwd = self.cwd.clone();
                self.parse_backtick();
                let ghost found1 = self.found();
                self.leave(saved_cwd);
                assert(self.found() =~= found1);
                proof {
                    let body = backtick_at(s, p + 1, cwd, home);
                    first = Word {
                        end: body.end,
                        text: Seq::empty(),
                        pending: body.cwd.pending,
                        found: body.found,
                    };
                }
            } else {
                self.advance();
                out.push(c);
            }
            proof {
                let rest = quoted_at(s, self.pos as int, self.cwd@, home);
                assert(quoted_at(s, p, cwd, home) == word_after(first, rest));
                assert((text + first.text) + rest.text =~= text + (first.text + rest.text));
                assert((sofar + first.found) + rest.found =~= sofar + (first.found + rest.found));
                assert(out@ =~= out0 + (text + first.text));
                text = text + first.text;
                sofar = sofar + first.found;
                assert(self.found() =~= old(self).found() + sofar);
            }
        }
    }

    /// Reads the commands of a backtick substitution behind its opening backtick.
    fn parse_backtick(&mut self)
        requires
            old(self).inv(),
        ensures
            ({
                let scan = backtick_at(
                    old(self).input@,
                    old(self).pos as int,
                    old(self).cwd@,
                    old(self).home@,
                );
                final(self).moved(*old(self), scan.end, scan.cwd, scan.found)
            }),
        decreases old(self).input@.len() - old(self).pos, 5int,
    {
        let ghost s = self.input@;
        let ghost home = self.home@;
        let ghost goal = backtick_at(s, self.pos as int, self.cwd@, home);
        let ghost mut sofar: Seq<CommandView> = Seq::empty();
        assert(after(sofar, goal).found =~= goal.found);
        assert(self.found() =~= old(self).found() + sofar);
        loop
            invariant_except_break
                self.input == old(self).input,
                self.home == old(self).home,
                s == self.input@,
                home == self.home@,
                old(self).pos <= self.pos <= s.len(),
                self.found() == old(self).found() + sofar,
                goal == after(sofar, backtick_at(s, self.pos as int, self.cwd@, home)),
            ensures
                self.moved(*old(self), goal.end, goal.cwd, goal.found),
            decreases s.len() - self.pos,
        {
            let ghost p = self.pos as int;
            let ghost cwd0 = self.cwd@;
            let ghost found0 = self.found();
            let c = match self.peek() {
                None => {
                    assert(sofar + Seq::<CommandView>::empty() =~= sofar);
                    break;
                },
                Some(c) => c,
            };
            if c == '\n' && self.cwd.pending.len() > 0 {
                self.skip_bodies();
                assert(self.found() =~= found0);
                continue;
            }
            let ghost mut first = Scan { end: 0, cwd: cwd0, found: Seq::empty() };
            if c == '`' {
                self.advance();
                assert(self.found() =~= found0);
                assert(sofar + Seq::<CommandView>::empty() =~= sofar);
                break;
            } else if c == '$' && self.peek2() == Some('(') {
                self.advance();
                self.advance();
                assert(self.found() =~= found0);
                self.parse_command_list(true);
                let ghost found1 = self.found();
                self.accept(')');
                assert(self.found() =~= found1);
                proof {
                    let body = list_at(s, p + 2, cwd0, home, true);
                    first = Scan { end: past(s, body.end, ')'), ..body };
                }
            } else {
                let before = self.pos;
                self.parse_single_command();
                let ghost found1 = self.found();
                if self.pos == before {
                    self.advance();
                }
                assert(self.found() =~= found1);
                proof {
                    let one = command_at(s, p, cwd0, home);
                    first = Scan { end: if one.end == p { p + 1 } else { one.end }, ..one };
                }
            }
            proof {
                let rest = backtick_at(s, self.pos as int, first.cwd, home);
                assert(backtick_at(s, p, cwd0, home) == after(first.found, rest));
                assert((sofar + first.found) + rest.found =~= sofar + (first.found + rest.found));
                sofar = sofar + first.found;
                assert(self.found() =~= old(self).found() + sofar);
            }
        }
    }

    /// Turns the parts of a simple command into what they amount to.
    fn finish_command(
        &mut self,
        start: usize,
        words: Vec<String>,
        redirects_in: Vec<String>,
        redirects_out: Vec<String>,
        opens: bool,
        Ghost(cwd): Ghost<Place>,
    )
        requires
            old(self).inv(),
            start <= old(self).pos,
            old(self).cwd@ == awaiting(cwd, old(self).cwd@.pending),
            opens == (old(self).cwd@.pending.len() > cwd.pending.len()),
        ensures
            ({
                let parts = Parts {
                    end: old(self).pos as int,
                    words: texts(words@),
                    redirects_in: texts(redirects_in@),
                    redirects_out: texts(redirects_out@),
                    pending: old(self).cwd@.pending,
                    found: Seq::empty(),
                };
                let scan = simple_command(
                    old(self).input@,
                    start as int,
                    parts,
                    cwd,
                    old(self).home@,
                );
                final(self).moved(*old(self), scan.end, scan.cwd, scan.found)
            }),
    {
        let (from, env_vars) = strip(&words);
        let ghost behind = self.cwd@;
        let end = if opens { self.end_of_text() } else { self.pos };
        let raw = trim(&self.input, start, end);
        if from >= words.len() {
            if env_vars.len() == 0 {
                return;
            }
            let command = ParsedCommand {
                program: String::new(),
                args: Vec::new(),
                written: Vec::new(),
                effective_cwd: self.cwd.dir.clone(),
                moved: self.cwd.moved,
                raw,
                redirects_in,
                redirects_out,
                env_vars,
            };
            assert(command.program@ =~= Seq::<char>::empty());
            assert(texts(command.args@) =~= Seq::<Seq<char>>::empty());
            assert(texts(command.written@) =~= Seq::<Seq<char>>::empty());
            self.emit(command);
            return;
        }
        let program = words[from].clone();
        let rest = strings_from(&words, from + 1);
        assert(texts(rest@) =~= texts(words@).skip(from as int).drop_first());
        assert(texts(words@).skip(from as int)[0] == program@);
        if str_eq(program.as_str(), "cd") {
            let target = if rest.len() > 0 { rest[0].as_str() } else { "~" };
            let dir = resolve_path(self.cwd.dir.as_str(), target, self.home.as_str());
            let ghost found0 = self.found();
            self.cwd = Standing { dir, moved: true, pending: strings_from(&self.cwd.pending, 0) };
            assert(behind.pending =~= self.cwd@.pending);
            assert(self.found() =~= found0);
            return;
        }
        let args = if self.cwd.moved {
            resolve_arguments(self.cwd.dir.as_str(), &rest, self.home.as_str())
        } else {
            strings_from(&rest, 0)
        };
        assert(texts(args@) =~= arguments(cwd, texts(rest@), self.home@));
        let command = ParsedCommand {
            program,
            args,
            written: rest,
            effective_cwd: self.cwd.dir.clone(),
            moved: self.cwd.moved,
            raw,
            redirects_in,
            redirects_out,
            env_vars,
        };
        self.emit(command);
    }

    /// Where the text of a command ends that opens here-documents and has been read.
    fn end_of_text(&self) -> (r: usize)
        requires
            self.inv(),
        ensures
            self.pos <= r <= self.input@.len(),
            r == text_end(self.input@, self.pos as int, self.cwd@.pending),
    {
        if !self.sees('\n') {
            return self.pos;
        }
        assert(self.pos < self.input.len());
        skip_heredocs(&self.input, self.pos + 1, &self.cwd.pending)
    }

    fn emit(&mut self, command: ParsedCommand)
        requires
            old(self).inv(),
        ensures
            final(self).moved(
                *old(self),
                old(self).pos as int,
                old(self).cwd@,
                Seq::<CommandView>::empty().push(command@),
            ),
    {
        self.commands.push(command);
        assert(self.found() =~= old(self).found() + Seq::<CommandView>::empty().push(command@));
    }
}

/// Skips the body of a here-document that begins at `at`: everything up to and with the
/// line that is the delimiter.
fn skip_heredoc(input: &Vec<char>, at: usize, delimiter: &str) -> (r: usize)
    requires
        at <= input@.len(),
    ensures
        at <= r <= input@.len(),
        r == heredoc_end(input@, at as int, unquoted(delimiter@)),
{
    let bare = trim_quotes(delimiter);
    let mut i: usize = at;
    loop
        invariant
            bare@ == unquoted(delimiter@),
            at <= i <= input@.len(),
            heredoc_end(input@, i as int, bare@) == heredoc_end(input@, at as int, bare@),
        decreases input@.len() - i,
    {
        let k = find_char(input, i, '\n');
        if k >= input.len() {
            return input.len();
        }
        let line = trim(input, i, k);
        i = k + 1;
        if str_eq(line.as_str(), bare.as_str()) {
            return i;
        }
    }
}

/// Skips the bodies of several here-documents that begin at `at`, in turn.
fn skip_heredocs(input: &Vec<char>, at: usize, delimiters: &Vec<String>) -> (r: usize)
    requires
        at <= input@.len(),
    ensures
        at <= r <= input@.len(),
        r == bodies_end(input@, at as int, texts(delimiters@)),
{
    let ghost pending = texts(delimiters@);
    let mut pos: usize = at;
    let mut i: usize = 0;
    assert(pending.skip(0) =~= pending);
    while i < delimiters.len()
        invariant
            i <= delimiters@.len(),
            pending == texts(delimiters@),
            at <= pos <= input@.len(),
            bodies_end(input@, pos as int, pending.skip(i as int)) == bodies_end(
                input@,
                at as int,
                pending,
            ),
        decreases delimiters@.len() - i,
    {
        assert(pending.skip(i as int)[0] == delimiters@[i as int]@);
        assert(pending.skip(i as int).drop_first() =~= pending.skip(i + 1));
        pos = skip_heredoc(input, pos, delimiters[i].as_str());
        i = i + 1;
    }
    pos
}

fn all_digits(s: &str) -> (r: bool)
    ensures
        r == forall|i: int| 0 <= i < s@.len() ==> is_digit(#[trigger] s@[i]),
{
    let cs = chars_of(s);
    let mut i: usize = 0;
    while i < cs.len()
        invariant
            i <= cs@.len(),
            cs@ == s@,
            forall|k: int| 0 <= k < i ==> is_digit(#[trigger] cs@[k]),
        decreases cs@.len() - i,
    {
        if !(cs[i] >= '0' && cs[i] <= '9') {
            assert(!is_digit(s@[i as int]));
            return false;
        }
        i = i + 1;
    }
    true
}

fn strings_from(v: &Vec<String>, from: usize) -> (r: Vec<String>)
    requires
        from <= v@.len(),
    ensures
        r@ == v@.skip(from as int),
{
    let mut r: Vec<String> = Vec::new();
    let mut i: usize = from;
    while i < v.len()
        invariant
            from <= i <= v@.len(),
            r@ == v@.subrange(from as int, i as int),
        decreases v@.len() - i,
    {
        r.push(v[i].clone());
        i = i + 1;
    }
    assert(r@ =~= v@.skip(from as int));
    r
}

/// Whether a word is written as a number or a version number.
fn looks_like_number(cs: &Vec<char>) -> (r: bool)
    ensures
        r == is_number(cs@),
{
    let n = cs.len();
    let start: usize = if n > 0 && cs[0] == 'v' { 1 } else { 0 };
    if start >= n || !(cs[start] >= '0' && cs[start] <= '9') {
        return false;
    }
    let mut i: usize = 0;
    while i < n
        invariant
            i <= n == cs@.len(),
            forall|k: int| 0 <= k < i ==> #[trigger] cs@[k] != '/',
            forall|k: int|
                0 <= k < i && #[trigger] cs@[k] == '.' ==> k + 1 < n && is_digit(cs@[k + 1]),
        decreases n - i,
    {
        if cs[i] == '/' {
            assert(cs@.contains('/'));
            return false;
        }
        if cs[i] == '.' && !(i + 1 < n && cs[i + 1] >= '0' && cs[i + 1] <= '9') {
            assert(cs@[i as int] == '.');
            return false;
        }
        i = i + 1;
    }
    true
}

/// Whether a word is written as a range.
fn looks_like_range(cs: &Vec<char>) -> (r: bool)
    ensures
        r == is_range(cs@),
{
    let n = cs.len();
    let mut i: usize = 0;
    while i < n
        invariant
            i <= n == cs@.len(),
            forall|k: int| 0 <= k < i ==> !(#[trigger] spans_at(cs@, k)),
        decreases n - i,
    {
        if cs[i] == '.' && i + 1 < n && cs[i + 1] == '.' {
            let opens = i == 0 || cs[i - 1] == '/';
            let closes = i + 2 >= n || cs[i + 2] == '/';
            if !(opens && closes) {
                assert(spans_at(cs@, i as int));
                return true;
            }
        }
        assert(!spans_at(cs@, i as int));
        i = i + 1;
    }
    false
}

/// Whether a word is written as a script that replaces text.
fn looks_like_script(cs: &Vec<char>) -> (r: bool)
    ensures
        r == is_script(cs@),
{
    if cs.len() < 2 || cs[0] != 's' || cs[1] != '/' {
        return false;
    }
    let mut count: usize = 0;
    let mut i: usize = 0;
    while i < cs.len()
        invariant
            i <= cs@.len(),
            count <= i,
            count == slashes(cs@.take(i as int)),
        decreases cs@.len() - i,
    {
        assert(cs@.take(i + 1).drop_last() =~= cs@.take(i as int));
        if cs[i] == '/' {
            count = count + 1;
        }
        i = i + 1;
    }
    assert(cs@.take(i as int) =~= cs@);
    count == 3
}

/// Whether a word is written as a path.
fn is_path(w: &str) -> (r: bool)
    ensures
        r == is_path_argument(w@),
{
    let cs = chars_of(w);
    if cs.len() == 0 || cs[0] == '-' {
        return false;
    }
    let mut marked = false;
    let mut i: usize = 0;
    while i < cs.len()
        invariant
            i <= cs@.len(),
            cs@ == w@,
            forall|k: int| 0 <= k < i ==> is_path_char(#[trigger] cs@[k]),
            marked == exists|k: int| 0 <= k < i && (#[trigger] cs@[k] == '/' || cs@[k] == '.'),
        decreases cs@.len() - i,
    {
        let c = cs[i];
        let ghost was = marked;
        if c == '/' || c == '.' {
            marked = true;
        } else if !(c == '-' || c == '+' || c == '*' || c == '?' || c == '_'
            || c.is_alphanumeric()) {
            assert(!is_path_char(w@[i as int]));
            return false;
        }
        proof {
            assert(cs@[i as int] == c);
            if was {
                let k = choose|k: int| 0 <= k < i && (#[trigger] cs@[k] == '/' || cs@[k] == '.');
                assert(0 <= k < i + 1);
            }
        }
        i = i + 1;
    }
    proof {
        if marked {
            let k = choose|k: int| 0 <= k < i && (#[trigger] cs@[k] == '/' || cs@[k] == '.');
            assert(w@[k] == cs@[k]);
        } else {
            assert forall|k: int| 0 <= k < w@.len() implies w@[k] != '/' && w@[k] != '.' by {
                assert(w@[k] == cs@[k]);
            }
        }
    }
    marked && !looks_like_number(&cs) && !looks_like_range(&cs) && !looks_like_script(&cs)
}

/// The arguments of a command behind a `cd` to `dir`.
fn resolve_arguments(dir: &str, words: &Vec<String>, home: &str) -> (r: Vec<String>)
    ensures
        r@.len() == words@.len(),
        forall|i: int|
            0 <= i < r@.len() ==> (#[trigger] r@[i])@ == argument(
                Place { moved: true, ..entered(dir@) },
                words@[i]@,
                home@,
            ),
{
    let mut r: Vec<String> = Vec::new();
    let mut i: usize = 0;
    while i < words.len()
        invariant
            i <= words@.len(),
            r@.len() == i,
            forall|k: int|
                0 <= k < i ==> (#[trigger] r@[k])@ == argument(
                    Place { moved: true, ..entered(dir@) },
                    words@[k]@,
                    home@,
                ),
        decreases words@.len() - i,
    {
        let w = words[i].as_str();
        if is_path(w) {
            let path = resolve_path(dir, w, home);
            if path.as_str().is_empty() {
                proof {
                    reveal_strlit(".");
                    assert("."@ =~= seq!['.']);
                }
                r.push(".".to_owned());
            } else {
                r.push(path);
            }
        } else {
            r.push(w.to_owned());
        }
        i = i + 1;
    }
    r
}

/// Removes the placeholders of command substitutions.
fn strip_placeholders(s: &str) -> (r: String)
    ensures
        r@ == without_placeholders(s@),
{
    proof {
        reveal_strlit("$()");
        reveal_strlit("`...`");
    }
    let once = replace(s, "$()", "");
    replace(once.as_str(), "`...`", "")
}

fn is_builtin(w: &str) -> (r: bool)
    ensures
        r == is_assignment_builtin(w@),
{
    str_eq(w, "export") || str_eq(w, "local") || str_eq(w, "declare") || str_eq(w, "typeset")
        || str_eq(w, "readonly")
}

/// Counts the words in front that only assign variables, and collects the
/// assignments as `VAR=value`.
fn strip(words: &Vec<String>) -> (r: (usize, Vec<String>))
    ensures
        r.0 <= words@.len(),
        ({
            let kept = strip_assignments(texts(words@), false);
            &&& kept.words == texts(words@).skip(r.0 as int)
            &&& kept.env_vars == texts(r.1@)
        }),
{
    let ghost all = texts(words@);
    let ghost goal = strip_assignments(all, false);
    let mut env_vars: Vec<String> = Vec::new();
    let mut builtin: bool = false;
    let mut i: usize = 0;
    assert(all.skip(0) =~= all);
    assert(texts(env_vars@) + goal.env_vars =~= goal.env_vars);
    loop
        invariant_except_break
            i <= words@.len(),
            all == texts(words@),
            goal.words == strip_assignments(all.skip(i as int), builtin).words,
            goal.env_vars == texts(env_vars@) + strip_assignments(
                all.skip(i as int),
                builtin,
            ).env_vars,
        ensures
            i <= words@.len(),
            goal.words == all.skip(i as int),
            goal.env_vars == texts(env_vars@),
        decreases words@.len() - i,
    {
        let ghost rest = all.skip(i as int);
        let ghost env0 = env_vars@;
        assert(texts(env_vars@) + Seq::<Seq<char>>::empty() =~= texts(env_vars@));
        if i >= words.len() {
            break;
        }
        let w = words[i].as_str();
        assert(rest[0] == w@);
        assert(rest.drop_first() =~= all.skip(i + 1));
        if is_builtin(w) {
            builtin = true;
            i = i + 1;
            continue;
        }
        let cs = chars_of(w);
        if cs.len() > 0 && cs[0] == '-' {
            if !builtin {
                break;
            }
            i = i + 1;
            continue;
        }
        let eq = find_char(&cs, 0, '=');
        if eq < cs.len() {
            assert(w@.take(eq as int) =~= cs@.subrange(0, eq as int));
            if !all_names(&cs, 0, eq) {
                break;
            }
            let mut entry = string_of(&cs, 0, eq);
            let value = string_of(&cs, eq + 1, cs.len());
            assert(value@ =~= w@.skip(eq + 1));
            let clean = strip_placeholders(value.as_str());
            entry.push_str("=");
            entry.push_str(clean.as_str());
            proof {
                let more = strip_assignments(rest.drop_first(), builtin);
                lemma_texts_push(env_vars@, entry);
                assert(texts(env0) + (seq![entry@] + more.env_vars) =~= texts(env0).push(entry@)
                    + more.env_vars);
            }
            env_vars.push(entry);
        } else {
            assert(w@ =~= cs@.subrange(0, cs@.len() as int));
            if !(builtin && all_names(&cs, 0, cs.len())) {
                break;
            }
            let mut entry = w.to_owned();
            entry.push_str("=");
            proof {
                let more = strip_assignments(rest.drop_first(), builtin);
                lemma_texts_push(env_vars@, entry);
                assert(texts(env0) + (seq![entry@] + more.env_vars) =~= texts(env0).push(entry@)
                    + more.env_vars);
            }
            env_vars.push(entry);
        }
        i = i + 1;
    }
    (i, env_vars)
}

/// What `path` means to a shell in `cwd`, without `.` and `..`.
pub fn resolve_path(cwd: &str, path: &str, home: &str) -> (r: String)
    ensures
        r@ == resolved(cwd@, path@, home@),
{
    if str_eq(path, "~") {
        return home.to_owned();
    }
    let cs = chars_of(path);
    if cs.len() > 1 && cs[0] == '~' && cs[1] == '/' {
        let rest = string_of(&cs, 2, cs.len());
        assert(rest@ =~= path@.skip(2));
        let whole = join(home, rest.as_str());
        normalize_path(whole.as_str())
    } else if cs.len() > 0 && cs[0] == '/' {
        normalize_path(path)
    } else {
        let whole = join(cwd, path);
        normalize_path(whole.as_str())
    }
}

/// The commands that a command line runs when it is entered in the directory `cwd`,
/// by a user whose home directory is `home`. `cd` is followed and not listed.
pub fn parse_commands(input: &str, cwd: &str, home: &str) -> (r: Vec<ParsedCommand>)
    ensures
        command_views(r@) == commands_of(input@, cwd@, home@),
{
    parse_commands_at(input, cwd, false, home)
}

/// The commands that a command line runs in the directory `cwd`; `moved` says whether a `cd`
/// led there.
pub fn parse_commands_at(input: &str, cwd: &str, moved: bool, home: &str) -> (r: Vec<ParsedCommand>)
    ensures
        command_views(r@) == commands_from(
            input@,
            Place { moved, ..entered(cwd@) },
            home@,
        ),
{
    proof {
        reveal_strlit("\\\n");
    }
    let line = replace(input, "\\\n", " ");
    let mut parser = Parser::new(line.as_str(), cwd, moved, home);
    parser.parse_command_list(false);
    assert(parser.found() =~= commands_from(
        input@,
        Place { moved, ..entered(cwd@) },
        home@,
    ));
    parser.commands
}

/// The home directory to assume: the one that the environment gives, or `/root`.
pub fn home_or_default(home: Option<String>) -> (r: String)
    ensures
        r@ == match home {
            Some(h) => h@,
            None => "/root"@,
        },
{
    match home {
        Some(h) => h,
        None => "/root".to_owned(),
    }
}

} // verus!

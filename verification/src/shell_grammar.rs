//! What a shell command line decomposes into: the model that
//! [`crate::shell_parser`] is verified against.
//!
//! A construct is read from a position of the text. Reading yields where it ends,
//! the working directory after it, and the commands it runs, in the order in which
//! they are found.
use vstd::prelude::*;
use crate::paths::{is_absolute, join_path, normalized};
use crate::text::{
    all_name_chars, find_from, is_digit, is_name_char, joined, replaced, trimmed, unquoted,
};

verus! {

/// One simple command, in mathematical form.
pub struct CommandView {
    pub program: Seq<char>,
    pub args: Seq<Seq<char>>,
    /// The arguments as written.
    pub written: Seq<Seq<char>>,
    pub effective_cwd: Seq<char>,
    /// Whether a `cd` led to that directory.
    pub moved: bool,
    pub raw: Seq<char>,
    pub redirects_in: Seq<Seq<char>>,
    pub redirects_out: Seq<Seq<char>>,
    pub env_vars: Seq<Seq<char>>,
}

/// Where a shell stands between two commands: its directory, whether a `cd` led there,
/// and the delimiters, as written, of the here-documents whose bodies begin on the next line.
pub struct Place {
    pub dir: Seq<char>,
    pub moved: bool,
    pub pending: Seq<Seq<char>>,
}

/// The place of a shell that is entered in a directory.
pub open spec fn entered(dir: Seq<char>) -> Place {
    Place { dir, moved: false, pending: Seq::empty() }
}

/// A place, where other here-documents are open.
pub open spec fn awaiting(cwd: Place, pending: Seq<Seq<char>>) -> Place {
    Place { pending, ..cwd }
}

/// The outcome of reading commands.
pub struct Scan {
    pub end: int,
    pub cwd: Place,
    pub found: Seq<CommandView>,
}

/// The outcome of reading one word (or a part of one): its text, the delimiters of the
/// here-documents that are open behind it, and the commands of the substitutions in it.
pub struct Word {
    pub end: int,
    pub text: Seq<char>,
    pub pending: Seq<Seq<char>>,
    pub found: Seq<CommandView>,
}

/// The words and redirection targets of a simple command, the delimiters of the
/// here-documents that are open behind it, and the commands of the substitutions in all of
/// them.
pub struct Parts {
    pub end: int,
    pub words: Seq<Seq<char>>,
    pub redirects_in: Seq<Seq<char>>,
    pub redirects_out: Seq<Seq<char>>,
    pub pending: Seq<Seq<char>>,
    pub found: Seq<CommandView>,
}

pub open spec fn char_at(s: Seq<char>, i: int, c: char) -> bool {
    0 <= i < s.len() && s[i] == c
}

pub open spec fn is_blank(c: char) -> bool {
    c == ' ' || c == '\t'
}

pub open spec fn is_blank_or_newline(c: char) -> bool {
    c == ' ' || c == '\t' || c == '\n' || c == '\r'
}

/// The first position at or after `i` that holds no space or tab.
pub open spec fn skip_blanks(s: Seq<char>, i: int) -> int
    decreases s.len() - i,
{
    if 0 <= i < s.len() && is_blank(s[i]) {
        skip_blanks(s, i + 1)
    } else {
        i
    }
}

/// The first position at or after `i` that holds no blank and no line break.
pub open spec fn skip_lines(s: Seq<char>, i: int) -> int
    decreases s.len() - i,
{
    if 0 <= i < s.len() && is_blank_or_newline(s[i]) {
        skip_lines(s, i + 1)
    } else {
        i
    }
}

/// The first position at or after `i` that holds no blank and no carriage return.
pub open spec fn skip_margin(s: Seq<char>, i: int) -> int
    decreases s.len() - i,
{
    if 0 <= i < s.len() && (is_blank(s[i]) || s[i] == '\r') {
        skip_margin(s, i + 1)
    } else {
        i
    }
}

/// The first position at or after `i` that holds no digit.
pub open spec fn skip_digits(s: Seq<char>, i: int) -> int
    decreases s.len() - i,
{
    if 0 <= i < s.len() && is_digit(s[i]) {
        skip_digits(s, i + 1)
    } else {
        i
    }
}

pub proof fn lemma_skips(s: Seq<char>, i: int)
    requires
        0 <= i <= s.len(),
    ensures
        i <= skip_blanks(s, i) <= s.len(),
        i <= skip_lines(s, i) <= s.len(),
        i <= skip_margin(s, i) <= s.len(),
        i <= skip_digits(s, i) <= s.len(),
        skip_blanks(s, i) < s.len() ==> !is_blank(s[skip_blanks(s, i)]),
        skip_lines(s, i) < s.len() ==> !is_blank_or_newline(s[skip_lines(s, i)]),
    decreases s.len() - i,
{
    if i < s.len() {
        lemma_skips(s, i + 1);
    }
}

/// A character that ends a simple command.
pub open spec fn ends_command(c: char) -> bool {
    c == ';' || c == '\n' || c == '&' || c == '|' || c == ')' || c == '}'
}

/// A character that ends an unquoted word.
pub open spec fn ends_word(c: char) -> bool {
    is_blank(c) || ends_command(c) || c == '<' || c == '>'
}

/// The position behind `close` if it stands at `i`.
pub open spec fn past(s: Seq<char>, i: int, close: char) -> int {
    if char_at(s, i, close) {
        i + 1
    } else {
        i
    }
}

/// Whether `$(` stands at `i`.
pub open spec fn opens_substitution(s: Seq<char>, i: int) -> bool {
    char_at(s, i, '$') && char_at(s, i + 1, '(')
}

/// Reads a here-document body from `i`: up to and with the first line that is the
/// delimiter, surrounding whitespace aside, or to the end of the text.
pub open spec fn heredoc_end(s: Seq<char>, i: int, delimiter: Seq<char>) -> int
    decreases s.len() - i,
{
    let k = find_from(s, i, '\n');
    if i < 0 || k < i || k >= s.len() {
        s.len() as int
    } else if trimmed(s.subrange(i, k)) == delimiter {
        k + 1
    } else {
        heredoc_end(s, k + 1, delimiter)
    }
}

/// Puts commands that were found earlier in front.
pub open spec fn after(first: Seq<CommandView>, rest: Scan) -> Scan {
    Scan { found: first + rest.found, ..rest }
}

/// Puts the part of a word that was read earlier in front.
pub open spec fn word_after(first: Word, rest: Word) -> Word {
    Word { text: first.text + rest.text, found: first.found + rest.found, ..rest }
}

/// Reads the bodies of several here-documents in turn, from `i`.
pub open spec fn bodies_end(s: Seq<char>, i: int, pending: Seq<Seq<char>>) -> int
    decreases pending.len(),
{
    if pending.len() == 0 {
        i
    } else {
        bodies_end(s, heredoc_end(s, i, unquoted(pending[0])), pending.drop_first())
    }
}

/// The place behind the bodies of here-documents.
pub open spec fn on_new_line(cwd: Place) -> Place {
    awaiting(cwd, Seq::empty())
}

/// Where the next command of a list begins, at or after `pos`: behind blanks and line
/// breaks, but in front of a line break that bodies of here-documents follow.
pub open spec fn lead(s: Seq<char>, pos: int, cwd: Place) -> int {
    if cwd.pending.len() == 0 {
        skip_lines(s, pos)
    } else {
        skip_margin(s, pos)
    }
}

/// Where reading a command list goes on after one command that began at `start`,
/// when the text behind it continues at `q`: behind the separator if there is one, but
/// in front of a line break that bodies of here-documents follow (`waits`).
/// A character that nothing could be read from is skipped.
pub open spec fn next_command(s: Seq<char>, start: int, q: int, waits: bool) -> int {
    if q >= s.len() {
        q
    } else if s[q] == ';' || s[q] == '\n' && !waits {
        q + 1
    } else if s[q] == '&' {
        past(s, q + 1, '&')
    } else if s[q] == '|' {
        past(s, q + 1, '|')
    } else if q == start {
        q + 1
    } else {
        q
    }
}

/// A list of commands, to the end of the text or, inside a bracket, up to a closing
/// bracket.
pub open spec fn list_at(
    s: Seq<char>,
    pos: int,
    cwd: Place,
    home: Seq<char>,
    inner: bool,
) -> Scan
    decreases s.len() - pos, 5int,
{
    let p = lead(s, pos, cwd);
    if pos < 0 || p >= s.len() || p < pos {
        Scan { end: p, cwd, found: Seq::empty() }
    } else if s[p] == '\n' {
        let body = bodies_end(s, p + 1, cwd.pending);
        if p < body <= s.len() {
            list_at(s, body, on_new_line(cwd), home, inner)
        } else {
            Scan { end: p, cwd, found: Seq::empty() }
        }
    } else if inner && (s[p] == ')' || s[p] == '}') {
        Scan { end: p, cwd, found: Seq::empty() }
    } else if s[p] == ';' {
        list_at(s, p + 1, cwd, home, inner)
    } else {
        let one = command_at(s, p, cwd, home);
        let q = skip_blanks(s, one.end);
        if inner && (char_at(s, q, ')') || char_at(s, q, '}')) {
            Scan { end: q, cwd: one.cwd, found: one.found }
        } else {
            let next = next_command(s, p, q, one.cwd.pending.len() > 0);
            if p < next <= s.len() {
                after(one.found, list_at(s, next, one.cwd, home, inner))
            } else {
                Scan { end: q, cwd: one.cwd, found: one.found }
            }
        }
    }
}

/// One command: a subshell, a command group or a simple command.
pub open spec fn command_at(s: Seq<char>, pos: int, cwd: Place, home: Seq<char>) -> Scan
    decreases s.len() - pos, 4int,
{
    let p = skip_blanks(s, pos);
    if pos < 0 || p >= s.len() || p < pos {
        Scan { end: p, cwd, found: Seq::empty() }
    } else if s[p] == '(' {
        let body = list_at(s, p + 1, cwd, home, true);
        Scan {
            end: past(s, body.end, ')'),
            cwd: awaiting(cwd, body.cwd.pending),
            found: body.found,
        }
    } else if s[p] == '{' {
        let body = list_at(s, p + 1, cwd, home, true);
        Scan { end: past(s, body.end, '}'), cwd: body.cwd, found: body.found }
    } else {
        simple_command(s, p, parts_at(s, p, cwd, home, no_parts(p)), cwd, home)
    }
}

pub open spec fn no_parts(p: int) -> Parts {
    Parts {
        end: p,
        words: Seq::empty(),
        redirects_in: Seq::empty(),
        redirects_out: Seq::empty(),
        pending: Seq::empty(),
        found: Seq::empty(),
    }
}

/// The words and redirections of a simple command from `pos`, added to `acc`. Behind
/// `<<` stands the delimiter of a here-document, and behind `<<<` a text; neither is a
/// word of the command.
pub open spec fn parts_at(
    s: Seq<char>,
    pos: int,
    cwd: Place,
    home: Seq<char>,
    acc: Parts,
) -> Parts
    decreases s.len() - pos, 3int,
{
    let p = skip_blanks(s, pos);
    if pos < 0 || p >= s.len() || p < pos || ends_command(s[p]) {
        Parts { end: p, pending: cwd.pending, ..acc }
    } else if s[p] == '<' && char_at(s, p + 1, '<') {
        let word = opening_at(s, p + 2, cwd, home);
        let added = Parts { found: acc.found + word.found, ..acc };
        if p < word.end <= s.len() {
            parts_at(s, word.end, awaiting(cwd, opened(s, p + 2, word)), home, added)
        } else {
            acc
        }
    } else if s[p] == '<' && char_at(s, p + 1, '&') {
        let next = skip_digits(s, p + 2);
        if p < next <= s.len() {
            parts_at(s, next, cwd, home, acc)
        } else {
            acc
        }
    } else if s[p] == '<' {
        let target = target_at(s, p + 1, cwd, home);
        let added = Parts {
            redirects_in: add_word(acc.redirects_in, target.text),
            found: acc.found + target.found,
            ..acc
        };
        if p < target.end <= s.len() {
            parts_at(s, target.end, awaiting(cwd, target.pending), home, added)
        } else {
            acc
        }
    } else if s[p] == '>' && char_at(s, p + 1, '&') {
        let next = skip_digits(s, p + 2);
        if p < next <= s.len() {
            parts_at(s, next, cwd, home, acc)
        } else {
            acc
        }
    } else if s[p] == '>' {
        let target = target_at(s, past(s, p + 1, '>'), cwd, home);
        let added = Parts {
            redirects_out: add_word(acc.redirects_out, target.text),
            found: acc.found + target.found,
            ..acc
        };
        if p < target.end <= s.len() {
            parts_at(s, target.end, awaiting(cwd, target.pending), home, added)
        } else {
            acc
        }
    } else {
        let word = word_at(s, p, cwd, home);
        let added = Parts {
            words: if is_fd_prefix(s, word) {
                acc.words
            } else {
                add_word(acc.words, word.text)
            },
            found: acc.found + word.found,
            ..acc
        };
        if p < word.end <= s.len() {
            parts_at(s, word.end, awaiting(cwd, word.pending), home, added)
        } else {
            acc
        }
    }
}

/// What stands behind `<<`, at `pos`: the delimiter of a here-document, or behind one
/// more `<` a text.
pub open spec fn opening_at(s: Seq<char>, pos: int, cwd: Place, home: Seq<char>) -> Word
    decreases s.len() - pos, 3int,
{
    if char_at(s, pos, '<') {
        target_at(s, pos + 1, cwd, home)
    } else if char_at(s, pos, '-') {
        target_at(s, pos + 1, cwd, home)
    } else {
        target_at(s, pos, cwd, home)
    }
}

/// The delimiters of the here-documents that are open behind what stands behind `<<`, at
/// `pos`.
pub open spec fn opened(s: Seq<char>, pos: int, word: Word) -> Seq<Seq<char>> {
    if char_at(s, pos, '<') {
        word.pending
    } else {
        word.pending.push(word.text)
    }
}

/// Digits directly in front of a redirection name a file descriptor.
pub open spec fn is_fd_prefix(s: Seq<char>, word: Word) -> bool {
    &&& forall|i: int| 0 <= i < word.text.len() ==> is_digit(#[trigger] word.text[i])
    &&& char_at(s, word.end, '>') || char_at(s, word.end, '<')
}

pub open spec fn add_word(words: Seq<Seq<char>>, word: Seq<char>) -> Seq<Seq<char>> {
    if word.len() == 0 {
        words
    } else {
        words.push(word)
    }
}

/// The target of a redirection: a word, blanks in front of it aside.
pub open spec fn target_at(s: Seq<char>, pos: int, cwd: Place, home: Seq<char>) -> Word
    decreases s.len() - pos, 2int,
{
    let p = skip_blanks(s, pos);
    if !(0 <= pos <= p <= s.len()) {
        Word { end: p, text: Seq::empty(), pending: cwd.pending, found: Seq::empty() }
    } else {
        word_at(s, p, cwd, home)
    }
}

/// A word: quoted strings, substitutions and plain characters up to a character that
/// ends it.
pub open spec fn word_at(s: Seq<char>, pos: int, cwd: Place, home: Seq<char>) -> Word
    decreases s.len() - pos, 1int,
{
    if pos < 0 || pos >= s.len() || ends_word(s[pos]) {
        Word { end: pos, text: Seq::empty(), pending: cwd.pending, found: Seq::empty() }
    } else {
        let first = piece_at(s, pos, cwd, home);
        if pos < first.end <= s.len() {
            word_after(first, word_at(s, first.end, awaiting(cwd, first.pending), home))
        } else {
            first
        }
    }
}

/// One part of a word. The commands of a substitution run in a subshell of their
/// own; in the text of the word a placeholder stands for what they print.
pub open spec fn piece_at(s: Seq<char>, pos: int, cwd: Place, home: Seq<char>) -> Word
    decreases s.len() - pos, 0int,
{
    if pos < 0 || pos >= s.len() {
        Word { end: pos, text: Seq::empty(), pending: cwd.pending, found: Seq::empty() }
    } else if s[pos] == '\'' {
        let close = find_from(s, pos + 1, '\'');
        Word {
            end: past(s, close, '\''),
            text: s.subrange(pos + 1, close),
            pending: cwd.pending,
            found: Seq::empty(),
        }
    } else if s[pos] == '"' {
        quoted_at(s, pos + 1, cwd, home)
    } else if opens_substitution(s, pos) {
        let body = list_at(s, pos + 2, cwd, home, true);
        Word {
            end: past(s, body.end, ')'),
            text: "$()"@,
            pending: body.cwd.pending,
            found: body.found,
        }
    } else if s[pos] == '`' {
        let body = backtick_at(s, pos + 1, cwd, home);
        Word { end: body.end, text: "`...`"@, pending: body.cwd.pending, found: body.found }
    } else {
        Word { end: pos + 1, text: seq![s[pos]], pending: cwd.pending, found: Seq::empty() }
    }
}

/// The rest of a double-quoted string, behind its opening quote. Substitutions are
/// read in it and leave no placeholder.
pub open spec fn quoted_at(s: Seq<char>, pos: int, cwd: Place, home: Seq<char>) -> Word
    decreases s.len() - pos, 0int,
{
    if pos < 0 || pos >= s.len() {
        Word { end: pos, text: Seq::empty(), pending: cwd.pending, found: Seq::empty() }
    } else if s[pos] == '"' {
        Word { end: pos + 1, text: Seq::empty(), pending: cwd.pending, found: Seq::empty() }
    } else {
        let first = if opens_substitution(s, pos) {
            let body = list_at(s, pos + 2, cwd, home, true);
            Word {
                end: past(s, body.end, ')'),
                text: Seq::empty(),
                pending: body.cwd.pending,
                found: body.found,
            }
        } else if s[pos] == '`' {
            let body = backtick_at(s, pos + 1, cwd, home);
            Word {
                end: body.end,
                text: Seq::empty(),
                pending: body.cwd.pending,
                found: body.found,
            }
        } else {
            Word {
                end: pos + 1,
                text: seq![s[pos]],
                pending: cwd.pending,
                found: Seq::empty(),
            }
        };
        if pos < first.end <= s.len() {
            word_after(first, quoted_at(s, first.end, awaiting(cwd, first.pending), home))
        } else {
            first
        }
    }
}

/// The rest of a backtick substitution, behind its opening backtick.
pub open spec fn backtick_at(s: Seq<char>, pos: int, cwd: Place, home: Seq<char>) -> Scan
    decreases s.len() - pos, 5int,
{
    if pos < 0 || pos >= s.len() {
        Scan { end: pos, cwd, found: Seq::empty() }
    } else if s[pos] == '`' {
        Scan { end: pos + 1, cwd, found: Seq::empty() }
    } else if s[pos] == '\n' && cwd.pending.len() > 0 {
        let body = bodies_end(s, pos + 1, cwd.pending);
        if pos < body <= s.len() {
            backtick_at(s, body, on_new_line(cwd), home)
        } else {
            Scan { end: pos, cwd, found: Seq::empty() }
        }
    } else {
        let first = if opens_substitution(s, pos) {
            let body = list_at(s, pos + 2, cwd, home, true);
            Scan { end: past(s, body.end, ')'), ..body }
        } else {
            let one = command_at(s, pos, cwd, home);
            Scan { end: if one.end == pos { pos + 1 } else { one.end }, ..one }
        };
        if pos < first.end <= s.len() {
            after(first.found, backtick_at(s, first.end, first.cwd, home))
        } else {
            first
        }
    }
}

/// What a list of words runs once variable assignments in front are taken off.
pub struct Stripped {
    pub words: Seq<Seq<char>>,
    pub env_vars: Seq<Seq<char>>,
}

/// The builtins that assign variables and run nothing.
pub open spec fn is_assignment_builtin(w: Seq<char>) -> bool {
    w == "export"@ || w == "local"@ || w == "declare"@ || w == "typeset"@ || w == "readonly"@
}

/// `text` without the placeholders of command substitutions.
pub open spec fn without_placeholders(text: Seq<char>) -> Seq<char> {
    replaced(replaced(text, "$()"@, ""@), "`...`"@, ""@)
}

/// Takes assignment builtins, their flags, and assignments off the front of `words`.
/// `builtin` says whether a builtin was seen: only behind one are flags and bare
/// names taken off too.
pub open spec fn strip_assignments(words: Seq<Seq<char>>, builtin: bool) -> Stripped
    decreases words.len(),
{
    if words.len() == 0 {
        Stripped { words, env_vars: Seq::empty() }
    } else {
        let w = words[0];
        let rest = words.drop_first();
        let eq = find_from(w, 0, '=');
        if is_assignment_builtin(w) {
            strip_assignments(rest, true)
        } else if char_at(w, 0, '-') {
            if builtin {
                strip_assignments(rest, builtin)
            } else {
                Stripped { words, env_vars: Seq::empty() }
            }
        } else if eq < w.len() {
            if all_name_chars(w.take(eq)) {
                let entry = w.take(eq) + "="@ + without_placeholders(w.skip(eq + 1));
                let more = strip_assignments(rest, builtin);
                Stripped { words: more.words, env_vars: seq![entry] + more.env_vars }
            } else {
                Stripped { words, env_vars: Seq::empty() }
            }
        } else if builtin && all_name_chars(w) {
            let more = strip_assignments(rest, builtin);
            Stripped { words: more.words, env_vars: seq![w + "="@] + more.env_vars }
        } else {
            Stripped { words, env_vars: Seq::empty() }
        }
    }
}

/// A character of a path that is written without quotes.
pub open spec fn is_path_char(c: char) -> bool {
    is_name_char(c) || c == '/' || c == '.' || c == '-' || c == '+' || c == '*' || c == '?'
}

/// Whether a word is written as a number or a version number: behind a `v`, if there is
/// one, it and every part of it that a dot leads begin with a digit.
pub open spec fn is_number(w: Seq<char>) -> bool {
    &&& char_at(w, 0, 'v') && w.len() > 1 && is_digit(w[1]) || w.len() > 0 && is_digit(w[0])
    &&& !w.contains('/')
    &&& forall|i: int|
        0 <= i < w.len() && #[trigger] w[i] == '.' ==> i + 1 < w.len() && is_digit(w[i + 1])
}

/// Whether two dots stand at `i` that are no `..` component of a path.
pub open spec fn spans_at(w: Seq<char>, i: int) -> bool {
    &&& char_at(w, i, '.') && char_at(w, i + 1, '.')
    &&& !((i == 0 || char_at(w, i - 1, '/')) && (i + 2 == w.len() || char_at(w, i + 2, '/')))
}

/// Whether a word is written as a range, such as `a..b`.
pub open spec fn is_range(w: Seq<char>) -> bool {
    exists|i: int| 0 <= i < w.len() && #[trigger] spans_at(w, i)
}

/// How many slashes a word holds.
pub open spec fn slashes(w: Seq<char>) -> nat
    decreases w.len(),
{
    if w.len() == 0 {
        0
    } else if w.last() == '/' {
        slashes(w.drop_last()) + 1
    } else {
        slashes(w.drop_last())
    }
}

/// Whether a word is written as a script that replaces text, such as `s/a/b/`.
pub open spec fn is_script(w: Seq<char>) -> bool {
    char_at(w, 0, 's') && char_at(w, 1, '/') && slashes(w) == 3
}

/// Whether an argument is written as a path: it holds a `/` or a `.` and nothing that
/// does not belong in one, and is no flag, number, version number, range or script.
///
/// Only the program that gets a word knows what it means by it. A word that is written as a
/// path and means something else, such as the name of a branch, of an image or of a host,
/// counts as a path. The name of a file that holds neither a `/` nor a `.`, that is written
/// with other characters, or that looks like a number, a range or a script counts as none.
pub open spec fn is_path_argument(w: Seq<char>) -> bool {
    &&& w.len() > 0 && w[0] != '-'
    &&& forall|i: int| 0 <= i < w.len() ==> is_path_char(#[trigger] w[i])
    &&& w.contains('/') || w.contains('.')
    &&& !is_number(w)
    &&& !is_range(w)
    &&& !is_script(w)
}

/// An argument as a command gets it: behind a `cd`, a path is resolved against the
/// directory that was followed to. No argument becomes empty: one that leads to the
/// directory that relative paths start from is `.`.
pub open spec fn argument(cwd: Place, w: Seq<char>, home: Seq<char>) -> Seq<char> {
    if cwd.moved && is_path_argument(w) {
        let path = resolved(cwd.dir, w, home);
        if path.len() == 0 {
            seq!['.']
        } else {
            path
        }
    } else {
        w
    }
}

/// Several arguments as a command gets them.
pub open spec fn arguments(cwd: Place, words: Seq<Seq<char>>, home: Seq<char>) -> Seq<Seq<char>> {
    Seq::new(words.len(), |i: int| argument(cwd, words[i], home))
}

/// Where the text of a simple command ends whose parts end at `end`, and that opens
/// here-documents: behind their bodies, if its line ends with it.
pub open spec fn text_end(s: Seq<char>, end: int, pending: Seq<Seq<char>>) -> int {
    if char_at(s, end, '\n') {
        bodies_end(s, end + 1, pending)
    } else {
        end
    }
}

/// What the parts of a simple command that began at `start` amount to: nothing, a
/// change of directory, a bare assignment, or a command.
pub open spec fn simple_command(
    s: Seq<char>,
    start: int,
    parts: Parts,
    cwd: Place,
    home: Seq<char>,
) -> Scan {
    let kept = strip_assignments(parts.words, false);
    let rest = kept.words.drop_first();
    let behind = awaiting(cwd, parts.pending);
    let end = if parts.pending.len() <= cwd.pending.len() {
        parts.end
    } else {
        text_end(s, parts.end, parts.pending)
    };
    let command = CommandView {
        program: if kept.words.len() == 0 { Seq::empty() } else { kept.words[0] },
        args: if kept.words.len() == 0 { Seq::empty() } else { arguments(cwd, rest, home) },
        written: if kept.words.len() == 0 { Seq::empty() } else { rest },
        effective_cwd: cwd.dir,
        moved: cwd.moved,
        raw: trimmed(s.subrange(start, end)),
        redirects_in: parts.redirects_in,
        redirects_out: parts.redirects_out,
        env_vars: kept.env_vars,
    };
    if kept.words.len() == 0 && kept.env_vars.len() == 0 {
        Scan { end: parts.end, cwd: behind, found: parts.found }
    } else if kept.words.len() > 0 && command.program == "cd"@ {
        let target = if rest.len() == 0 { "~"@ } else { rest[0] };
        let dir = resolved(cwd.dir, target, home);
        Scan { end: parts.end, cwd: Place { dir, moved: true, ..behind }, found: parts.found }
    } else {
        Scan { end: parts.end, cwd: behind, found: parts.found.push(command) }
    }
}

/// What `path` means to a shell in `cwd`, without `.` and `..`.
pub open spec fn resolved(cwd: Seq<char>, path: Seq<char>, home: Seq<char>) -> Seq<char> {
    if path == "~"@ {
        home
    } else if char_at(path, 0, '~') && char_at(path, 1, '/') {
        normalized(join_path(home, path.skip(2)))
    } else if is_absolute(path) {
        normalized(path)
    } else {
        normalized(join_path(cwd, path))
    }
}

/// A command line with line continuations collapsed to spaces.
pub open spec fn continued(input: Seq<char>) -> Seq<char> {
    replaced(input, "\\\n"@, " "@)
}

/// The commands of a command line that is entered in `cwd`.
pub open spec fn commands_of(
    input: Seq<char>,
    cwd: Seq<char>,
    home: Seq<char>,
) -> Seq<CommandView> {
    commands_from(input, entered(cwd), home)
}

/// The commands of a command line that a shell reads at a place.
pub open spec fn commands_from(
    input: Seq<char>,
    cwd: Place,
    home: Seq<char>,
) -> Seq<CommandView> {
    list_at(continued(input), 0, cwd, home, false).found
}

/// The arguments without substitution placeholders; those that become empty go.
pub open spec fn clean_args(args: Seq<Seq<char>>) -> Seq<Seq<char>>
    decreases args.len(),
{
    if args.len() == 0 {
        Seq::empty()
    } else {
        add_word(clean_args(args.drop_last()), without_placeholders(args.last()))
    }
}

/// The text that `command` patterns are matched against: the command as written.
pub open spec fn check_text(c: CommandView) -> Seq<char> {
    let args = clean_args(c.written);
    if c.program.len() == 0 {
        trimmed(c.raw)
    } else if args.len() == 0 {
        c.program
    } else {
        c.program + " "@ + joined(args, " "@)
    }
}

} // verus!

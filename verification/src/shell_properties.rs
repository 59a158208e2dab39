//! What holds of the decomposition of command lines as a whole.
use vstd::prelude::*;
use crate::shell_grammar::{
    add_word, after, argument, arguments, awaiting, backtick_at, bodies_end, char_at, command_at,
    commands_from, commands_of, continued, ends_command, ends_word, entered, heredoc_end,
    is_assignment_builtin, is_blank, is_blank_or_newline, is_fd_prefix, is_path_argument, lead,
    lemma_skips, list_at, next_command, no_parts, on_new_line, opened, opening_at,
    opens_substitution, parts_at, past, piece_at, quoted_at, resolved, simple_command, skip_blanks,
    skip_digits, skip_lines, skip_margin, strip_assignments, target_at, without_placeholders,
    word_at, CommandView, Parts, Place, Scan, Stripped, Word,
};
use crate::text::{
    all_name_chars, find_from, is_digit, is_whitespace, lemma_find_bounds, replaced, trim_back,
    trim_front, trimmed, unquoted,
};

verus! {

proof fn lemma_heredoc_bounds(s: Seq<char>, i: int, delimiter: Seq<char>)
    requires
        0 <= i <= s.len(),
    ensures
        i <= heredoc_end(s, i, delimiter) <= s.len(),
    decreases s.len() - i,
{
    lemma_find_bounds(s, i, '\n');
    let k = find_from(s, i, '\n');
    if k < s.len() && trimmed(s.subrange(i, k)) != delimiter {
        lemma_heredoc_bounds(s, k + 1, delimiter);
    }
}

proof fn lemma_bodies_bounds(s: Seq<char>, i: int, pending: Seq<Seq<char>>)
    requires
        0 <= i <= s.len(),
    ensures
        i <= bodies_end(s, i, pending) <= s.len(),
    decreases pending.len(),
{
    if pending.len() > 0 {
        lemma_heredoc_bounds(s, i, unquoted(pending[0]));
        lemma_bodies_bounds(s, heredoc_end(s, i, unquoted(pending[0])), pending.drop_first());
    }
}

pub proof fn lemma_list_bounds(s: Seq<char>, pos: int, cwd: Place, home: Seq<char>, inner: bool)
    requires
        0 <= pos <= s.len(),
    ensures
        pos <= list_at(s, pos, cwd, home, inner).end <= s.len(),
    decreases s.len() - pos, 5int,
{
    lemma_skips(s, pos);
    let p = lead(s, pos, cwd);
    if p >= s.len() {
    } else if s[p] == '\n' {
        lemma_bodies_bounds(s, p + 1, cwd.pending);
        lemma_list_bounds(s, bodies_end(s, p + 1, cwd.pending), on_new_line(cwd), home, inner);
    } else if inner && (s[p] == ')' || s[p] == '}') {
    } else if s[p] == ';' {
        lemma_list_bounds(s, p + 1, cwd, home, inner);
    } else {
        lemma_command_bounds(s, p, cwd, home);
        let one = command_at(s, p, cwd, home);
        lemma_skips(s, one.end);
        let q = skip_blanks(s, one.end);
        if !(inner && (char_at(s, q, ')') || char_at(s, q, '}'))) {
            let next = next_command(s, p, q, one.cwd.pending.len() > 0);
            lemma_list_bounds(s, next, one.cwd, home, inner);
        }
    }
}

proof fn lemma_command_bounds(s: Seq<char>, pos: int, cwd: Place, home: Seq<char>)
    requires
        0 <= pos <= s.len(),
    ensures
        pos <= command_at(s, pos, cwd, home).end <= s.len(),
    decreases s.len() - pos, 4int,
{
    lemma_skips(s, pos);
    let p = skip_blanks(s, pos);
    if p >= s.len() {
    } else if s[p] == '(' || s[p] == '{' {
        lemma_list_bounds(s, p + 1, cwd, home, true);
    } else {
        lemma_parts_bounds(s, p, cwd, home, no_parts(p));
    }
}

proof fn lemma_parts_bounds(s: Seq<char>, pos: int, cwd: Place, home: Seq<char>, acc: Parts)
    requires
        0 <= pos <= s.len(),
    ensures
        pos <= parts_at(s, pos, cwd, home, acc).end <= s.len(),
    decreases s.len() - pos, 3int,
{
    lemma_skips(s, pos);
    let p = skip_blanks(s, pos);
    if p >= s.len() || ends_command(s[p]) {
    } else if s[p] == '<' && char_at(s, p + 1, '<') {
        lemma_opening_bounds(s, p + 2, cwd, home);
        let word = opening_at(s, p + 2, cwd, home);
        let added = Parts { found: acc.found + word.found, ..acc };
        lemma_parts_bounds(s, word.end, awaiting(cwd, opened(s, p + 2, word)), home, added);
    } else if (s[p] == '<' || s[p] == '>') && char_at(s, p + 1, '&') {
        lemma_skips(s, p + 2);
        lemma_parts_bounds(s, skip_digits(s, p + 2), cwd, home, acc);
    } else if s[p] == '<' {
        lemma_target_bounds(s, p + 1, cwd, home);
        let target = target_at(s, p + 1, cwd, home);
        let added = Parts {
            redirects_in: add_word(acc.redirects_in, target.text),
            found: acc.found + target.found,
            ..acc
        };
        lemma_parts_bounds(s, target.end, awaiting(cwd, target.pending), home, added);
    } else if s[p] == '>' {
        lemma_target_bounds(s, past(s, p + 1, '>'), cwd, home);
        let target = target_at(s, past(s, p + 1, '>'), cwd, home);
        let added = Parts {
            redirects_out: add_word(acc.redirects_out, target.text),
            found: acc.found + target.found,
            ..acc
        };
        lemma_parts_bounds(s, target.end, awaiting(cwd, target.pending), home, added);
    } else {
        lemma_word_bounds(s, p, cwd, home);
        let word = word_at(s, p, cwd, home);
        let added = Parts {
            words: if is_fd_prefix(s, word) {
                acc.words
            } else {
                add_word(acc.words, word.text)
            },
            found: acc.found + word.found,
            ..acc
        };
        lemma_parts_bounds(s, word.end, awaiting(cwd, word.pending), home, added);
    }
}

proof fn lemma_opening_bounds(s: Seq<char>, pos: int, cwd: Place, home: Seq<char>)
    requires
        0 <= pos <= s.len(),
    ensures
        pos <= opening_at(s, pos, cwd, home).end <= s.len(),
    decreases s.len() - pos, 3int,
{
    if char_at(s, pos, '<') || char_at(s, pos, '-') {
        lemma_target_bounds(s, pos + 1, cwd, home);
    } else {
        lemma_target_bounds(s, pos, cwd, home);
    }
}

proof fn lemma_target_bounds(s: Seq<char>, pos: int, cwd: Place, home: Seq<char>)
    requires
        0 <= pos <= s.len(),
    ensures
        pos <= target_at(s, pos, cwd, home).end <= s.len(),
    decreases s.len() - pos, 2int,
{
    lemma_skips(s, pos);
    lemma_word_bounds(s, skip_blanks(s, pos), cwd, home);
}

proof fn lemma_word_bounds(s: Seq<char>, pos: int, cwd: Place, home: Seq<char>)
    requires
        0 <= pos <= s.len(),
    ensures
        pos <= word_at(s, pos, cwd, home).end <= s.len(),
        pos < s.len() && !ends_word(s[pos]) ==> pos < word_at(s, pos, cwd, home).end,
    decreases s.len() - pos, 1int,
{
    if pos < s.len() && !ends_word(s[pos]) {
        lemma_piece_bounds(s, pos, cwd, home);
        let first = piece_at(s, pos, cwd, home);
        lemma_word_bounds(s, first.end, awaiting(cwd, first.pending), home);
    }
}

proof fn lemma_piece_bounds(s: Seq<char>, pos: int, cwd: Place, home: Seq<char>)
    requires
        0 <= pos < s.len(),
    ensures
        pos < piece_at(s, pos, cwd, home).end <= s.len(),
    decreases s.len() - pos, 0int,
{
    if s[pos] == '\'' {
        lemma_find_bounds(s, pos + 1, '\'');
    } else if s[pos] == '"' {
        lemma_quoted_bounds(s, pos + 1, cwd, home);
    } else if opens_substitution(s, pos) {
        lemma_list_bounds(s, pos + 2, cwd, home, true);
    } else if s[pos] == '`' {
        lemma_backtick_bounds(s, pos + 1, cwd, home);
    }
}

/// The next part of a double-quoted string.
spec fn quoted_part(s: Seq<char>, pos: int, cwd: Place, home: Seq<char>) -> Word {
    if opens_substitution(s, pos) {
        let body = list_at(s, pos + 2, cwd, home, true);
        Word {
            end: past(s, body.end, ')'),
            text: Seq::empty(),
            pending: body.cwd.pending,
            found: body.found,
        }
    } else if s[pos] == '`' {
        let body = backtick_at(s, pos + 1, cwd, home);
        Word {
            end: body.end,
            text: Seq::empty(),
            pending: body.cwd.pending,
            found: body.found,
        }
    } else {
        Word { end: pos + 1, text: seq![s[pos]], pending: cwd.pending, found: Seq::empty() }
    }
}

proof fn lemma_quoted_bounds(s: Seq<char>, pos: int, cwd: Place, home: Seq<char>)
    requires
        0 <= pos <= s.len(),
    ensures
        pos <= quoted_at(s, pos, cwd, home).end <= s.len(),
    decreases s.len() - pos, 0int,
{
    if pos < s.len() && s[pos] != '"' {
        if opens_substitution(s, pos) {
            lemma_list_bounds(s, pos + 2, cwd, home, true);
        } else if s[pos] == '`' {
            lemma_backtick_bounds(s, pos + 1, cwd, home);
        }
        let first = quoted_part(s, pos, cwd, home);
        lemma_quoted_bounds(s, first.end, awaiting(cwd, first.pending), home);
    }
}

/// The next part of a backtick substitution.
spec fn backtick_part(s: Seq<char>, pos: int, cwd: Place, home: Seq<char>) -> Scan {
    if opens_substitution(s, pos) {
        let body = list_at(s, pos + 2, cwd, home, true);
        Scan { end: past(s, body.end, ')'), ..body }
    } else {
        let one = command_at(s, pos, cwd, home);
        Scan { end: if one.end == pos { pos + 1 } else { one.end }, ..one }
    }
}

proof fn lemma_backtick_bounds(s: Seq<char>, pos: int, cwd: Place, home: Seq<char>)
    requires
        0 <= pos <= s.len(),
    ensures
        pos <= backtick_at(s, pos, cwd, home).end <= s.len(),
    decreases s.len() - pos, 5int,
{
    if char_at(s, pos, '\n') && cwd.pending.len() > 0 {
        lemma_bodies_bounds(s, pos + 1, cwd.pending);
        lemma_backtick_bounds(
            s,
            bodies_end(s, pos + 1, cwd.pending),
            on_new_line(cwd),
            home,
        );
    } else if pos < s.len() && s[pos] != '`' {
        if opens_substitution(s, pos) {
            lemma_list_bounds(s, pos + 2, cwd, home, true);
        } else {
            lemma_command_bounds(s, pos, cwd, home);
        }
        let first = backtick_part(s, pos, cwd, home);
        lemma_backtick_bounds(s, first.end, first.cwd, home);
    }
}

/// Reading a list outside brackets comes to the end of the text, whatever the text holds and
/// wherever reading begins.
pub proof fn lists_are_read_to_the_end(s: Seq<char>, pos: int, cwd: Place, home: Seq<char>)
    requires
        0 <= pos <= s.len(),
    ensures
        list_at(s, pos, cwd, home, false).end == s.len(),
    decreases s.len() - pos,
{
    lemma_skips(s, pos);
    let p = lead(s, pos, cwd);
    if p >= s.len() {
    } else if s[p] == '\n' {
        lemma_bodies_bounds(s, p + 1, cwd.pending);
        lists_are_read_to_the_end(s, bodies_end(s, p + 1, cwd.pending), on_new_line(cwd), home);
    } else if s[p] == ';' {
        lists_are_read_to_the_end(s, p + 1, cwd, home);
    } else {
        lemma_command_bounds(s, p, cwd, home);
        let one = command_at(s, p, cwd, home);
        lemma_skips(s, one.end);
        let q = skip_blanks(s, one.end);
        let next = next_command(s, p, q, one.cwd.pending.len() > 0);
        lists_are_read_to_the_end(s, next, one.cwd, home);
    }
}

/// What may stand between commands, or closes a bracket.
pub open spec fn is_stray_char(c: char) -> bool {
    is_blank_or_newline(c) || c == ';' || c == ')' || c == '}'
}

/// Closing brackets that close nothing are passed over: a text of nothing but them, blanks,
/// line breaks and `;` lists no command.
pub proof fn stray_brackets_list_nothing(s: Seq<char>, pos: int, cwd: Place, home: Seq<char>)
    requires
        0 <= pos <= s.len(),
        forall|i: int| 0 <= i < s.len() ==> is_stray_char(#[trigger] s[i]),
    ensures
        list_at(s, pos, cwd, home, false).found == Seq::<CommandView>::empty(),
    decreases s.len() - pos,
{
    lemma_skips(s, pos);
    let p = lead(s, pos, cwd);
    let none = Seq::<CommandView>::empty();
    if p >= s.len() {
    } else if s[p] == '\n' {
        lemma_bodies_bounds(s, p + 1, cwd.pending);
        stray_brackets_list_nothing(
            s,
            bodies_end(s, p + 1, cwd.pending),
            on_new_line(cwd),
            home,
        );
    } else if s[p] == ';' {
        stray_brackets_list_nothing(s, p + 1, cwd, home);
    } else {
        assert(is_stray_char(s[p]));
        lemma_margin_skipped(s, pos);
        assert(skip_blanks(s, p) == p);
        assert(parts_at(s, p, cwd, home, no_parts(p)) == (Parts {
            pending: cwd.pending,
            ..no_parts(p)
        }));
        assert(strip_assignments(Seq::empty(), false).words.len() == 0);
        let one = command_at(s, p, cwd, home);
        assert(one.end == p && one.found == none);
        assert(one.cwd.pending =~= cwd.pending);
        assert(next_command(s, p, p, one.cwd.pending.len() > 0) == p + 1);
        stray_brackets_list_nothing(s, p + 1, one.cwd, home);
        assert(none + none =~= none);
    }
}

proof fn lemma_margin_skipped(s: Seq<char>, i: int)
    requires
        0 <= i <= s.len(),
    ensures
        skip_margin(s, i) < s.len() ==> !is_blank(s[skip_margin(s, i)]) && s[skip_margin(s, i)]
            != '\r',
    decreases s.len() - i,
{
    if i < s.len() {
        lemma_margin_skipped(s, i + 1);
    }
}

/// Reading a word never goes back and stays inside the text. It yields a text and commands
/// and no directory: one that a substitution changes to is left with the substitution.
pub proof fn words_are_read_forward(s: Seq<char>, pos: int, cwd: Place, home: Seq<char>)
    requires
        0 <= pos <= s.len(),
    ensures
        pos <= word_at(s, pos, cwd, home).end <= s.len(),
        pos < s.len() && !ends_word(s[pos]) ==> pos < word_at(s, pos, cwd, home).end,
{
    lemma_word_bounds(s, pos, cwd, home);
}

/// Whether `s` from position `b` on and `t` have the same first `n` characters.
pub open spec fn alike(s: Seq<char>, t: Seq<char>, b: int, n: int) -> bool {
    &&& 0 <= b
    &&& 0 <= n <= t.len()
    &&& b + n <= s.len()
    &&& forall|k: int| 0 <= k < n ==> #[trigger] t[k] == s[b + k]
}

/// Whether reading that stops at position `e` of `t` has seen nothing but what `s` and
/// `t` have in common: a character where it stopped, or the end of both.
pub open spec fn within(s: Seq<char>, t: Seq<char>, b: int, n: int, e: int) -> bool {
    e < n || n == t.len() && b + n == s.len()
}

/// A reading, found `b` positions further on.
pub open spec fn moved(r: Scan, b: int) -> Scan {
    Scan { end: b + r.end, ..r }
}

spec fn moved_word(r: Word, b: int) -> Word {
    Word { end: b + r.end, ..r }
}

spec fn moved_parts(r: Parts, b: int) -> Parts {
    Parts { end: b + r.end, ..r }
}

proof fn lemma_local_char(s: Seq<char>, t: Seq<char>, b: int, n: int, i: int, c: char)
    requires
        alike(s, t, b, n),
        0 <= i <= t.len(),
        within(s, t, b, n, i),
    ensures
        char_at(s, b + i, c) == char_at(t, i, c),
        b + i < s.len() <==> i < t.len(),
        i < t.len() ==> s[b + i] == t[i],
{
    if i < n {
        assert(t[i] == s[b + i]);
    }
}

proof fn lemma_local_skips(s: Seq<char>, t: Seq<char>, b: int, n: int, i: int)
    requires
        alike(s, t, b, n),
        0 <= i <= t.len(),
    ensures
        within(s, t, b, n, skip_blanks(t, i)) ==> skip_blanks(s, b + i) == b + skip_blanks(t, i),
        within(s, t, b, n, skip_lines(t, i)) ==> skip_lines(s, b + i) == b + skip_lines(t, i),
        within(s, t, b, n, skip_margin(t, i)) ==> skip_margin(s, b + i) == b + skip_margin(t, i),
        within(s, t, b, n, skip_digits(t, i)) ==> skip_digits(s, b + i) == b + skip_digits(t, i),
    decreases t.len() - i,
{
    lemma_skips(t, i);
    if within(s, t, b, n, i) {
        lemma_local_char(s, t, b, n, i, ' ');
    }
    if i < t.len() {
        lemma_local_skips(s, t, b, n, i + 1);
        assert(b + (i + 1) == b + i + 1);
    }
}

proof fn lemma_local_find(s: Seq<char>, t: Seq<char>, b: int, n: int, i: int, c: char)
    requires
        alike(s, t, b, n),
        0 <= i <= t.len(),
        within(s, t, b, n, find_from(t, i, c)),
    ensures
        find_from(s, b + i, c) == b + find_from(t, i, c),
    decreases t.len() - i,
{
    lemma_find_bounds(t, i, c);
    lemma_local_char(s, t, b, n, i, c);
    if i < t.len() && t[i] != c {
        lemma_local_find(s, t, b, n, i + 1, c);
        assert(b + (i + 1) == b + i + 1);
    }
}

proof fn lemma_local_subrange(s: Seq<char>, t: Seq<char>, b: int, n: int, i: int, j: int)
    requires
        alike(s, t, b, n),
        0 <= i <= j <= n,
    ensures
        s.subrange(b + i, b + j) == t.subrange(i, j),
{
    assert forall|k: int| 0 <= k < j - i implies s.subrange(b + i, b + j)[k] == t.subrange(
        i,
        j,
    )[k] by {
        assert(t[i + k] == s[b + (i + k)]);
    }
    assert(s.subrange(b + i, b + j) =~= t.subrange(i, j));
}

proof fn lemma_local_heredoc(
    s: Seq<char>,
    t: Seq<char>,
    b: int,
    n: int,
    i: int,
    delimiter: Seq<char>,
)
    requires
        alike(s, t, b, n),
        0 <= i <= t.len(),
        within(s, t, b, n, heredoc_end(t, i, delimiter)),
    ensures
        heredoc_end(s, b + i, delimiter) == b + heredoc_end(t, i, delimiter),
    decreases t.len() - i,
{
    lemma_find_bounds(t, i, '\n');
    lemma_heredoc_bounds(t, i, delimiter);
    let k = find_from(t, i, '\n');
    if k < t.len() {
        if trimmed(t.subrange(i, k)) == delimiter {
            lemma_local_find(s, t, b, n, i, '\n');
            lemma_local_subrange(s, t, b, n, i, k);
        } else {
            lemma_heredoc_bounds(t, k + 1, delimiter);
            lemma_local_find(s, t, b, n, i, '\n');
            lemma_local_subrange(s, t, b, n, i, k);
            lemma_local_heredoc(s, t, b, n, k + 1, delimiter);
            assert(b + (k + 1) == b + k + 1);
        }
    } else {
        lemma_local_find(s, t, b, n, i, '\n');
    }
}

proof fn lemma_local_bodies(
    s: Seq<char>,
    t: Seq<char>,
    b: int,
    n: int,
    i: int,
    pending: Seq<Seq<char>>,
)
    requires
        alike(s, t, b, n),
        0 <= i <= t.len(),
        within(s, t, b, n, bodies_end(t, i, pending)),
    ensures
        bodies_end(s, b + i, pending) == b + bodies_end(t, i, pending),
    decreases pending.len(),
{
    if pending.len() > 0 {
        lemma_heredoc_bounds(t, i, unquoted(pending[0]));
        let e = heredoc_end(t, i, unquoted(pending[0]));
        lemma_bodies_bounds(t, e, pending.drop_first());
        lemma_local_heredoc(s, t, b, n, i, unquoted(pending[0]));
        lemma_local_bodies(s, t, b, n, e, pending.drop_first());
    }
}

/// Whether the bodies of the here-documents that are open where a command of `t` ends, at
/// the end of its line, stand in `s` too.
spec fn bodies_alike(s: Seq<char>, t: Seq<char>, b: int, n: int, one: Scan) -> bool {
    one.cwd.pending.len() > 0 && char_at(t, one.end, '\n') ==> {
        let e = bodies_end(t, one.end + 1, one.cwd.pending);
        &&& e <= n
        &&& bodies_end(s, b + one.end + 1, one.cwd.pending) == b + e
    }
}

pub proof fn lemma_local_list(
    s: Seq<char>,
    t: Seq<char>,
    b: int,
    n: int,
    i: int,
    cwd: Place,
    home: Seq<char>,
    inner: bool,
)
    requires
        alike(s, t, b, n),
        0 <= i <= t.len(),
        within(s, t, b, n, list_at(t, i, cwd, home, inner).end),
    ensures
        list_at(s, b + i, cwd, home, inner) == moved(list_at(t, i, cwd, home, inner), b),
    decreases t.len() - i, 5int,
{
    lemma_skips(t, i);
    lemma_list_bounds(t, i, cwd, home, inner);
    let p = lead(t, i, cwd);
    if p < t.len() && t[p] == '\n' {
        lemma_bodies_bounds(t, p + 1, cwd.pending);
        let body = bodies_end(t, p + 1, cwd.pending);
        lemma_list_bounds(t, body, on_new_line(cwd), home, inner);
        lemma_local_skips(s, t, b, n, i);
        lemma_local_char(s, t, b, n, p, '\n');
        lemma_local_bodies(s, t, b, n, p + 1, cwd.pending);
        assert(b + (p + 1) == b + p + 1);
        lemma_local_list(s, t, b, n, body, on_new_line(cwd), home, inner);
    } else if p >= t.len() || inner && (t[p] == ')' || t[p] == '}') {
        lemma_local_skips(s, t, b, n, i);
        lemma_local_char(s, t, b, n, p, ')');
    } else if t[p] == ';' {
        lemma_list_bounds(t, p + 1, cwd, home, inner);
        lemma_local_skips(s, t, b, n, i);
        lemma_local_char(s, t, b, n, p, ')');
        lemma_local_list(s, t, b, n, p + 1, cwd, home, inner);
        assert(b + (p + 1) == b + p + 1);
    } else {
        lemma_command_bounds(t, p, cwd, home);
        let one = command_at(t, p, cwd, home);
        lemma_skips(t, one.end);
        let q = skip_blanks(t, one.end);
        if inner && (char_at(t, q, ')') || char_at(t, q, '}')) {
            lemma_local_skips(s, t, b, n, i);
            lemma_local_char(s, t, b, n, p, ')');
            lemma_local_command(s, t, b, n, p, cwd, home);
            lemma_local_skips(s, t, b, n, one.end);
            lemma_local_char(s, t, b, n, q, ')');
            lemma_local_char(s, t, b, n, q, '}');
        } else {
            let waits = one.cwd.pending.len() > 0;
            let next = next_command(t, p, q, waits);
            lemma_list_bounds(t, next, one.cwd, home, inner);
            lemma_local_skips(s, t, b, n, i);
            lemma_local_char(s, t, b, n, p, ')');
            if waits && char_at(t, one.end, '\n') {
                assert(q == one.end && next == q);
                assert(lead(t, q, one.cwd) == q);
                lemma_bodies_bounds(t, q + 1, one.cwd.pending);
                let body = bodies_end(t, q + 1, one.cwd.pending);
                lemma_list_bounds(t, body, on_new_line(one.cwd), home, inner);
                lemma_local_bodies(s, t, b, n, q + 1, one.cwd.pending);
                assert(b + (q + 1) == b + q + 1);
            }
            lemma_local_command(s, t, b, n, p, cwd, home);
            lemma_local_skips(s, t, b, n, one.end);
            lemma_local_char(s, t, b, n, q, ')');
            lemma_local_char(s, t, b, n, q, '}');
            if q < t.len() && (t[q] == '&' || t[q] == '|') {
                lemma_local_char(s, t, b, n, q + 1, t[q]);
                assert(b + (q + 1) == b + q + 1);
            }
            assert(next_command(s, b + p, b + q, waits) == b + next);
            lemma_local_list(s, t, b, n, next, one.cwd, home, inner);
        }
    }
}

proof fn lemma_local_command(
    s: Seq<char>,
    t: Seq<char>,
    b: int,
    n: int,
    i: int,
    cwd: Place,
    home: Seq<char>,
)
    requires
        alike(s, t, b, n),
        0 <= i <= t.len(),
        within(s, t, b, n, command_at(t, i, cwd, home).end),
        bodies_alike(s, t, b, n, command_at(t, i, cwd, home)),
    ensures
        command_at(s, b + i, cwd, home) == moved(command_at(t, i, cwd, home), b),
    decreases t.len() - i, 4int,
{
    lemma_skips(t, i);
    let p = skip_blanks(t, i);
    if p >= t.len() {
        lemma_local_skips(s, t, b, n, i);
        lemma_local_char(s, t, b, n, p, '(');
    } else if t[p] == '(' || t[p] == '{' {
        lemma_list_bounds(t, p + 1, cwd, home, true);
        lemma_local_skips(s, t, b, n, i);
        lemma_local_char(s, t, b, n, p, '(');
        let body = list_at(t, p + 1, cwd, home, true);
        lemma_local_list(s, t, b, n, p + 1, cwd, home, true);
        assert(b + (p + 1) == b + p + 1);
        lemma_local_char(s, t, b, n, body.end, ')');
        lemma_local_char(s, t, b, n, body.end, '}');
    } else {
        lemma_parts_bounds(t, p, cwd, home, no_parts(p));
        lemma_local_skips(s, t, b, n, i);
        lemma_local_char(s, t, b, n, p, '(');
        lemma_local_parts(s, t, b, n, p, cwd, home, no_parts(p));
        let parts = parts_at(t, p, cwd, home, no_parts(p));
        lemma_local_subrange(s, t, b, n, p, parts.end);
        if parts.pending.len() > cwd.pending.len() {
            lemma_local_char(s, t, b, n, parts.end, '\n');
            if char_at(t, parts.end, '\n') {
                let e = bodies_end(t, parts.end + 1, parts.pending);
                lemma_bodies_bounds(t, parts.end + 1, parts.pending);
                lemma_local_subrange(s, t, b, n, p, e);
            }
        }
    }
}

proof fn lemma_local_parts(
    s: Seq<char>,
    t: Seq<char>,
    b: int,
    n: int,
    i: int,
    cwd: Place,
    home: Seq<char>,
    acc: Parts,
)
    requires
        alike(s, t, b, n),
        0 <= i <= t.len(),
        within(s, t, b, n, parts_at(t, i, cwd, home, acc).end),
    ensures
        parts_at(s, b + i, cwd, home, moved_parts(acc, b)) == moved_parts(
            parts_at(t, i, cwd, home, acc),
            b,
        ),
    decreases t.len() - i, 3int,
{
    lemma_skips(t, i);
    lemma_parts_bounds(t, i, cwd, home, acc);
    let p = skip_blanks(t, i);
    let all = parts_at(t, i, cwd, home, acc);
    if p >= t.len() || ends_command(t[p]) {
        lemma_local_skips(s, t, b, n, i);
        lemma_local_char(s, t, b, n, p, '<');
    } else if t[p] == '<' && char_at(t, p + 1, '<') {
        lemma_opening_bounds(t, p + 2, cwd, home);
        let word = opening_at(t, p + 2, cwd, home);
        let added = Parts { found: acc.found + word.found, ..acc };
        let behind = awaiting(cwd, opened(t, p + 2, word));
        lemma_parts_bounds(t, word.end, behind, home, added);
        lemma_local_skips(s, t, b, n, i);
        lemma_local_char(s, t, b, n, p, '<');
        lemma_local_char(s, t, b, n, p + 1, '<');
        assert(b + (p + 1) == b + p + 1);
        assert(b + (p + 2) == b + p + 2);
        lemma_local_opening(s, t, b, n, p + 2, cwd, home);
        lemma_local_parts(s, t, b, n, word.end, behind, home, added);
    } else if (t[p] == '<' || t[p] == '>') && char_at(t, p + 1, '&') {
        lemma_skips(t, p + 2);
        let next = skip_digits(t, p + 2);
        lemma_parts_bounds(t, next, cwd, home, acc);
        lemma_local_skips(s, t, b, n, i);
        lemma_local_char(s, t, b, n, p, '<');
        lemma_local_char(s, t, b, n, p + 1, '<');
        lemma_local_char(s, t, b, n, p + 1, '&');
        lemma_local_skips(s, t, b, n, p + 2);
        assert(b + (p + 1) == b + p + 1);
        assert(b + (p + 2) == b + p + 2);
        lemma_local_parts(s, t, b, n, next, cwd, home, acc);
    } else if t[p] == '<' {
        lemma_target_bounds(t, p + 1, cwd, home);
        let target = target_at(t, p + 1, cwd, home);
        let added = Parts {
            redirects_in: add_word(acc.redirects_in, target.text),
            found: acc.found + target.found,
            ..acc
        };
        lemma_parts_bounds(t, target.end, awaiting(cwd, target.pending), home, added);
        lemma_local_skips(s, t, b, n, i);
        lemma_local_char(s, t, b, n, p, '<');
        lemma_local_char(s, t, b, n, p + 1, '<');
        lemma_local_char(s, t, b, n, p + 1, '&');
        assert(b + (p + 1) == b + p + 1);
        lemma_local_target(s, t, b, n, p + 1, cwd, home);
        lemma_local_parts(s, t, b, n, target.end, awaiting(cwd, target.pending), home, added);
    } else if t[p] == '>' {
        let from = past(t, p + 1, '>');
        lemma_target_bounds(t, from, cwd, home);
        let target = target_at(t, from, cwd, home);
        let added = Parts {
            redirects_out: add_word(acc.redirects_out, target.text),
            found: acc.found + target.found,
            ..acc
        };
        lemma_parts_bounds(t, target.end, awaiting(cwd, target.pending), home, added);
        lemma_local_skips(s, t, b, n, i);
        lemma_local_char(s, t, b, n, p, '>');
        lemma_local_char(s, t, b, n, p + 1, '>');
        lemma_local_char(s, t, b, n, p + 1, '&');
        assert(b + (p + 1) == b + p + 1);
        assert(past(s, b + p + 1, '>') == b + from);
        lemma_local_target(s, t, b, n, from, cwd, home);
        lemma_local_parts(s, t, b, n, target.end, awaiting(cwd, target.pending), home, added);
    } else {
        lemma_word_bounds(t, p, cwd, home);
        let word = word_at(t, p, cwd, home);
        let added = Parts {
            words: if is_fd_prefix(t, word) {
                acc.words
            } else {
                add_word(acc.words, word.text)
            },
            found: acc.found + word.found,
            ..acc
        };
        lemma_parts_bounds(t, word.end, awaiting(cwd, word.pending), home, added);
        lemma_local_skips(s, t, b, n, i);
        lemma_local_char(s, t, b, n, p, '<');
        lemma_local_word(s, t, b, n, p, cwd, home);
        lemma_local_char(s, t, b, n, word.end, '>');
        lemma_local_char(s, t, b, n, word.end, '<');
        lemma_local_fd_prefix(s, t, b, word);
        lemma_local_parts(s, t, b, n, word.end, awaiting(cwd, word.pending), home, added);
    }
}

proof fn lemma_local_fd_prefix(s: Seq<char>, t: Seq<char>, b: int, word: Word)
    requires
        char_at(s, b + word.end, '>') == char_at(t, word.end, '>'),
        char_at(s, b + word.end, '<') == char_at(t, word.end, '<'),
    ensures
        is_fd_prefix(s, moved_word(word, b)) == is_fd_prefix(t, word),
{
    let other = moved_word(word, b);
    if is_fd_prefix(t, word) {
        assert forall|k: int| 0 <= k < other.text.len() implies is_digit(
            #[trigger] other.text[k],
        ) by {
            assert(is_digit(word.text[k]));
        }
    }
    if is_fd_prefix(s, other) {
        assert forall|k: int| 0 <= k < word.text.len() implies is_digit(
            #[trigger] word.text[k],
        ) by {
            assert(is_digit(other.text[k]));
        }
    }
}

proof fn lemma_local_opening(
    s: Seq<char>,
    t: Seq<char>,
    b: int,
    n: int,
    i: int,
    cwd: Place,
    home: Seq<char>,
)
    requires
        alike(s, t, b, n),
        0 <= i <= t.len(),
        within(s, t, b, n, opening_at(t, i, cwd, home).end),
    ensures
        opening_at(s, b + i, cwd, home) == moved_word(opening_at(t, i, cwd, home), b),
        char_at(s, b + i, '<') == char_at(t, i, '<'),
    decreases t.len() - i, 3int,
{
    lemma_opening_bounds(t, i, cwd, home);
    lemma_local_char(s, t, b, n, i, '<');
    lemma_local_char(s, t, b, n, i, '-');
    if char_at(t, i, '<') || char_at(t, i, '-') {
        assert(b + (i + 1) == b + i + 1);
        lemma_local_target(s, t, b, n, i + 1, cwd, home);
    } else {
        lemma_local_target(s, t, b, n, i, cwd, home);
    }
}

proof fn lemma_local_target(
    s: Seq<char>,
    t: Seq<char>,
    b: int,
    n: int,
    i: int,
    cwd: Place,
    home: Seq<char>,
)
    requires
        alike(s, t, b, n),
        0 <= i <= t.len(),
        within(s, t, b, n, target_at(t, i, cwd, home).end),
    ensures
        target_at(s, b + i, cwd, home) == moved_word(target_at(t, i, cwd, home), b),
    decreases t.len() - i, 2int,
{
    lemma_skips(t, i);
    let p = skip_blanks(t, i);
    lemma_word_bounds(t, p, cwd, home);
    lemma_local_skips(s, t, b, n, i);
    lemma_local_word(s, t, b, n, p, cwd, home);
}

proof fn lemma_local_word(
    s: Seq<char>,
    t: Seq<char>,
    b: int,
    n: int,
    i: int,
    cwd: Place,
    home: Seq<char>,
)
    requires
        alike(s, t, b, n),
        0 <= i <= t.len(),
        within(s, t, b, n, word_at(t, i, cwd, home).end),
    ensures
        word_at(s, b + i, cwd, home) == moved_word(word_at(t, i, cwd, home), b),
    decreases t.len() - i, 1int,
{
    lemma_word_bounds(t, i, cwd, home);
    lemma_local_char(s, t, b, n, i, ' ');
    if i < t.len() && !ends_word(t[i]) {
        lemma_piece_bounds(t, i, cwd, home);
        let first = piece_at(t, i, cwd, home);
        lemma_word_bounds(t, first.end, awaiting(cwd, first.pending), home);
        lemma_local_piece(s, t, b, n, i, cwd, home);
        lemma_local_word(s, t, b, n, first.end, awaiting(cwd, first.pending), home);
    }
}

proof fn lemma_local_single_quoted(
    s: Seq<char>,
    t: Seq<char>,
    b: int,
    n: int,
    i: int,
    cwd: Place,
    home: Seq<char>,
)
    requires
        alike(s, t, b, n),
        0 <= i < t.len(),
        within(s, t, b, n, piece_at(t, i, cwd, home).end),
        t[i] == '\'',
        i < n,
    ensures
        piece_at(s, b + i, cwd, home) == moved_word(piece_at(t, i, cwd, home), b),
{
    lemma_local_char(s, t, b, n, i, '\'');
    lemma_find_bounds(t, i + 1, '\'');
    let close = find_from(t, i + 1, '\'');
    lemma_local_find(s, t, b, n, i + 1, '\'');
    lemma_local_char(s, t, b, n, close, '\'');
    assert(close <= n);
    lemma_local_subrange(s, t, b, n, i + 1, close);
    assert(b + (i + 1) == b + i + 1);
}

#[verifier::rlimit(40)]
#[verifier::spinoff_prover]
proof fn lemma_local_piece(
    s: Seq<char>,
    t: Seq<char>,
    b: int,
    n: int,
    i: int,
    cwd: Place,
    home: Seq<char>,
)
    requires
        alike(s, t, b, n),
        0 <= i < t.len(),
        within(s, t, b, n, piece_at(t, i, cwd, home).end),
    ensures
        piece_at(s, b + i, cwd, home) == moved_word(piece_at(t, i, cwd, home), b),
    decreases t.len() - i, 0int,
{
    lemma_piece_bounds(t, i, cwd, home);
    lemma_local_char(s, t, b, n, i, '$');
    lemma_local_char(s, t, b, n, i + 1, '(');
    assert(b + (i + 1) == b + i + 1);
    let here = piece_at(t, i, cwd, home);
    let there = piece_at(s, b + i, cwd, home);
    if t[i] == '\'' {
        lemma_local_single_quoted(s, t, b, n, i, cwd, home);
    } else if t[i] == '"' {
        assert(here == quoted_at(t, i + 1, cwd, home));
        assert(there == quoted_at(s, b + i + 1, cwd, home));
        lemma_local_quoted(s, t, b, n, i + 1, cwd, home);
    } else if opens_substitution(t, i) {
        assert(opens_substitution(s, b + i));
        lemma_list_bounds(t, i + 2, cwd, home, true);
        let body = list_at(t, i + 2, cwd, home, true);
        assert(here == (Word {
            end: past(t, body.end, ')'),
            text: "$()"@,
            pending: body.cwd.pending,
            found: body.found,
        }));
        lemma_local_list(s, t, b, n, i + 2, cwd, home, true);
        assert(b + (i + 2) == b + i + 2);
        lemma_local_char(s, t, b, n, body.end, ')');
    } else if t[i] == '`' {
        assert(!opens_substitution(s, b + i));
        assert(here.end == backtick_at(t, i + 1, cwd, home).end);
        lemma_local_backtick(s, t, b, n, i + 1, cwd, home);
    } else {
        assert(!opens_substitution(s, b + i));
    }
}

proof fn lemma_local_quoted(
    s: Seq<char>,
    t: Seq<char>,
    b: int,
    n: int,
    i: int,
    cwd: Place,
    home: Seq<char>,
)
    requires
        alike(s, t, b, n),
        0 <= i <= t.len(),
        within(s, t, b, n, quoted_at(t, i, cwd, home).end),
    ensures
        quoted_at(s, b + i, cwd, home) == moved_word(quoted_at(t, i, cwd, home), b),
    decreases t.len() - i, 0int,
{
    lemma_quoted_bounds(t, i, cwd, home);
    lemma_local_char(s, t, b, n, i, '$');
    if i < t.len() && t[i] != '"' {
        if opens_substitution(t, i) {
            lemma_list_bounds(t, i + 2, cwd, home, true);
        } else if t[i] == '`' {
            lemma_backtick_bounds(t, i + 1, cwd, home);
        }
        let first = quoted_part(t, i, cwd, home);
        lemma_quoted_bounds(t, first.end, awaiting(cwd, first.pending), home);
        lemma_local_char(s, t, b, n, i + 1, '(');
        assert(b + (i + 1) == b + i + 1);
        if opens_substitution(t, i) {
            let body = list_at(t, i + 2, cwd, home, true);
            lemma_local_list(s, t, b, n, i + 2, cwd, home, true);
            assert(b + (i + 2) == b + i + 2);
            lemma_local_char(s, t, b, n, body.end, ')');
        } else if t[i] == '`' {
            lemma_local_backtick(s, t, b, n, i + 1, cwd, home);
        }
        assert(quoted_part(s, b + i, cwd, home) == moved_word(first, b));
        lemma_local_quoted(s, t, b, n, first.end, awaiting(cwd, first.pending), home);
    }
}

proof fn lemma_local_backtick(
    s: Seq<char>,
    t: Seq<char>,
    b: int,
    n: int,
    i: int,
    cwd: Place,
    home: Seq<char>,
)
    requires
        alike(s, t, b, n),
        0 <= i <= t.len(),
        within(s, t, b, n, backtick_at(t, i, cwd, home).end),
    ensures
        backtick_at(s, b + i, cwd, home) == moved(backtick_at(t, i, cwd, home), b),
    decreases t.len() - i, 5int,
{
    lemma_backtick_bounds(t, i, cwd, home);
    lemma_local_char(s, t, b, n, i, '$');
    if char_at(t, i, '\n') && cwd.pending.len() > 0 {
        lemma_bodies_bounds(t, i + 1, cwd.pending);
        let body = bodies_end(t, i + 1, cwd.pending);
        lemma_backtick_bounds(t, body, on_new_line(cwd), home);
        lemma_local_bodies(s, t, b, n, i + 1, cwd.pending);
        assert(b + (i + 1) == b + i + 1);
        lemma_local_backtick(s, t, b, n, body, on_new_line(cwd), home);
    } else if i < t.len() && t[i] != '`' {
        if opens_substitution(t, i) {
            lemma_list_bounds(t, i + 2, cwd, home, true);
        } else {
            lemma_command_bounds(t, i, cwd, home);
        }
        let first = backtick_part(t, i, cwd, home);
        lemma_backtick_bounds(t, first.end, first.cwd, home);
        lemma_local_char(s, t, b, n, i + 1, '(');
        assert(b + (i + 1) == b + i + 1);
        if opens_substitution(t, i) {
            let body = list_at(t, i + 2, cwd, home, true);
            lemma_local_list(s, t, b, n, i + 2, cwd, home, true);
            assert(b + (i + 2) == b + i + 2);
            lemma_local_char(s, t, b, n, body.end, ')');
        } else {
            let one = command_at(t, i, cwd, home);
            if one.cwd.pending.len() > 0 && char_at(t, one.end, '\n') {
                lemma_bodies_bounds(t, one.end + 1, one.cwd.pending);
                let body = bodies_end(t, one.end + 1, one.cwd.pending);
                if one.end > i {
                    lemma_backtick_bounds(t, body, on_new_line(one.cwd), home);
                    lemma_local_bodies(s, t, b, n, one.end + 1, one.cwd.pending);
                    assert(b + (one.end + 1) == b + one.end + 1);
                }
            }
            lemma_local_command(s, t, b, n, i, cwd, home);
        }
        assert(backtick_part(s, b + i, cwd, home) == moved(first, b));
        lemma_local_backtick(s, t, b, n, first.end, first.cwd, home);
    }
}

/// Whether the body of a here-document that begins at `i` ends in a line that is the
/// delimiter.
pub open spec fn closes(s: Seq<char>, i: int, delimiter: Seq<char>) -> bool
    decreases s.len() - i,
{
    let k = find_from(s, i, '\n');
    if i < 0 || k < i || k >= s.len() {
        false
    } else {
        trimmed(s.subrange(i, k)) == delimiter || closes(s, k + 1, delimiter)
    }
}

/// Whether the bodies of several here-documents, from `i`, all end in such a line.
pub open spec fn all_close(s: Seq<char>, i: int, pending: Seq<Seq<char>>) -> bool
    decreases pending.len(),
{
    pending.len() == 0 || closes(s, i, unquoted(pending[0])) && all_close(
        s,
        heredoc_end(s, i, unquoted(pending[0])),
        pending.drop_first(),
    )
}

/// The commands before position `n` of a list that is read from `pos`, if reading comes
/// to `n` between two commands, behind what separates them.
pub open spec fn list_until(
    s: Seq<char>,
    pos: int,
    cwd: Place,
    home: Seq<char>,
    n: int,
) -> Option<Scan>
    decreases s.len() - pos,
{
    let p = lead(s, pos, cwd);
    if pos < 0 || n < pos || p < pos {
        None
    } else if n <= p {
        Some(Scan { end: n, cwd, found: Seq::empty() })
    } else if p >= s.len() {
        None
    } else if s[p] == '\n' {
        let body = bodies_end(s, p + 1, cwd.pending);
        if p < body <= s.len() && all_close(s, p + 1, cwd.pending) {
            list_until(s, body, on_new_line(cwd), home, n)
        } else {
            None
        }
    } else if s[p] == ';' {
        list_until(s, p + 1, cwd, home, n)
    } else {
        let one = command_at(s, p, cwd, home);
        let q = skip_blanks(s, one.end);
        let next = next_command(s, p, q, one.cwd.pending.len() > 0);
        if p < next <= s.len() && (q < next || next < n) {
            match list_until(s, next, one.cwd, home, n) {
                Some(rest) => Some(after(one.found, rest)),
                None => None,
            }
        } else {
            None
        }
    }
}

proof fn lemma_lead_inside(s: Seq<char>, pos: int, n: int, cwd: Place)
    requires
        0 <= pos <= n <= lead(s, pos, cwd),
        pos <= s.len(),
    ensures
        lead(s, n, cwd) == lead(s, pos, cwd),
    decreases n - pos,
{
    lemma_skips(s, pos);
    if pos < n {
        lemma_lead_inside(s, pos + 1, n, cwd);
    }
}

pub proof fn lemma_list_until(
    s: Seq<char>,
    pos: int,
    cwd: Place,
    home: Seq<char>,
    n: int,
)
    requires
        0 <= pos <= n <= s.len(),
        list_until(s, pos, cwd, home, n) is Some,
    ensures
        ({
            let first = list_until(s, pos, cwd, home, n)->0;
            list_at(s, pos, cwd, home, false) == after(
                first.found,
                list_at(s, n, first.cwd, home, false),
            )
        }),
    decreases s.len() - pos,
{
    lemma_skips(s, pos);
    let p = lead(s, pos, cwd);
    if n <= p {
        lemma_lead_inside(s, pos, n, cwd);
        let rest = list_at(s, n, cwd, home, false);
        assert(list_at(s, pos, cwd, home, false) == rest);
        assert(Seq::<CommandView>::empty() + rest.found =~= rest.found);
    } else if s[p] == '\n' {
        lemma_list_until(s, bodies_end(s, p + 1, cwd.pending), on_new_line(cwd), home, n);
    } else if s[p] == ';' {
        lemma_list_until(s, p + 1, cwd, home, n);
    } else {
        lemma_command_bounds(s, p, cwd, home);
        let one = command_at(s, p, cwd, home);
        lemma_skips(s, one.end);
        let q = skip_blanks(s, one.end);
        let next = next_command(s, p, q, one.cwd.pending.len() > 0);
        lemma_list_until(s, next, one.cwd, home, n);
        let rest = list_until(s, next, one.cwd, home, n)->0;
        let behind = list_at(s, n, rest.cwd, home, false);
        assert(one.found + (rest.found + behind.found) =~= (one.found + rest.found) + behind.found);
    }
}

/// Whether a list goes on behind a text as a list of its own: the text ends behind a
/// separator that is neither quoted nor inside brackets.
pub open spec fn ends_in_separator(t: Seq<char>, cwd: Place, home: Seq<char>) -> bool {
    list_until(t, 0, cwd, home, t.len() as int) is Some
}

/// Whether a separator at the end of `t` becomes another one by what follows: `&` or `|`
/// that is doubled.
pub open spec fn doubles(t: Seq<char>, y: Seq<char>) -> bool {
    t.len() > 0 && y.len() > 0 && (t.last() == '&' || t.last() == '|') && y[0] == t.last()
}

proof fn lemma_until_bodies(t: Seq<char>, q: int, cwd: Place, home: Seq<char>)
    requires
        0 <= q < t.len(),
        t[q] == '\n',
        cwd.pending.len() > 0,
        list_until(t, q, cwd, home, t.len() as int) is Some,
    ensures
        all_close(t, q + 1, cwd.pending),
{
    assert(lead(t, q, cwd) == q);
}

/// A command of a text that ends in a separator is read alike where the text goes on.
proof fn lemma_until_command(t: Seq<char>, y: Seq<char>, p: int, cwd: Place, home: Seq<char>)
    requires
        0 <= p < t.len(),
        t[p] != '\n',
        !doubles(t, y),
        ({
            let one = command_at(t, p, cwd, home);
            let q = skip_blanks(t, one.end);
            let next = next_command(t, p, q, one.cwd.pending.len() > 0);
            &&& p < next <= t.len()
            &&& q < next || next < t.len()
            &&& list_until(t, next, one.cwd, home, t.len() as int) is Some
        }),
    ensures
        ({
            let one = command_at(t, p, cwd, home);
            let q = skip_blanks(t, one.end);
            let waits = one.cwd.pending.len() > 0;
            &&& command_at(t + y, p, cwd, home) == one
            &&& skip_blanks(t + y, one.end) == q
            &&& next_command(t + y, p, q, waits) == next_command(t, p, q, waits)
        }),
{
    let s = t + y;
    let n = t.len() as int;
    assert(alike(s, t, 0, n));
    lemma_command_bounds(t, p, cwd, home);
    let one = command_at(t, p, cwd, home);
    lemma_skips(t, one.end);
    let q = skip_blanks(t, one.end);
    let waits = one.cwd.pending.len() > 0;
    let next = next_command(t, p, q, waits);
    if waits && char_at(t, one.end, '\n') {
        assert(q == one.end && next == q);
        assert(lead(t, q, one.cwd) == q);
        lemma_bodies_bounds(t, q + 1, one.cwd.pending);
        lemma_until_bodies(t, q, one.cwd, home);
        lemma_closed_tail(t, y, q + 1, one.cwd.pending);
    }
    lemma_local_command(s, t, 0, n, p, cwd, home);
    lemma_local_skips(s, t, 0, n, one.end);
    lemma_local_char(s, t, 0, n, q, ';');
    assert(moved(one, 0) == one);
    if t[q] == '&' || t[q] == '|' {
        if q + 1 < n {
            lemma_local_char(s, t, 0, n, q + 1, t[q]);
        } else {
            assert(t.last() == t[q]);
            if y.len() > 0 {
                assert(s[q + 1] == y[0]);
            }
        }
    }
    assert(next_command(s, p, q, waits) == next);
}

#[verifier::rlimit(40)]
#[verifier::spinoff_prover]
proof fn lemma_until_tail(
    t: Seq<char>,
    y: Seq<char>,
    pos: int,
    cwd: Place,
    home: Seq<char>,
)
    requires
        0 <= pos <= t.len(),
        list_until(t, pos, cwd, home, t.len() as int) is Some,
        !doubles(t, y),
    ensures
        list_until(t + y, pos, cwd, home, t.len() as int) == list_until(
            t,
            pos,
            cwd,
            home,
            t.len() as int,
        ),
    decreases t.len() - pos,
{
    let s = t + y;
    let n = t.len() as int;
    assert(alike(s, t, 0, n));
    lemma_skips(t, pos);
    lemma_skips(s, pos);
    let p = lead(t, pos, cwd);
    if p >= n {
        lemma_lead_reaches(t, y, pos, cwd);
    } else {
        lemma_local_skips(s, t, 0, n, pos);
        lemma_local_char(s, t, 0, n, p, ';');
        if t[p] == '\n' {
            lemma_bodies_bounds(t, p + 1, cwd.pending);
            lemma_closed_tail(t, y, p + 1, cwd.pending);
            lemma_until_tail(t, y, bodies_end(t, p + 1, cwd.pending), on_new_line(cwd), home);
        } else if t[p] == ';' {
            lemma_until_tail(t, y, p + 1, cwd, home);
        } else {
            let one = command_at(t, p, cwd, home);
            let q = skip_blanks(t, one.end);
            let next = next_command(t, p, q, one.cwd.pending.len() > 0);
            lemma_command_bounds(t, p, cwd, home);
            lemma_skips(t, one.end);
            lemma_until_command(t, y, p, cwd, home);
            lemma_until_tail(t, y, next, one.cwd, home);
        }
    }
}

proof fn lemma_lead_reaches(t: Seq<char>, y: Seq<char>, pos: int, cwd: Place)
    requires
        0 <= pos <= t.len(),
        lead(t, pos, cwd) >= t.len(),
    ensures
        lead(t + y, pos, cwd) >= t.len(),
    decreases t.len() - pos,
{
    lemma_skips(t + y, pos);
    if pos < t.len() {
        assert((t + y)[pos] == t[pos]);
        lemma_skips(t, pos);
        lemma_lead_reaches(t, y, pos + 1, cwd);
    }
}

proof fn lemma_closes_tail(t: Seq<char>, y: Seq<char>, i: int, delimiter: Seq<char>)
    requires
        0 <= i <= t.len(),
        closes(t, i, delimiter),
    ensures
        closes(t + y, i, delimiter),
        heredoc_end(t + y, i, delimiter) == heredoc_end(t, i, delimiter),
    decreases t.len() - i,
{
    let s = t + y;
    let n = t.len() as int;
    assert(alike(s, t, 0, n));
    lemma_find_bounds(t, i, '\n');
    let k = find_from(t, i, '\n');
    lemma_local_find(s, t, 0, n, i, '\n');
    lemma_local_subrange(s, t, 0, n, i, k);
    if trimmed(t.subrange(i, k)) != delimiter {
        lemma_closes_tail(t, y, k + 1, delimiter);
    }
}

proof fn lemma_closed_tail(t: Seq<char>, y: Seq<char>, i: int, pending: Seq<Seq<char>>)
    requires
        0 <= i <= t.len(),
        all_close(t, i, pending),
    ensures
        all_close(t + y, i, pending),
        bodies_end(t + y, i, pending) == bodies_end(t, i, pending),
    decreases pending.len(),
{
    if pending.len() > 0 {
        lemma_heredoc_bounds(t, i, unquoted(pending[0]));
        lemma_closes_tail(t, y, i, unquoted(pending[0]));
        lemma_closed_tail(t, y, heredoc_end(t, i, unquoted(pending[0])), pending.drop_first());
    }
}

/// What stands behind a separator is read as a command line of its own, in the directory
/// that the commands before it leave.
pub proof fn separators_split_lists(t: Seq<char>, y: Seq<char>, cwd: Place, home: Seq<char>)
    requires
        ends_in_separator(t, cwd, home),
        !doubles(t, y),
    ensures
        ({
            let first = list_at(t, 0, cwd, home, false);
            let second = list_at(y, 0, first.cwd, home, false);
            let both = list_at(t + y, 0, cwd, home, false);
            &&& both.found == first.found + second.found
            &&& both.cwd == second.cwd
        }),
{
    let n = t.len() as int;
    let s = t + y;
    lemma_list_until(t, 0, cwd, home, n);
    lemma_until_tail(t, y, 0, cwd, home);
    lemma_list_until(s, 0, cwd, home, n);
    let first = list_until(t, 0, cwd, home, n)->0;
    assert(alike(s, y, n, y.len() as int));
    lemma_local_list(s, y, n, y.len() as int, 0, first.cwd, home, false);
    lemma_skips(t, n);
    let whole = list_at(t, 0, cwd, home, false);
    assert(whole == after(first.found, list_at(t, n, first.cwd, home, false)));
    assert(whole.found =~= first.found);
}

pub proof fn lemma_replaced_splits(a: Seq<char>, b: Seq<char>)
    requires
        a.len() == 0 || a.last() != '\\',
    ensures
        replaced(a + b, "\\\n"@, " "@) == replaced(a, "\\\n"@, " "@) + replaced(b, "\\\n"@, " "@),
    decreases a.len(),
{
    reveal_strlit("\\\n");
    let pat = "\\\n"@;
    let with = " "@;
    let s = a + b;
    if a.len() == 0 {
        assert(s =~= b);
        assert(replaced(a, pat, with) + replaced(b, pat, with) =~= replaced(b, pat, with));
    } else if s.len() < 2 {
        assert(b =~= Seq::empty());
        assert(s =~= a);
        assert(a + replaced(b, pat, with) =~= a);
    } else if s.take(2) == pat {
        assert(s.take(2)[0] == '\\' && s.take(2)[1] == '\n');
        assert(a.len() >= 2) by {
            if a.len() == 1 {
                assert(a.last() == s[0]);
            }
        }
        assert(a.take(2) =~= s.take(2));
        assert(s.skip(2) =~= a.skip(2) + b);
        if a.len() > 2 {
            assert(a.skip(2).last() == a.last());
        }
        lemma_replaced_splits(a.skip(2), b);
        let first = replaced(a.skip(2), pat, with);
        let second = replaced(b, pat, with);
        assert(with + (first + second) =~= (with + first) + second);
    } else {
        assert(s.skip(1) =~= a.skip(1) + b);
        assert(s[0] == a[0]);
        if a.len() >= 2 {
            assert(a.take(2) =~= s.take(2));
            assert(a.skip(1).last() == a.last());
        } else {
            assert(replaced(a, pat, with) == a);
            assert(a.skip(1) =~= Seq::empty());
            assert(replaced(a.skip(1), pat, with) =~= Seq::empty());
            assert(a =~= seq![a[0]] + Seq::empty());
        }
        lemma_replaced_splits(a.skip(1), b);
        let first = replaced(a.skip(1), pat, with);
        let second = replaced(b, pat, with);
        assert(seq![s[0]] + (first + second) =~= (seq![s[0]] + first) + second);
    }
}

/// The commands of a command line whose first part ends behind a separator are those of
/// the first part, and then those of the rest, entered in the directory that the first
/// part leaves.
pub proof fn separators_split(x: Seq<char>, y: Seq<char>, cwd: Place, home: Seq<char>)
    requires
        x.len() == 0 || x.last() != '\\',
        ends_in_separator(continued(x), cwd, home),
        !doubles(continued(x), continued(y)),
    ensures
        commands_from(x + y, cwd, home) == commands_from(x, cwd, home) + commands_from(
            y,
            list_at(continued(x), 0, cwd, home, false).cwd,
            home,
        ),
{
    lemma_replaced_splits(x, y);
    separators_split_lists(continued(x), continued(y), cwd, home);
}

/// A line that ends in a backslash goes on in the next line, as if a space stood between
/// them.
pub proof fn backslash_continues_a_line(
    x: Seq<char>,
    y: Seq<char>,
    cwd: Place,
    home: Seq<char>,
)
    requires
        x.len() == 0 || x.last() != '\\',
    ensures
        commands_from(x + "\\\n"@ + y, cwd, home) == commands_from(x + " "@ + y, cwd, home),
{
    reveal_strlit("\\\n");
    reveal_strlit(" ");
    let pat = "\\\n"@;
    lemma_replaced_splits(x, pat + y);
    lemma_replaced_splits(x, " "@ + y);
    lemma_replaced_splits(" "@, y);
    assert(x + pat + y =~= x + (pat + y));
    assert(x + " "@ + y =~= x + (" "@ + y));
    assert((pat + y).take(2) =~= pat);
    assert((pat + y).skip(2) =~= y);
    assert(replaced(pat + y, pat, " "@) == " "@ + replaced(y, pat, " "@));
    assert(replaced(" "@, pat, " "@) == " "@);
}

/// A character that is no more than a part of a word, or stands between words.
pub open spec fn is_plain_char(c: char) -> bool {
    is_blank(c) || !ends_word(c) && c != '\'' && c != '"' && c != '`' && c != '(' && c != ')' && c
        != '{' && c != '\r'
}

/// A text of plain words: nothing in it is quoted, bracketed, redirected or separated.
pub open spec fn is_plain(x: Seq<char>) -> bool {
    &&& forall|i: int| 0 <= i < x.len() ==> is_plain_char(#[trigger] x[i])
    &&& x.len() == 0 || x.last() != '\\'
}

/// Whether `s` is the plain text `x`, or goes on behind it with something that ends a
/// command.
spec fn ends_plain(s: Seq<char>, x: Seq<char>) -> bool {
    &&& x.len() <= s.len()
    &&& forall|i: int| 0 <= i < x.len() ==> is_plain_char(#[trigger] s[i]) && s[i] == x[i]
    &&& x.len() < s.len() ==> ends_command(s[x.len() as int])
}

proof fn lemma_plain_word(
    s: Seq<char>,
    x: Seq<char>,
    i: int,
    cwd: Place,
    home: Seq<char>,
)
    requires
        ends_plain(s, x),
        0 <= i <= x.len(),
    ensures
        i <= word_at(s, i, cwd, home).end <= x.len(),
        word_at(s, i, cwd, home) == word_at(x, i, cwd, home),
        word_at(s, i, cwd, home).pending == cwd.pending,
        word_at(s, i, cwd, home).found == Seq::<CommandView>::empty(),
        i < x.len() && !is_blank(x[i]) ==> i < word_at(s, i, cwd, home).end,
    decreases x.len() - i,
{
    if i < x.len() {
        assert(is_plain_char(s[i]));
        assert(x[i] == s[i]);
        if !is_blank(x[i]) {
            if i + 1 < x.len() {
                assert(is_plain_char(s[i + 1]));
                assert(x[i + 1] == s[i + 1]);
            }
            assert(!opens_substitution(s, i));
            assert(!opens_substitution(x, i));
            lemma_plain_word(s, x, i + 1, cwd, home);
            assert(piece_at(s, i, cwd, home) == piece_at(x, i, cwd, home));
            assert(Seq::<CommandView>::empty() + Seq::<CommandView>::empty() =~= Seq::<
                CommandView,
            >::empty());
        }
    }
}

proof fn lemma_plain_skip(s: Seq<char>, x: Seq<char>, i: int)
    requires
        ends_plain(s, x),
        0 <= i <= x.len(),
    ensures
        i <= skip_blanks(s, i) <= x.len(),
        skip_blanks(s, i) == skip_blanks(x, i),
        skip_blanks(s, i) < x.len() ==> !is_blank(x[skip_blanks(s, i)]),
    decreases x.len() - i,
{
    if i < x.len() {
        assert(is_plain_char(s[i]));
        lemma_plain_skip(s, x, i + 1);
    }
}

proof fn lemma_plain_parts(
    s: Seq<char>,
    x: Seq<char>,
    i: int,
    cwd: Place,
    home: Seq<char>,
    acc: Parts,
)
    requires
        ends_plain(s, x),
        0 <= i <= x.len(),
    ensures
        parts_at(s, i, cwd, home, acc).end == x.len(),
        parts_at(s, i, cwd, home, acc).pending == cwd.pending,
        parts_at(s, i, cwd, home, acc).found == acc.found,
        parts_at(s, i, cwd, home, acc) == parts_at(x, i, cwd, home, acc),
    decreases x.len() - i,
{
    lemma_plain_skip(s, x, i);
    let p = skip_blanks(s, i);
    if p < x.len() {
        assert(is_plain_char(s[p]));
        assert(x[p] == s[p]);
        lemma_plain_word(s, x, p, cwd, home);
        let word = word_at(s, p, cwd, home);
        if word.end < x.len() {
            assert(is_plain_char(s[word.end]));
            assert(x[word.end] == s[word.end]);
        }
        assert(!is_fd_prefix(s, word));
        assert(!is_fd_prefix(x, word));
        let added = Parts {
            words: add_word(acc.words, word.text),
            found: acc.found + word.found,
            ..acc
        };
        assert(acc.found + word.found =~= acc.found);
        lemma_plain_parts(s, x, word.end, awaiting(cwd, word.pending), home, added);
    }
}

proof fn lemma_plain_lines(s: Seq<char>, x: Seq<char>, i: int)
    requires
        ends_plain(s, x),
        0 <= i <= x.len(),
    ensures
        skip_lines(x, i) == skip_blanks(x, i),
        skip_blanks(x, i) < x.len() ==> skip_lines(s, i) == skip_blanks(x, i),
        skip_blanks(x, i) == x.len() ==> skip_lines(s, i) == skip_lines(s, x.len() as int),
    decreases x.len() - i,
{
    if i < x.len() {
        assert(is_plain_char(s[i]));
        assert(x[i] == s[i]);
        lemma_plain_lines(s, x, i + 1);
    }
}

/// What may stand between two commands.
pub open spec fn is_separator(sep: Seq<char>) -> bool {
    sep == ";"@ || sep == "\n"@ || sep == "&&"@ || sep == "||"@ || sep == "|"@ || sep == "&"@
}

pub proof fn lemma_separator_chars(sep: Seq<char>)
    requires
        is_separator(sep),
    ensures
        sep == seq![';'] || sep == seq!['\n'] || sep == seq!['&', '&'] || sep == seq!['|', '|']
            || sep == seq!['|'] || sep == seq!['&'],
{
    reveal_strlit(";");
    reveal_strlit("\n");
    reveal_strlit("&&");
    reveal_strlit("||");
    reveal_strlit("|");
    reveal_strlit("&");
    if sep == ";"@ {
        assert(sep =~= seq![';']);
    } else if sep == "\n"@ {
        assert(sep =~= seq!['\n']);
    } else if sep == "&&"@ {
        assert(sep =~= seq!['&', '&']);
    } else if sep == "||"@ {
        assert(sep =~= seq!['|', '|']);
    } else if sep == "|"@ {
        assert(sep =~= seq!['|']);
    } else {
        assert(sep =~= seq!['&']);
    }
}

pub proof fn lemma_until_here(s: Seq<char>, n: int, cwd: Place, home: Seq<char>)
    requires
        0 <= n <= s.len(),
    ensures
        list_until(s, n, cwd, home, n) == Some(Scan { end: n, cwd, found: Seq::empty() }),
{
    lemma_skips(s, n);
}

proof fn lemma_plain_separated(
    x: Seq<char>,
    sep: Seq<char>,
    y: Seq<char>,
    cwd: Place,
    home: Seq<char>,
)
    requires
        cwd.pending.len() == 0,
        is_plain(x),
        is_separator(sep),
        sep.len() == 1 ==> !doubles(sep, y),
    ensures
        list_until(x + sep + y, 0, cwd, home, (x + sep).len() as int) == Some(
            Scan {
                end: (x + sep).len() as int,
                cwd: list_at(x, 0, cwd, home, false).cwd,
                found: list_at(x, 0, cwd, home, false).found,
            },
        ),
{
    let s = x + sep + y;
    let m = x.len() as int;
    let n = (x + sep).len() as int;
    lemma_separator_chars(sep);
    assert(s[m] == sep[0]);
    assert(sep.len() == 2 ==> s[m + 1] == sep[1]);
    assert(y.len() > 0 ==> s[n] == y[0]);
    assert forall|i: int| 0 <= i < x.len() implies is_plain_char(#[trigger] s[i]) && s[i]
        == x[i] by {
        assert(is_plain_char(x[i]));
    }
    assert(ends_plain(s, x));
    lemma_plain_lines(s, x, 0);
    lemma_plain_skip(s, x, 0);
    lemma_skips(s, 0);
    lemma_skips(s, n);
    lemma_skips(x, 0);
    let p = skip_blanks(x, 0);
    if p < m {
        assert(is_plain_char(x[p]));
        assert(s[p] == x[p]);
        assert(skip_blanks(s, p) == p);
        assert(skip_blanks(x, p) == p);
        lemma_plain_parts(s, x, p, cwd, home, no_parts(p));
        assert(s.subrange(p, m) =~= x.subrange(p, m));
        let one = command_at(s, p, cwd, home);
        assert(one == command_at(x, p, cwd, home));
        assert(one.end == m);
        assert(skip_blanks(s, m) == m);
        assert(one.cwd.pending.len() == 0);
        assert(next_command(s, p, m, false) == n);
        lemma_until_here(s, n, one.cwd, home);
        assert(one.found + Seq::<CommandView>::empty() =~= one.found);
        assert(skip_blanks(x, m) == m);
        assert(skip_lines(x, m) == m);
        assert(list_at(x, m, one.cwd, home, false).found == Seq::<CommandView>::empty());
        assert(list_at(x, 0, cwd, home, false).found =~= one.found);
    } else {
        assert(list_at(x, 0, cwd, home, false).found == Seq::<CommandView>::empty());
        lemma_until_here(s, n, cwd, home);
        if sep[0] == '\n' {
            assert(skip_lines(s, m) == skip_lines(s, n));
        } else {
            assert(skip_lines(s, m) == m);
            if sep[0] != ';' {
                assert(skip_blanks(s, m) == m);
                let one = command_at(s, m, cwd, home);
                assert(cwd.pending =~= no_parts(m).pending);
                assert(parts_at(s, m, cwd, home, no_parts(m)) == no_parts(m));
                assert(strip_assignments(Seq::empty(), false).words.len() == 0);
                assert(one.end == m && one.cwd == cwd);
                assert(one.found =~= Seq::<CommandView>::empty());
                assert(next_command(s, m, m, false) == n);
                assert(one.found + Seq::<CommandView>::empty() =~= Seq::<CommandView>::empty());
            }
        }
    }
}

/// A plain text holds nothing that a line continuation could be.
pub proof fn plain_texts_without_breaks(x: Seq<char>)
    requires
        is_plain(x),
    ensures
        continued(x) == x,
{
    assert forall|i: int| 0 <= i < x.len() implies #[trigger] x[i] != '\n' by {
        assert(is_plain_char(x[i]));
    }
    lemma_no_newline_stays(x);
}

/// The first position at or after `i` that holds a blank.
pub open spec fn skip_word(x: Seq<char>, i: int) -> int
    decreases x.len() - i,
{
    if 0 <= i < x.len() && !is_blank(x[i]) {
        skip_word(x, i + 1)
    } else {
        i
    }
}

/// The words of a plain text from `i` on: what stands between blanks.
pub open spec fn words_from(x: Seq<char>, i: int) -> Seq<Seq<char>>
    decreases x.len() - i,
{
    let p = skip_blanks(x, i);
    let e = skip_word(x, p);
    if 0 <= i <= p < e <= x.len() {
        seq![x.subrange(p, e)] + words_from(x, e)
    } else {
        Seq::empty()
    }
}

/// The parts of a plain text: its words.
pub open spec fn plain_parts(x: Seq<char>) -> Parts {
    Parts { end: x.len() as int, words: words_from(x, 0), ..no_parts(0) }
}

/// Whether a plain text is a change of directory: what it runs is `cd`.
pub open spec fn changes_directory(x: Seq<char>) -> bool {
    let kept = strip_assignments(words_from(x, 0), false);
    kept.words.len() > 0 && kept.words[0] == "cd"@
}

proof fn lemma_skip_word(x: Seq<char>, i: int)
    requires
        0 <= i <= x.len(),
    ensures
        i <= skip_word(x, i) <= x.len(),
        i < x.len() && !is_blank(x[i]) ==> i < skip_word(x, i),
        forall|k: int| i <= k < skip_word(x, i) ==> !is_blank(#[trigger] x[k]),
        skip_word(x, i) < x.len() ==> is_blank(x[skip_word(x, i)]),
    decreases x.len() - i,
{
    if i < x.len() {
        lemma_skip_word(x, i + 1);
    }
}

proof fn lemma_plain_words(x: Seq<char>, i: int, cwd: Place, home: Seq<char>, acc: Parts)
    requires
        is_plain(x),
        0 <= i <= x.len(),
    ensures
        parts_at(x, i, cwd, home, acc) == (Parts {
            end: x.len() as int,
            words: acc.words + words_from(x, i),
            pending: cwd.pending,
            ..acc
        }),
    decreases x.len() - i,
{
    assert(ends_plain(x, x));
    lemma_plain_skip(x, x, i);
    let p = skip_blanks(x, i);
    lemma_skip_word(x, p);
    let none = Seq::<CommandView>::empty();
    if p < x.len() {
        let e = skip_word(x, p);
        assert(is_plain_char(x[p]));
        assert forall|k: int| p <= k < e implies is_plain_char(#[trigger] x[k]) && !is_blank(
            x[k],
        ) by {
            assert(!is_blank(x[k]));
        }
        lemma_plain_run(x, p, e, cwd, home);
        let word = word_at(x, p, cwd, home);
        assert(!is_fd_prefix(x, word));
        let added = Parts { words: acc.words.push(word.text), found: acc.found + none, ..acc };
        assert(acc.found + none =~= acc.found);
        lemma_plain_words(x, e, cwd, home, added);
        assert(acc.words.push(word.text) + words_from(x, e) =~= acc.words + (seq![word.text]
            + words_from(x, e)));
    } else {
        assert(acc.words + words_from(x, i) =~= acc.words);
    }
}

/// A plain text is at most one command: what its words amount to.
pub proof fn plain_texts_are_single_commands(x: Seq<char>, cwd: Place, home: Seq<char>)
    requires
        cwd.pending.len() == 0,
        is_plain(x),
    ensures
        ({
            let one = simple_command(x, skip_blanks(x, 0), plain_parts(x), cwd, home);
            &&& commands_from(x, cwd, home) == one.found
            &&& list_at(x, 0, cwd, home, false).found == one.found
            &&& list_at(x, 0, cwd, home, false).cwd == one.cwd
            &&& one.found.len() <= 1
        }),
{
    let m = x.len() as int;
    plain_texts_without_breaks(x);
    assert(ends_plain(x, x));
    lemma_plain_lines(x, x, 0);
    lemma_plain_skip(x, x, 0);
    lemma_skips(x, 0);
    let p = skip_blanks(x, 0);
    assert(skip_blanks(x, p) == p);
    lemma_skip_word(x, p);
    let one = simple_command(x, p, plain_parts(x), cwd, home);
    let none = Seq::<CommandView>::empty();
    assert(cwd.pending =~= plain_parts(x).pending);
    if p < m {
        assert(is_plain_char(x[p]));
        lemma_plain_words(x, p, cwd, home, no_parts(p));
        assert(words_from(x, p) == words_from(x, 0));
        assert(no_parts(p).words + words_from(x, p) =~= words_from(x, 0));
        assert(parts_at(x, p, cwd, home, no_parts(p)) == plain_parts(x));
        assert(command_at(x, p, cwd, home) == one);
        assert(skip_blanks(x, m) == m);
        let rest = list_at(x, m, one.cwd, home, false);
        assert(rest == (Scan { end: m, cwd: one.cwd, found: none })) by {
            lemma_skips(x, m);
        }
        assert(next_command(x, p, m, one.cwd.pending.len() > 0) == m);
        assert(one.found + none =~= one.found);
    } else {
        assert(words_from(x, 0) =~= Seq::<Seq<char>>::empty());
        assert(strip_assignments(Seq::empty(), false).words.len() == 0);
        assert(one.found =~= none);
    }
}

/// A plain text that is no change of directory leaves the shell where it is, whether or not
/// it lists a command.
pub proof fn plain_texts_keep_the_directory(x: Seq<char>, cwd: Place, home: Seq<char>)
    requires
        cwd.pending.len() == 0,
        is_plain(x),
        !changes_directory(x),
    ensures
        list_at(x, 0, cwd, home, false).cwd == cwd,
{
    plain_texts_are_single_commands(x, cwd, home);
    assert(cwd.pending =~= plain_parts(x).pending);
}

proof fn lemma_leads_elsewhere(words: Seq<Seq<char>>, builtin: bool)
    requires
        forall|i: int| 0 <= i < words.len() ==> !(#[trigger] words[i]).contains('='),
    ensures
        ({
            let kept = strip_assignments(words, builtin);
            kept.words.len() > 0 && kept.words[0] == "cd"@ ==> !builtin && words[0] == "cd"@
        }),
    decreases words.len(),
{
    if words.len() > 0 {
        let w = words[0];
        let rest = words.drop_first();
        assert forall|i: int| 0 <= i < rest.len() implies !(#[trigger] rest[i]).contains('=') by {
            assert(!words[i + 1].contains('='));
        }
        lemma_leads_elsewhere(rest, true);
        lemma_leads_elsewhere(rest, builtin);
        lemma_find_bounds(w, 0, '=');
        assert(find_from(w, 0, '=') == w.len()) by {
            if find_from(w, 0, '=') < w.len() {
                assert(w.contains('='));
            }
        }
        reveal_strlit("cd");
        assert(all_name_chars("cd"@));
    }
}

proof fn lemma_words_are_parts(x: Seq<char>, i: int)
    requires
        !x.contains('='),
    ensures
        forall|k: int|
            0 <= k < words_from(x, i).len() ==> !(#[trigger] words_from(x, i)[k]).contains('='),
    decreases x.len() - i,
{
    let p = skip_blanks(x, i);
    let e = skip_word(x, p);
    if 0 <= i <= p < e <= x.len() {
        lemma_words_are_parts(x, e);
        let all = words_from(x, i);
        assert forall|k: int| 0 <= k < all.len() implies !(#[trigger] all[k]).contains('=') by {
            if k > 0 {
                assert(all[k] == words_from(x, e)[k - 1]);
            } else if all[0].contains('=') {
                let j = choose|j: int| 0 <= j < all[0].len() && all[0][j] == '=';
                assert(x[p + j] == '=');
            }
        }
    }
}

/// A text without `=` whose first word is not `cd` is no change of directory.
pub proof fn only_cd_changes_the_directory(x: Seq<char>)
    requires
        !x.contains('='),
        words_from(x, 0).len() > 0 ==> words_from(x, 0)[0] != "cd"@,
    ensures
        !changes_directory(x),
{
    lemma_words_are_parts(x, 0);
    lemma_leads_elsewhere(words_from(x, 0), false);
    if words_from(x, 0).len() == 0 {
        assert(strip_assignments(words_from(x, 0), false).words.len() == 0);
    }
}

pub proof fn lemma_no_newline_stays(x: Seq<char>)
    requires
        forall|i: int| 0 <= i < x.len() ==> #[trigger] x[i] != '\n',
    ensures
        continued(x) == x,
    decreases x.len(),
{
    reveal_strlit("\\\n");
    let pat = "\\\n"@;
    if x.len() >= 2 {
        assert(x.take(2) != pat) by {
            assert(x.take(2)[1] == x[1]);
        }
        assert forall|i: int| 0 <= i < x.skip(1).len() implies #[trigger] x.skip(1)[i] != '\n' by {
            assert(x.skip(1)[i] == x[i + 1]);
        }
        lemma_no_newline_stays(x.skip(1));
        assert(seq![x[0]] + x.skip(1) =~= x);
    }
}

/// `;`, `&&`, `||`, `|`, `&` and line breaks separate commands: behind a plain command and
/// a separator stands a command line of its own. Its commands follow the plain one, and it
/// is entered in the directory that the plain one leaves.
pub proof fn separators_split_plain_commands(
    x: Seq<char>,
    sep: Seq<char>,
    y: Seq<char>,
    cwd: Place,
    home: Seq<char>,
)
    requires
        cwd.pending.len() == 0,
        is_plain(x),
        is_separator(sep),
        sep.len() == 1 ==> !doubles(sep, continued(y)),
    ensures
        commands_from(x + sep + y, cwd, home) == commands_from(x, cwd, home) + commands_from(
            y,
            list_at(x, 0, cwd, home, false).cwd,
            home,
        ),
{
    let rest = continued(y);
    let t = x + sep;
    let s = t + rest;
    let n = t.len() as int;
    lemma_separator_chars(sep);
    lemma_replaced_splits(t, y);
    assert(continued(t) == t && continued(x) == x) by {
        reveal_strlit("\\\n");
        assert forall|i: int| 0 <= i < x.len() implies #[trigger] x[i] != '\n' by {
            assert(is_plain_char(x[i]));
        }
        lemma_no_newline_stays(x);
        lemma_replaced_splits(x, sep);
        assert(continued(sep) == sep) by {
            if sep.len() == 2 {
                assert forall|i: int| 0 <= i < sep.len() implies #[trigger] sep[i] != '\n' by {}
                lemma_no_newline_stays(sep);
            }
        }
    }
    lemma_plain_separated(x, sep, rest, cwd, home);
    lemma_list_until(s, 0, cwd, home, n);
    assert(alike(s, rest, n, rest.len() as int));
    let dir = list_at(x, 0, cwd, home, false).cwd;
    lemma_local_list(s, rest, n, rest.len() as int, 0, dir, home, false);
}

/// A command line that is split by a separator behind a plain text that is no change of
/// directory lists the commands of the two command lines on both sides of it, one after the
/// other.
pub proof fn separators_split_command_lines(
    x: Seq<char>,
    sep: Seq<char>,
    y: Seq<char>,
    cwd: Seq<char>,
    home: Seq<char>,
)
    requires
        is_plain(x),
        !changes_directory(x),
        is_separator(sep),
        sep.len() == 1 ==> !doubles(sep, continued(y)),
    ensures
        commands_of(x + sep + y, cwd, home) == commands_of(x, cwd, home) + commands_of(
            y,
            cwd,
            home,
        ),
{
    separators_split_plain_commands(x, sep, y, entered(cwd), home);
    plain_texts_keep_the_directory(x, entered(cwd), home);
}

/// A command line that is split by a separator behind plain words, of which none holds `=`
/// and the first is not `cd`, lists the commands of the two command lines on both sides of
/// it, one after the other.
pub proof fn separators_split_behind_words(
    x: Seq<char>,
    sep: Seq<char>,
    y: Seq<char>,
    cwd: Seq<char>,
    home: Seq<char>,
)
    requires
        is_plain(x),
        !x.contains('='),
        words_from(x, 0).len() > 0 ==> words_from(x, 0)[0] != "cd"@,
        is_separator(sep),
        is_plain(y),
    ensures
        commands_of(x + sep + y, cwd, home) == commands_of(x, cwd, home) + commands_of(
            y,
            cwd,
            home,
        ),
{
    only_cd_changes_the_directory(x);
    plain_texts_without_breaks(y);
    lemma_separator_chars(sep);
    if y.len() > 0 {
        assert(is_plain_char(y[0]));
    }
    separators_split_command_lines(x, sep, y, cwd, home);
}

/// Whether a text holds nothing but blanks.
pub open spec fn all_blank(a: Seq<char>) -> bool {
    forall|i: int| 0 <= i < a.len() ==> is_blank(#[trigger] a[i])
}

proof fn lemma_blanks_skipped(s: Seq<char>, i: int, k: int)
    requires
        0 <= i <= k <= s.len(),
        forall|j: int| i <= j < k ==> is_blank(#[trigger] s[j]),
    ensures
        skip_blanks(s, i) == skip_blanks(s, k),
    decreases k - i,
{
    if i < k {
        assert(is_blank(s[i]));
        lemma_blanks_skipped(s, i + 1, k);
    }
}

proof fn lemma_words_edges(a: Seq<char>, x: Seq<char>, b: Seq<char>, i: int)
    requires
        all_blank(b),
        0 <= i <= x.len(),
    ensures
        words_from(a + x + b, a.len() + i) == words_from(x, i),
        skip_blanks(x, i) < x.len() ==> skip_blanks(a + x + b, a.len() + i) == a.len()
            + skip_blanks(x, i),
        skip_blanks(x, i) >= x.len() ==> skip_blanks(a + x + b, a.len() + i) == (a + x + b).len(),
    decreases x.len() - i,
{
    let s = a + x + b;
    let k = a.len() as int;
    let p = skip_blanks(x, i);
    lemma_skips(x, i);
    assert forall|j: int| i <= j < p implies is_blank(#[trigger] x[j]) by {
        lemma_blanks_before(x, i, j);
    }
    if p < x.len() {
        assert forall|j: int| k + i <= j < k + p implies is_blank(#[trigger] s[j]) by {
            assert(s[j] == x[j - k]);
        }
        lemma_blanks_skipped(s, k + i, k + p);
        assert(s[k + p] == x[p]);
        assert(skip_blanks(s, k + p) == k + p);
        lemma_skip_word(x, p);
        let e = skip_word(x, p);
        lemma_word_edges(a, x, b, p);
        assert(s.subrange(k + p, k + e) =~= x.subrange(p, e));
        lemma_words_edges(a, x, b, e);
    } else {
        assert forall|j: int| k + i <= j < s.len() implies is_blank(#[trigger] s[j]) by {
            if j < k + x.len() {
                assert(s[j] == x[j - k]);
            } else {
                assert(s[j] == b[j - k - x.len()]);
            }
        }
        lemma_blanks_skipped(s, k + i, s.len() as int);
    }
}

proof fn lemma_blanks_before(x: Seq<char>, i: int, j: int)
    requires
        0 <= i <= j < skip_blanks(x, i),
        i <= x.len(),
    ensures
        is_blank(x[j]),
    decreases j - i,
{
    lemma_skips(x, i);
    if i < j {
        lemma_blanks_before(x, i + 1, j);
    }
}

proof fn lemma_word_edges(a: Seq<char>, x: Seq<char>, b: Seq<char>, i: int)
    requires
        all_blank(b),
        0 <= i <= x.len(),
    ensures
        skip_word(a + x + b, a.len() + i) == a.len() + skip_word(x, i),
    decreases x.len() - i,
{
    let s = a + x + b;
    if i < x.len() {
        assert(s[a.len() + i] == x[i]);
        lemma_word_edges(a, x, b, i + 1);
    } else if b.len() > 0 {
        assert(s[a.len() + i] == b[0]);
    }
}

proof fn lemma_trim_tail(s: Seq<char>, b: Seq<char>, p: spec_fn(char) -> bool)
    requires
        forall|i: int| 0 <= i < b.len() ==> p(#[trigger] b[i]),
    ensures
        trim_back(trim_front(s + b, p), p) == trim_back(trim_front(s, p), p),
    decreases s.len(),
{
    if s.len() == 0 {
        assert(s + b =~= b);
        lemma_trim_all(b, p);
    } else if p(s[0]) {
        assert((s + b).drop_first() =~= s.drop_first() + b);
        lemma_trim_tail(s.drop_first(), b, p);
    } else {
        lemma_trim_end(s, b, p);
    }
}

proof fn lemma_trim_all(b: Seq<char>, p: spec_fn(char) -> bool)
    requires
        forall|i: int| 0 <= i < b.len() ==> p(#[trigger] b[i]),
    ensures
        trim_front(b, p) == Seq::<char>::empty(),
    decreases b.len(),
{
    if b.len() > 0 {
        assert forall|i: int| 0 <= i < b.drop_first().len() implies p(
            #[trigger] b.drop_first()[i],
        ) by {
            assert(p(b[i + 1]));
        }
        assert(p(b[0]));
        lemma_trim_all(b.drop_first(), p);
    } else {
        assert(b =~= Seq::<char>::empty());
    }
}

proof fn lemma_trim_end(s: Seq<char>, b: Seq<char>, p: spec_fn(char) -> bool)
    requires
        forall|i: int| 0 <= i < b.len() ==> p(#[trigger] b[i]),
    ensures
        trim_back(s + b, p) == trim_back(s, p),
    decreases b.len(),
{
    if b.len() > 0 {
        assert((s + b).last() == b[b.len() - 1]);
        assert((s + b).drop_last() =~= s + b.drop_last());
        assert forall|i: int| 0 <= i < b.drop_last().len() implies p(
            #[trigger] b.drop_last()[i],
        ) by {
            assert(p(b[i]));
        }
        lemma_trim_end(s, b.drop_last(), p);
    } else {
        assert(s + b =~= s);
    }
}

/// Blanks in front of a plain text and behind it change nothing.
pub proof fn edge_blanks_change_nothing(
    a: Seq<char>,
    x: Seq<char>,
    b: Seq<char>,
    cwd: Place,
    home: Seq<char>,
)
    requires
        cwd.pending.len() == 0,
        is_plain(x),
        all_blank(a),
        all_blank(b),
    ensures
        is_plain(a + x + b),
        words_from(a + x + b, 0) == words_from(x, 0),
        commands_from(a + x + b, cwd, home) == commands_from(x, cwd, home),
        list_at(a + x + b, 0, cwd, home, false).cwd == list_at(x, 0, cwd, home, false).cwd,
{
    let s = a + x + b;
    let k = a.len() as int;
    assert forall|i: int| 0 <= i < s.len() implies is_plain_char(#[trigger] s[i]) by {
        if i < k {
            assert(s[i] == a[i]);
        } else if i < k + x.len() {
            assert(s[i] == x[i - k]);
        } else {
            assert(s[i] == b[i - k - x.len()]);
        }
    }
    if s.len() > 0 {
        if b.len() > 0 {
            assert(s.last() == b[b.len() - 1]);
        } else if x.len() > 0 {
            assert(s.last() == x.last());
        } else {
            assert(s.last() == a[k - 1]);
        }
    }
    assert forall|j: int| 0 <= j < k implies is_blank(#[trigger] s[j]) by {
        assert(s[j] == a[j]);
    }
    lemma_blanks_skipped(s, 0, k);
    lemma_words_edges(a, x, b, 0);
    lemma_skips(s, 0);
    lemma_skips(s, k);
    lemma_skips(x, 0);
    assert(words_from(s, 0) == words_from(s, k));
    plain_texts_are_single_commands(s, cwd, home);
    plain_texts_are_single_commands(x, cwd, home);
    let p = skip_blanks(x, 0);
    let m = x.len() as int;
    if p < m {
        let body = x.subrange(p, m);
        assert(s.subrange(k + p, s.len() as int) =~= body + b);
        let white = |c: char| is_whitespace(c);
        assert forall|i: int| 0 <= i < b.len() implies white(#[trigger] b[i]) by {
            assert(is_blank(b[i]));
        }
        lemma_trim_tail(body, b, white);
        assert(trimmed(body + b) == trimmed(body));
    } else {
        assert(words_from(x, 0) =~= Seq::<Seq<char>>::empty());
        assert(strip_assignments(Seq::empty(), false).words.len() == 0);
        assert(strip_assignments(Seq::empty(), false).env_vars.len() == 0);
    }
}

proof fn lemma_plain_run(x: Seq<char>, i: int, e: int, cwd: Place, home: Seq<char>)
    requires
        0 <= i <= e <= x.len(),
        forall|k: int| i <= k < e ==> is_plain_char(#[trigger] x[k]) && !is_blank(x[k]),
        e < x.len() ==> is_blank(x[e]),
    ensures
        word_at(x, i, cwd, home) == (Word {
            end: e,
            text: x.subrange(i, e),
            pending: cwd.pending,
            found: Seq::empty(),
        }),
    decreases e - i,
{
    if i < e {
        assert(is_plain_char(x[i]));
        if i + 1 < e {
            assert(is_plain_char(x[i + 1]));
        }
        assert(!opens_substitution(x, i));
        lemma_plain_run(x, i + 1, e, cwd, home);
        assert(!ends_word(x[i]));
        assert(piece_at(x, i, cwd, home) == (Word {
            end: i + 1,
            text: seq![x[i]],
            pending: cwd.pending,
            found: Seq::empty(),
        }));
        assert(seq![x[i]] + x.subrange(i + 1, e) =~= x.subrange(i, e));
        assert(Seq::<CommandView>::empty() + Seq::<CommandView>::empty() =~= Seq::<
            CommandView,
        >::empty());
    } else {
        assert(x.subrange(i, e) =~= Seq::<char>::empty());
    }
}

/// A plain word: plain characters without blanks.
pub open spec fn is_plain_word(w: Seq<char>) -> bool {
    &&& w.len() > 0
    &&& is_plain(w)
    &&& forall|i: int| 0 <= i < w.len() ==> !is_blank(#[trigger] w[i])
}

proof fn lemma_two_words(a: Seq<char>, b: Seq<char>, cwd: Place, home: Seq<char>)
    requires
        is_plain_word(a),
        is_plain_word(b),
        cwd.pending.len() == 0,
    ensures
        ({
            let x = a + " "@ + b;
            let parts = Parts { words: seq![a, b], end: x.len() as int, ..no_parts(0) };
            let one = simple_command(x, 0, parts, cwd, home);
            &&& is_plain(x)
            &&& list_at(x, 0, cwd, home, false) == one
            &&& commands_from(x, cwd, home) == one.found
        }),
{
    reveal_strlit(" ");
    let x = a + " "@ + b;
    let k = a.len() as int;
    let m = x.len() as int;
    assert(x[k] == ' ');
    assert forall|i: int| 0 <= i < k implies is_plain_char(#[trigger] x[i]) && !is_blank(x[i]) by {
        assert(x[i] == a[i]);
        assert(is_plain_char(a[i]));
    }
    assert forall|i: int| k < i < m implies is_plain_char(#[trigger] x[i]) && !is_blank(x[i]) by {
        assert(x[i] == b[i - k - 1]);
        assert(is_plain_char(b[i - k - 1]));
    }
    assert(x.last() == b.last());
    assert(is_plain(x));
    plain_texts_are_single_commands(x, cwd, home);
    lemma_plain_run(x, 0, k, cwd, home);
    lemma_plain_run(x, k + 1, m, cwd, home);
    assert(x.subrange(0, k) =~= a);
    assert(x.subrange(k + 1, m) =~= b);
    assert(is_plain_char(x[0]) && !is_blank(x[0]));
    assert(is_plain_char(x[k + 1]) && !is_blank(x[k + 1]));
    assert(skip_blanks(x, 0) == 0 && skip_lines(x, 0) == 0);
    assert(skip_blanks(x, k + 1) == k + 1);
    assert(skip_blanks(x, k) == k + 1);
    assert(skip_blanks(x, m) == m && skip_lines(x, m) == m);
    let none = Seq::<CommandView>::empty();
    assert(none + none =~= none);
    let first = Parts { words: seq![a], ..no_parts(0) };
    let second = Parts { words: seq![a, b], ..no_parts(0) };
    assert(add_word(Seq::empty(), a) =~= seq![a]);
    assert(add_word(seq![a], b) =~= seq![a, b]);
    assert(!is_fd_prefix(x, word_at(x, 0, cwd, home)));
    assert(!is_fd_prefix(x, word_at(x, k + 1, cwd, home)));
    assert(cwd.pending =~= second.pending);
    assert(parts_at(x, m, cwd, home, second) == (Parts { end: m, ..second }));
    assert(parts_at(x, k, cwd, home, first) == (Parts { end: m, ..second }));
    assert(parts_at(x, 0, cwd, home, no_parts(0)) == (Parts { end: m, ..second }));
    let one = command_at(x, 0, cwd, home);
    assert(one == simple_command(x, 0, Parts { end: m, ..second }, cwd, home));
    assert(one.cwd.pending.len() == 0);
    assert(list_at(x, m, one.cwd, home, false) == (Scan { end: m, cwd: one.cwd, found: none }));
    assert(next_command(x, 0, m, false) == m);
    assert(one.found + none =~= one.found);
}

/// `cd` in front of a separator is not listed; what stands behind the separator is read in
/// the directory that it leads to.
pub proof fn directory_changes_are_followed(
    dir: Seq<char>,
    sep: Seq<char>,
    y: Seq<char>,
    cwd: Seq<char>,
    home: Seq<char>,
)
    requires
        is_plain_word(dir),
        is_separator(sep),
        sep.len() == 1 ==> !doubles(sep, continued(y)),
    ensures
        commands_of("cd "@ + dir + sep + y, cwd, home) == commands_from(
            y,
            Place { moved: true, ..entered(resolved(cwd, dir, home)) },
            home,
        ),
{
    reveal_strlit("cd ");
    reveal_strlit("cd");
    reveal_strlit(" ");
    let start = entered(cwd);
    let there = Place { moved: true, ..entered(resolved(cwd, dir, home)) };
    let x = "cd "@ + dir;
    assert("cd"@ + " "@ =~= "cd "@);
    assert(is_plain_word("cd"@)) by {
        assert("cd"@[0] == 'c' && "cd"@[1] == 'd');
    }
    lemma_two_words("cd"@, dir, start, home);
    separators_split_plain_commands(x, sep, y, start, home);
    lemma_find_bounds("cd"@, 0, '=');
    assert(!is_assignment_builtin("cd"@)) by {
        reveal_strlit("export");
        reveal_strlit("local");
        reveal_strlit("declare");
        reveal_strlit("typeset");
        reveal_strlit("readonly");
    }
    let words = seq!["cd"@, dir];
    assert(strip_assignments(words, false) == (Stripped { words, env_vars: Seq::empty() }));
    assert(words.drop_first() =~= seq![dir]);
    let one = list_at(x, 0, start, home, false);
    assert(one.cwd.pending =~= there.pending);
    assert(one.cwd == there);
    assert(one.found =~= Seq::<CommandView>::empty());
    assert(one.found + commands_from(y, there, home) =~= commands_from(y, there, home));
}

/// Behind a `cd`, a command sees the directory that was followed to, and an argument that
/// is written as a path comes out resolved against it; the directory that relative paths
/// start from comes out as `.`.
pub proof fn paths_behind_a_cd_are_resolved(
    dir: Seq<char>,
    sep: Seq<char>,
    name: Seq<char>,
    path: Seq<char>,
    cwd: Seq<char>,
    home: Seq<char>,
)
    requires
        is_plain_word(dir),
        is_separator(sep),
        is_plain_word(name),
        name[0] != '-',
        find_from(name, 0, '=') == name.len(),
        !is_assignment_builtin(name),
        name != "cd"@,
        is_plain_word(path),
        is_path_argument(path),
    ensures
        ({
            let there = resolved(cwd, dir, home);
            let found = commands_of("cd "@ + dir + sep + (name + " "@ + path), cwd, home);
            &&& found.len() == 1
            &&& found[0].program == name
            &&& found[0].args.len() == 1
            &&& found[0].args[0] == if resolved(there, path, home).len() > 0 {
                resolved(there, path, home)
            } else {
                seq!['.']
            }
            &&& found[0].written == seq![path]
            &&& found[0].effective_cwd == there
            &&& found[0].moved
        }),
{
    let y = name + " "@ + path;
    let there = Place { moved: true, ..entered(resolved(cwd, dir, home)) };
    lemma_two_words(name, path, there, home);
    assert(y[0] == name[0]);
    assert(is_plain_char(y[0]));
    assert forall|i: int| 0 <= i < y.len() implies #[trigger] y[i] != '\n' by {
        assert(is_plain_char(y[i]));
    }
    lemma_no_newline_stays(y);
    lemma_separator_chars(sep);
    directory_changes_are_followed(dir, sep, y, cwd, home);
    let words = seq![name, path];
    assert(strip_assignments(words, false) == (Stripped { words, env_vars: Seq::empty() }));
    assert(words.drop_first() =~= seq![path]);
    assert(arguments(there, seq![path], home) =~= seq![argument(there, path, home)]);
}

/// A directory change inside a subshell does not reach out of it; one inside a command
/// group does.
pub proof fn subshells_keep_the_directory(
    s: Seq<char>,
    pos: int,
    cwd: Place,
    home: Seq<char>,
)
    requires
        0 <= pos <= s.len(),
        skip_blanks(s, pos) < s.len(),
    ensures
        ({
            let p = skip_blanks(s, pos);
            let body = list_at(s, p + 1, cwd, home, true);
            let whole = command_at(s, pos, cwd, home);
            &&& s[p] == '(' ==> whole.cwd.dir == cwd.dir && whole.cwd.moved == cwd.moved
                && whole.found == body.found
            &&& s[p] == '{' ==> whole.cwd == body.cwd && whole.found == body.found
        }),
{
    lemma_skips(s, pos);
}

/// The commands of a substitution are among those of the word that it stands in, quoted or
/// not. They run in the directory of the word, and change it for nothing behind it;
/// here-documents that they leave open stay open.
pub proof fn substitutions_are_decomposed(
    s: Seq<char>,
    pos: int,
    cwd: Place,
    home: Seq<char>,
)
    requires
        0 <= pos < s.len(),
    ensures
        opens_substitution(s, pos) ==> piece_at(s, pos, cwd, home).found == list_at(
            s,
            pos + 2,
            cwd,
            home,
            true,
        ).found,
        opens_substitution(s, pos) ==> piece_at(s, pos, cwd, home).pending == list_at(
            s,
            pos + 2,
            cwd,
            home,
            true,
        ).cwd.pending,
        s[pos] == '`' ==> piece_at(s, pos, cwd, home).found == backtick_at(
            s,
            pos + 1,
            cwd,
            home,
        ).found,
        s[pos] == '`' ==> piece_at(s, pos, cwd, home).pending == backtick_at(
            s,
            pos + 1,
            cwd,
            home,
        ).cwd.pending,
        opens_substitution(s, pos) ==> list_at(
            s,
            pos + 2,
            cwd,
            home,
            true,
        ).found.is_prefix_of(quoted_at(s, pos, cwd, home).found),
{
    if opens_substitution(s, pos) {
        lemma_list_bounds(s, pos + 2, cwd, home, true);
        let body = list_at(s, pos + 2, cwd, home, true);
        let rest = quoted_at(
            s,
            past(s, body.end, ')'),
            awaiting(cwd, body.cwd.pending),
            home,
        );
        assert(quoted_at(s, pos, cwd, home).found == body.found + rest.found);
    }
}

proof fn lemma_find_first(s: Seq<char>, i: int, j: int, c: char)
    requires
        0 <= i <= j < s.len(),
        s[j] == c,
        forall|k: int| i <= k < j ==> s[k] != c,
    ensures
        find_from(s, i, c) == j,
    decreases j - i,
{
    if i < j {
        lemma_find_first(s, i + 1, j, c);
    }
}

/// Between single quotes everything is text.
pub proof fn single_quotes_are_literal(
    s: Seq<char>,
    i: int,
    j: int,
    cwd: Place,
    home: Seq<char>,
)
    requires
        0 <= i < j < s.len(),
        s[i] == '\'',
        s[j] == '\'',
        forall|k: int| i < k < j ==> s[k] != '\'',
    ensures
        piece_at(s, i, cwd, home) == (Word {
            end: j + 1,
            text: s.subrange(i + 1, j),
            pending: cwd.pending,
            found: Seq::empty(),
        }),
{
    lemma_find_first(s, i + 1, j, '\'');
}

proof fn lemma_quoted_literal(
    s: Seq<char>,
    i: int,
    j: int,
    cwd: Place,
    home: Seq<char>,
)
    requires
        0 <= i <= j < s.len(),
        s[j] == '"',
        forall|k: int| i <= k < j ==> s[k] != '"' && s[k] != '`' && !opens_substitution(s, k),
    ensures
        quoted_at(s, i, cwd, home) == (Word {
            end: j + 1,
            text: s.subrange(i, j),
            pending: cwd.pending,
            found: Seq::empty(),
        }),
    decreases j - i,
{
    if i < j {
        lemma_quoted_literal(s, i + 1, j, cwd, home);
        assert(seq![s[i]] + s.subrange(i + 1, j) =~= s.subrange(i, j));
        assert(Seq::<CommandView>::empty() + Seq::<CommandView>::empty() =~= Seq::<
            CommandView,
        >::empty());
    } else {
        assert(s.subrange(i, j) =~= Seq::empty());
    }
}

/// Between double quotes everything but substitutions is text.
pub proof fn double_quotes_are_literal(
    s: Seq<char>,
    i: int,
    j: int,
    cwd: Place,
    home: Seq<char>,
)
    requires
        0 <= i < j < s.len(),
        s[i] == '"',
        s[j] == '"',
        forall|k: int| i < k < j ==> s[k] != '"' && s[k] != '`' && !opens_substitution(s, k),
    ensures
        piece_at(s, i, cwd, home) == (Word {
            end: j + 1,
            text: s.subrange(i + 1, j),
            pending: cwd.pending,
            found: Seq::empty(),
        }),
{
    lemma_quoted_literal(s, i + 1, j, cwd, home);
}

/// A here-document leaves the line that opens it as it is: what stands behind its delimiter
/// is read on, and its body begins on the next line.
pub proof fn heredocs_keep_their_line(
    s: Seq<char>,
    pos: int,
    cwd: Place,
    home: Seq<char>,
    acc: Parts,
)
    requires
        0 <= pos <= s.len(),
        char_at(s, skip_blanks(s, pos), '<'),
        char_at(s, skip_blanks(s, pos) + 1, '<'),
        !char_at(s, skip_blanks(s, pos) + 2, '<'),
    ensures
        ({
            let delimiter = opening_at(s, skip_blanks(s, pos) + 2, cwd, home);
            parts_at(s, pos, cwd, home, acc) == parts_at(
                s,
                delimiter.end,
                awaiting(cwd, delimiter.pending.push(delimiter.text)),
                home,
                Parts { found: acc.found + delimiter.found, ..acc },
            )
        }),
{
    lemma_skips(s, pos);
    lemma_opening_bounds(s, skip_blanks(s, pos) + 2, cwd, home);
}

/// The body of a here-document is inert: the commands of a list that goes on behind bodies
/// are those of what stands behind the bodies, whatever the bodies hold.
pub proof fn heredoc_bodies_are_inert(
    bodies: Seq<char>,
    y: Seq<char>,
    cwd: Place,
    home: Seq<char>,
)
    requires
        cwd.pending.len() > 0,
        bodies_end("\n"@ + bodies + y, 1, cwd.pending) == 1 + bodies.len(),
    ensures
        list_at("\n"@ + bodies + y, 0, cwd, home, false).found == list_at(
            y,
            0,
            on_new_line(cwd),
            home,
            false,
        ).found,
{
    reveal_strlit("\n");
    let s = "\n"@ + bodies + y;
    let n = 1 + bodies.len() as int;
    assert(s[0] == '\n');
    assert(lead(s, 0, cwd) == 0);
    assert(alike(s, y, n, y.len() as int));
    lemma_local_list(s, y, n, y.len() as int, 0, on_new_line(cwd), home, false);
}

/// An assignment in front of a command is taken off and kept aside. So is a builtin that
/// assigns, with the flags and names behind it.
pub proof fn assignments_are_stripped(w: Seq<char>, words: Seq<Seq<char>>, builtin: bool)
    ensures
        ({
            let eq = find_from(w, 0, '=');
            let more = strip_assignments(words, builtin);
            let all = strip_assignments(seq![w] + words, builtin);
            &&& eq < w.len() && all_name_chars(w.take(eq)) && !is_assignment_builtin(w) && !char_at(
                w,
                0,
                '-',
            ) ==> all.words == more.words && all.env_vars == seq![
                w.take(eq) + "="@ + without_placeholders(w.skip(eq + 1)),
            ] + more.env_vars
            &&& is_assignment_builtin(w) ==> all == strip_assignments(words, true)
            &&& builtin && char_at(w, 0, '-') && !is_assignment_builtin(w) ==> all == more
        }),
{
    assert((seq![w] + words).drop_first() =~= words);
}

/// Whether no text is empty.
pub open spec fn all_filled(words: Seq<Seq<char>>) -> bool {
    forall|i: int| 0 <= i < words.len() ==> (#[trigger] words[i]).len() > 0
}

/// Whether each text holds `=`.
pub open spec fn all_assign(vars: Seq<Seq<char>>) -> bool {
    forall|i: int| 0 <= i < vars.len() ==> (#[trigger] vars[i]).contains('=')
}

/// Whether a command is one that is to be evaluated: it has a name, which is neither `cd`
/// nor that of a builtin that assigns, or it is a bare assignment. No argument and no
/// redirection target is empty, and assignments hold `=`.
pub open spec fn is_listed(c: CommandView) -> bool {
    &&& if c.program.len() == 0 {
        c.env_vars.len() > 0 && c.args.len() == 0
    } else {
        c.program != "cd"@ && !is_assignment_builtin(c.program)
    }
    &&& c.args.len() == c.written.len()
    &&& all_filled(c.args) && all_filled(c.written)
    &&& all_filled(c.redirects_in) && all_filled(c.redirects_out)
    &&& all_assign(c.env_vars)
}

/// Whether all of some commands are to be evaluated.
pub open spec fn all_listed(cs: Seq<CommandView>) -> bool {
    forall|i: int| 0 <= i < cs.len() ==> is_listed(#[trigger] cs[i])
}

proof fn lemma_filled_add(words: Seq<Seq<char>>, word: Seq<char>)
    requires
        all_filled(words),
    ensures
        all_filled(add_word(words, word)),
{
    let all = add_word(words, word);
    assert forall|i: int| 0 <= i < all.len() implies (#[trigger] all[i]).len() > 0 by {
        if i < words.len() {
            assert(words[i].len() > 0);
        }
    }
}

proof fn lemma_listed_add(a: Seq<CommandView>, b: Seq<CommandView>)
    requires
        all_listed(a),
        all_listed(b),
    ensures
        all_listed(a + b),
{
    assert forall|i: int| 0 <= i < (a + b).len() implies is_listed(#[trigger] (a + b)[i]) by {
        if i < a.len() {
            assert(is_listed(a[i]));
        } else {
            assert(is_listed(b[i - a.len()]));
        }
    }
}

proof fn lemma_assign_led(entry: Seq<char>, vars: Seq<Seq<char>>)
    requires
        entry.contains('='),
        all_assign(vars),
    ensures
        all_assign(seq![entry] + vars),
{
    let all = seq![entry] + vars;
    assert forall|i: int| 0 <= i < all.len() implies (#[trigger] all[i]).contains('=') by {
        if i > 0 {
            assert(vars[i - 1].contains('='));
        }
    }
}

proof fn lemma_stripped_filled(words: Seq<Seq<char>>, builtin: bool)
    requires
        all_filled(words),
    ensures
        ({
            let kept = strip_assignments(words, builtin);
            &&& all_filled(kept.words)
            &&& all_assign(kept.env_vars)
            &&& kept.words.len() > 0 ==> !is_assignment_builtin(kept.words[0])
        }),
    decreases words.len(),
{
    reveal_strlit("=");
    if words.len() > 0 {
        let w = words[0];
        let eq = find_from(w, 0, '=');
        lemma_find_bounds(w, 0, '=');
        let rest = words.drop_first();
        assert forall|i: int| 0 <= i < rest.len() implies (#[trigger] rest[i]).len() > 0 by {
            assert(words[i + 1].len() > 0);
        }
        lemma_stripped_filled(rest, true);
        lemma_stripped_filled(rest, builtin);
        let more = strip_assignments(rest, builtin).env_vars;
        let entry = w.take(eq) + "="@ + without_placeholders(w.skip(eq + 1));
        assert(entry[eq] == '=');
        assert((w + "="@)[w.len() as int] == '=');
        lemma_assign_led(entry, more);
        lemma_assign_led(w + "="@, more);
    }
}

proof fn lemma_listed_list(s: Seq<char>, pos: int, cwd: Place, home: Seq<char>, inner: bool)
    ensures
        all_listed(list_at(s, pos, cwd, home, inner).found),
    decreases s.len() - pos, 5int,
{
    let p = lead(s, pos, cwd);
    if pos < 0 || p >= s.len() || p < pos {
    } else if s[p] == '\n' {
        let body = bodies_end(s, p + 1, cwd.pending);
        if p < body <= s.len() {
            lemma_listed_list(s, body, on_new_line(cwd), home, inner);
        }
    } else if inner && (s[p] == ')' || s[p] == '}') {
    } else if s[p] == ';' {
        lemma_listed_list(s, p + 1, cwd, home, inner);
    } else {
        lemma_listed_command(s, p, cwd, home);
        let one = command_at(s, p, cwd, home);
        let next = next_command(s, p, skip_blanks(s, one.end), one.cwd.pending.len() > 0);
        if p < next <= s.len() {
            lemma_listed_list(s, next, one.cwd, home, inner);
            lemma_listed_add(one.found, list_at(s, next, one.cwd, home, inner).found);
        }
    }
}

proof fn lemma_listed_command(s: Seq<char>, pos: int, cwd: Place, home: Seq<char>)
    ensures
        all_listed(command_at(s, pos, cwd, home).found),
    decreases s.len() - pos, 4int,
{
    let p = skip_blanks(s, pos);
    if pos < 0 || p >= s.len() || p < pos {
    } else if s[p] == '(' || s[p] == '{' {
        lemma_listed_list(s, p + 1, cwd, home, true);
    } else {
        lemma_listed_parts(s, p, cwd, home, no_parts(p));
        let parts = parts_at(s, p, cwd, home, no_parts(p));
        lemma_stripped_filled(parts.words, false);
        let kept = strip_assignments(parts.words, false);
        let rest = kept.words.drop_first();
        if kept.words.len() > 0 {
            assert(kept.words[0].len() > 0);
            assert forall|i: int| 0 <= i < rest.len() implies (#[trigger] rest[i]).len() > 0 by {
                assert(kept.words[i + 1].len() > 0);
            }
            assert(all_filled(arguments(cwd, rest, home))) by {
                assert forall|i: int| 0 <= i < rest.len() implies (#[trigger] arguments(
                    cwd,
                    rest,
                    home,
                )[i]).len() > 0 by {
                    assert(rest[i].len() > 0);
                }
            }
        }
        let one = simple_command(s, p, parts, cwd, home);
        assert forall|i: int| 0 <= i < one.found.len() implies is_listed(
            #[trigger] one.found[i],
        ) by {
            if i < parts.found.len() {
                assert(is_listed(parts.found[i]));
            }
        }
    }
}

proof fn lemma_listed_parts(s: Seq<char>, pos: int, cwd: Place, home: Seq<char>, acc: Parts)
    requires
        all_listed(acc.found),
        all_filled(acc.words),
        all_filled(acc.redirects_in),
        all_filled(acc.redirects_out),
    ensures
        all_listed(parts_at(s, pos, cwd, home, acc).found),
        all_filled(parts_at(s, pos, cwd, home, acc).words),
        all_filled(parts_at(s, pos, cwd, home, acc).redirects_in),
        all_filled(parts_at(s, pos, cwd, home, acc).redirects_out),
    decreases s.len() - pos, 3int,
{
    let p = skip_blanks(s, pos);
    if pos < 0 || p >= s.len() || p < pos || ends_command(s[p]) {
    } else if s[p] == '<' && char_at(s, p + 1, '<') {
        lemma_listed_opening(s, p + 2, cwd, home);
        let word = opening_at(s, p + 2, cwd, home);
        lemma_listed_add(acc.found, word.found);
        if p < word.end <= s.len() {
            let added = Parts { found: acc.found + word.found, ..acc };
            lemma_listed_parts(s, word.end, awaiting(cwd, opened(s, p + 2, word)), home, added);
        }
    } else if (s[p] == '<' || s[p] == '>') && char_at(s, p + 1, '&') {
        let next = skip_digits(s, p + 2);
        if p < next <= s.len() {
            lemma_listed_parts(s, next, cwd, home, acc);
        }
    } else if s[p] == '<' {
        lemma_listed_target(s, p + 1, cwd, home);
        let target = target_at(s, p + 1, cwd, home);
        lemma_listed_add(acc.found, target.found);
        lemma_filled_add(acc.redirects_in, target.text);
        let added = Parts {
            redirects_in: add_word(acc.redirects_in, target.text),
            found: acc.found + target.found,
            ..acc
        };
        if p < target.end <= s.len() {
            lemma_listed_parts(s, target.end, awaiting(cwd, target.pending), home, added);
        }
    } else if s[p] == '>' {
        lemma_listed_target(s, past(s, p + 1, '>'), cwd, home);
        let target = target_at(s, past(s, p + 1, '>'), cwd, home);
        lemma_listed_add(acc.found, target.found);
        lemma_filled_add(acc.redirects_out, target.text);
        let added = Parts {
            redirects_out: add_word(acc.redirects_out, target.text),
            found: acc.found + target.found,
            ..acc
        };
        if p < target.end <= s.len() {
            lemma_listed_parts(s, target.end, awaiting(cwd, target.pending), home, added);
        }
    } else {
        lemma_listed_word(s, p, cwd, home);
        let word = word_at(s, p, cwd, home);
        lemma_listed_add(acc.found, word.found);
        let added = Parts {
            words: if is_fd_prefix(s, word) {
                acc.words
            } else {
                add_word(acc.words, word.text)
            },
            found: acc.found + word.found,
            ..acc
        };
        lemma_filled_add(acc.words, word.text);
        if p < word.end <= s.len() {
            lemma_listed_parts(s, word.end, awaiting(cwd, word.pending), home, added);
        }
    }
}

proof fn lemma_listed_opening(s: Seq<char>, pos: int, cwd: Place, home: Seq<char>)
    ensures
        all_listed(opening_at(s, pos, cwd, home).found),
    decreases s.len() - pos, 3int,
{
    if char_at(s, pos, '<') || char_at(s, pos, '-') {
        lemma_listed_target(s, pos + 1, cwd, home);
    } else {
        lemma_listed_target(s, pos, cwd, home);
    }
}

proof fn lemma_listed_target(s: Seq<char>, pos: int, cwd: Place, home: Seq<char>)
    ensures
        all_listed(target_at(s, pos, cwd, home).found),
    decreases s.len() - pos, 2int,
{
    let p = skip_blanks(s, pos);
    if 0 <= pos <= p <= s.len() {
        lemma_listed_word(s, p, cwd, home);
    }
}

proof fn lemma_listed_word(s: Seq<char>, pos: int, cwd: Place, home: Seq<char>)
    ensures
        all_listed(word_at(s, pos, cwd, home).found),
    decreases s.len() - pos, 1int,
{
    if 0 <= pos < s.len() && !ends_word(s[pos]) {
        lemma_listed_piece(s, pos, cwd, home);
        let first = piece_at(s, pos, cwd, home);
        if pos < first.end <= s.len() {
            let behind = awaiting(cwd, first.pending);
            lemma_listed_word(s, first.end, behind, home);
            lemma_listed_add(first.found, word_at(s, first.end, behind, home).found);
        }
    }
}

proof fn lemma_listed_piece(s: Seq<char>, pos: int, cwd: Place, home: Seq<char>)
    ensures
        all_listed(piece_at(s, pos, cwd, home).found),
    decreases s.len() - pos, 0int,
{
    if 0 <= pos < s.len() && s[pos] != '\'' {
        if s[pos] == '"' {
            lemma_listed_quoted(s, pos + 1, cwd, home);
        } else if opens_substitution(s, pos) {
            lemma_listed_list(s, pos + 2, cwd, home, true);
        } else if s[pos] == '`' {
            lemma_listed_backtick(s, pos + 1, cwd, home);
        }
    }
}

proof fn lemma_listed_quoted(s: Seq<char>, pos: int, cwd: Place, home: Seq<char>)
    ensures
        all_listed(quoted_at(s, pos, cwd, home).found),
    decreases s.len() - pos, 0int,
{
    if 0 <= pos < s.len() && s[pos] != '"' {
        if opens_substitution(s, pos) {
            lemma_listed_list(s, pos + 2, cwd, home, true);
        } else if s[pos] == '`' {
            lemma_listed_backtick(s, pos + 1, cwd, home);
        }
        let first = quoted_part(s, pos, cwd, home);
        if pos < first.end <= s.len() {
            let behind = awaiting(cwd, first.pending);
            lemma_listed_quoted(s, first.end, behind, home);
            lemma_listed_add(first.found, quoted_at(s, first.end, behind, home).found);
        }
    }
}

proof fn lemma_listed_backtick(s: Seq<char>, pos: int, cwd: Place, home: Seq<char>)
    ensures
        all_listed(backtick_at(s, pos, cwd, home).found),
    decreases s.len() - pos, 5int,
{
    if char_at(s, pos, '\n') && cwd.pending.len() > 0 {
        let body = bodies_end(s, pos + 1, cwd.pending);
        if pos < body <= s.len() {
            lemma_listed_backtick(s, body, on_new_line(cwd), home);
        }
    } else if 0 <= pos < s.len() && s[pos] != '`' {
        if opens_substitution(s, pos) {
            lemma_listed_list(s, pos + 2, cwd, home, true);
        } else {
            lemma_listed_command(s, pos, cwd, home);
        }
        let first = backtick_part(s, pos, cwd, home);
        if pos < first.end <= s.len() {
            lemma_listed_backtick(s, first.end, first.cwd, home);
            lemma_listed_add(first.found, backtick_at(s, first.end, first.cwd, home).found);
        }
    }
}

/// Every command that a command line decomposes into has a name, which is neither `cd` nor
/// that of a builtin that assigns, or is a bare assignment: there is something to evaluate
/// in each, and directory changes are followed and not listed. No argument and no
/// redirection target is empty, and each assignment holds `=`.
pub proof fn commands_are_listed(input: Seq<char>, cwd: Seq<char>, home: Seq<char>)
    ensures
        all_listed(commands_of(input, cwd, home)),
{
    lemma_listed_list(continued(input), 0, entered(cwd), home, false);
}

} // verus!

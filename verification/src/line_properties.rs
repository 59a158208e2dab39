//! How command lines are put together from commands.
use vstd::prelude::*;
use crate::command_properties::{
    all_blanks, assignments_in_front_are_kept_aside, assigns, holds_at, inputs_among, is_apart,
    is_assignment, is_no_assignment, is_over, is_plain_run, is_writable, item_is_writable,
    items_source, lemma_all_items, lemma_holds_both, lemma_items, lemma_target,
    lemma_written_command, outputs_among, parts_of, word_source, word_text, words_among, Item,
    Piece,
};
use crate::shell_grammar::{
    awaiting, bodies_end, char_at, command_at, commands_from, commands_of, continued, ends_command,
    heredoc_end, is_blank, is_fd_prefix, lead, lemma_skips, list_at, next_command, no_parts,
    on_new_line, opening_at, opens_substitution, parts_at, piece_at, quoted_at, simple_command,
    skip_blanks, skip_lines, skip_margin, target_at, word_after, word_at, CommandView, Parts, Place,
    Scan, Word,
};
use crate::shell_properties::{
    alike, doubles, is_plain_char, is_separator, lemma_list_until, lemma_local_list,
    lemma_separator_chars, lemma_until_here,
};
use crate::text::{find_from, lemma_find_bounds, trimmed, unquoted};

verus! {

/// Whether all parts of a command can be written, and there are some.
pub open spec fn all_writable(items: Seq<Item>) -> bool {
    &&& items.len() > 0
    &&& forall|k: int| 0 <= k < items.len() ==> item_is_writable(#[trigger] items[k])
}

/// Where a shell stands behind a command that it entered at a place.
pub open spec fn place_after(items: Seq<Item>, cwd: Place, home: Seq<char>) -> Place {
    list_at(items_source(items), 0, cwd, home, false).cwd
}

proof fn lemma_same_command(
    s: Seq<char>,
    i: int,
    items: Seq<Item>,
    cwd: Place,
    home: Seq<char>,
)
    requires
        cwd.pending.len() == 0,
        all_writable(items),
        holds_at(s, i, items_source(items)),
        is_over(s, i + items_source(items).len()),
    ensures
        ({
            let e = i + items_source(items).len();
            let one = command_at(s, i + 1, cwd, home);
            &&& one.end == e
            &&& one.cwd == place_after(items, cwd, home)
            &&& one.found == commands_from(items_source(items), cwd, home)
            &&& one.cwd.pending == cwd.pending
            &&& skip_lines(s, i) == i + 1
            &&& skip_blanks(s, e) == e
        }),
{
    let x = items_source(items);
    let n = x.len() as int;
    let e = i + n;
    lemma_all_items(s, i, items, cwd, home);
    lemma_written_command(items, cwd, home);
    assert(skip_lines(s, i + 1) == i + 1);
    let here = simple_command(s, i + 1, parts_of(items, e, cwd), cwd, home);
    let there = simple_command(x, 1, parts_of(items, n, cwd), cwd, home);
    let mine = s.subrange(i + 1, e);
    let own = x.subrange(1, n);
    assert forall|k: int| 0 <= k < mine.len() implies mine[k] == own[k] by {
        assert(s[i + (1 + k)] == x[1 + k]);
    }
    assert(mine =~= own);
    assert(here.found == there.found);
    assert(here.cwd == there.cwd);
}

/// `;`, `&&`, `||`, `|`, `&` and line breaks separate commands: behind a command, however it
/// is written, and a separator stands a command line of its own. Its commands follow the
/// command, and it is entered where the command leaves the shell.
pub proof fn separators_split_written_commands(
    items: Seq<Item>,
    sep: Seq<char>,
    y: Seq<char>,
    cwd: Place,
    home: Seq<char>,
)
    requires
        cwd.pending.len() == 0,
        all_writable(items),
        is_separator(sep),
        sep.len() == 1 ==> !doubles(sep, y),
        continued(items_source(items) + sep + y) == items_source(items) + sep + y,
        continued(y) == y,
    ensures
        commands_from(items_source(items) + sep + y, cwd, home) == commands_from(
            items_source(items),
            cwd,
            home,
        ) + commands_from(y, place_after(items, cwd, home), home),
{
    let x = items_source(items);
    let s = x + sep + y;
    let m = x.len() as int;
    let n = (x + sep).len() as int;
    lemma_separator_chars(sep);
    assert(s[m] == sep[0]);
    assert(sep.len() == 2 ==> s[m + 1] == sep[1]);
    assert(y.len() > 0 ==> s[n] == y[0]);
    assert(holds_at(s, 0, x));
    lemma_same_command(s, 0, items, cwd, home);
    lemma_all_items(s, 0, items, cwd, home);
    lemma_skips(s, n);
    let one = command_at(s, 1, cwd, home);
    assert(next_command(s, 1, m, false) == n);
    lemma_until_here(s, n, one.cwd, home);
    assert(one.found + Seq::<CommandView>::empty() =~= one.found);
    lemma_list_until(s, 0, cwd, home, n);
    assert(alike(s, y, n, y.len() as int));
    lemma_local_list(s, y, n, y.len() as int, 0, one.cwd, home, false);
}

/// How a list of commands is written, with separators between them.
pub open spec fn line_source(lines: Seq<Seq<Item>>, seps: Seq<Seq<char>>) -> Seq<char>
    decreases lines.len(),
{
    if lines.len() == 0 {
        Seq::empty()
    } else if lines.len() == 1 {
        items_source(lines[0])
    } else {
        items_source(lines[0]) + seps[0] + line_source(lines.skip(1), seps.skip(1))
    }
}

/// Whether a list of commands can be written.
pub open spec fn line_is_writable(lines: Seq<Seq<Item>>, seps: Seq<Seq<char>>) -> bool {
    &&& lines.len() > 0
    &&& seps.len() == lines.len() - 1
    &&& forall|k: int| 0 <= k < lines.len() ==> all_writable(#[trigger] lines[k])
    &&& forall|k: int| 0 <= k < seps.len() ==> is_separator(#[trigger] seps[k])
}

/// The commands of a list, one after the other, each entered where the one before it leaves
/// the shell.
pub open spec fn line_commands(lines: Seq<Seq<Item>>, cwd: Place, home: Seq<char>) -> Seq<
    CommandView,
>
    decreases lines.len(),
{
    if lines.len() == 0 {
        Seq::empty()
    } else {
        commands_from(items_source(lines[0]), cwd, home) + line_commands(
            lines.skip(1),
            place_after(lines[0], cwd, home),
            home,
        )
    }
}

/// Where a shell stands behind a list of commands.
pub open spec fn place_behind(lines: Seq<Seq<Item>>, cwd: Place, home: Seq<char>) -> Place
    decreases lines.len(),
{
    if lines.len() == 0 {
        cwd
    } else {
        place_behind(lines.skip(1), place_after(lines[0], cwd, home), home)
    }
}

/// Whether a list ends at a position: with the text, or inside a bracket with the bracket.
pub open spec fn list_ends(s: Seq<char>, e: int, inner: bool) -> bool {
    e == s.len() || inner && 0 <= e < s.len() && (s[e] == ')' || s[e] == '}')
}

proof fn lemma_line(
    s: Seq<char>,
    i: int,
    lines: Seq<Seq<Item>>,
    seps: Seq<Seq<char>>,
    cwd: Place,
    home: Seq<char>,
    inner: bool,
)
    requires
        cwd.pending.len() == 0,
        line_is_writable(lines, seps),
        holds_at(s, i, line_source(lines, seps)),
        list_ends(s, i + line_source(lines, seps).len(), inner),
    ensures
        list_at(s, i, cwd, home, inner) == (Scan {
            end: i + line_source(lines, seps).len(),
            cwd: place_behind(lines, cwd, home),
            found: line_commands(lines, cwd, home),
        }),
        place_behind(lines, cwd, home).pending == cwd.pending,
    decreases lines.len(),
{
    let items = lines[0];
    let x = items_source(items);
    let rest = lines.skip(1);
    let m = i + x.len();
    let e = i + line_source(lines, seps).len();
    let none = Seq::<CommandView>::empty();
    assert(all_writable(items));
    if lines.len() == 1 {
        lemma_same_command(s, i, items, cwd, home);
        lemma_all_items(s, i, items, cwd, home);
        let one = command_at(s, i + 1, cwd, home);
        assert(rest.len() == 0);
        assert(line_commands(rest, one.cwd, home) == none);
        assert(place_behind(rest, one.cwd, home) == one.cwd);
        assert(one.found + none =~= one.found);
        if e == s.len() {
            assert(list_at(s, e, one.cwd, home, inner) == (Scan {
                end: e,
                cwd: one.cwd,
                found: none,
            })) by {
                lemma_skips(s, e);
            }
            assert(next_command(s, i + 1, e, false) == e);
        }
    } else {
        let sep = seps[0];
        let more = seps.skip(1);
        assert(is_separator(sep));
        lemma_separator_chars(sep);
        assert forall|k: int| 0 <= k < rest.len() implies all_writable(#[trigger] rest[k]) by {
            assert(rest[k] == lines[k + 1]);
        }
        assert forall|k: int| 0 <= k < more.len() implies is_separator(#[trigger] more[k]) by {
            assert(more[k] == seps[k + 1]);
        }
        let tail = line_source(rest, more);
        lemma_holds_both(s, i, x + sep, tail);
        lemma_holds_both(s, i, x, sep);
        assert(s[m + 0] == sep[0]);
        if sep.len() == 2 {
            assert(s[m + 1] == sep[1]);
        }
        let n = m + sep.len();
        assert(i + (x + sep).len() == n);
        lemma_line_starts(rest, more);
        assert(s[n + 0] == tail[0]);
        lemma_same_command(s, i, items, cwd, home);
        lemma_all_items(s, i, items, cwd, home);
        let one = command_at(s, i + 1, cwd, home);
        assert(next_command(s, i + 1, m, false) == n);
        lemma_line(s, n, rest, more, one.cwd, home, inner);
    }
}

proof fn lemma_line_starts(lines: Seq<Seq<Item>>, seps: Seq<Seq<char>>)
    requires
        line_is_writable(lines, seps),
    ensures
        line_source(lines, seps).len() > 0,
        line_source(lines, seps)[0] == ' ',
{
    assert(all_writable(lines[0]));
    assert(items_source(lines[0])[0] == ' ');
}

/// A list of commands lists the commands of each, in order, each entered where the one
/// before it leaves the shell.
pub proof fn lists_run_in_turn(
    lines: Seq<Seq<Item>>,
    seps: Seq<Seq<char>>,
    cwd: Place,
    home: Seq<char>,
)
    requires
        cwd.pending.len() == 0,
        line_is_writable(lines, seps),
        continued(line_source(lines, seps)) == line_source(lines, seps),
    ensures
        commands_from(line_source(lines, seps), cwd, home) == line_commands(lines, cwd, home),
        !cwd.moved ==> commands_of(line_source(lines, seps), cwd.dir, home) == line_commands(
            lines,
            cwd,
            home,
        ),
{
    assert(cwd.pending =~= Seq::empty());
    lemma_line(line_source(lines, seps), 0, lines, seps, cwd, home, false);
}

proof fn lemma_alone(
    s: Seq<char>,
    cwd: Place,
    there: Place,
    found: Seq<CommandView>,
    home: Seq<char>,
)
    requires
        cwd.pending.len() == 0,
        there.pending.len() == 0,
        s.len() > 0,
        s[0] == '{' || s[0] == '(',
        command_at(s, 0, cwd, home) == (Scan { end: s.len() as int, cwd: there, found }),
    ensures
        list_at(s, 0, cwd, home, false).found == found,
{
    let m = s.len() as int;
    let none = Seq::<CommandView>::empty();
    assert(skip_lines(s, 0) == 0);
    assert(lead(s, 0, cwd) == 0);
    assert(skip_blanks(s, m) == m);
    assert(next_command(s, 0, m, false) == m);
    assert(list_at(s, m, there, home, false) == (Scan { end: m, cwd: there, found: none })) by {
        lemma_skips(s, m);
    }
    assert(found + none =~= found);
}

proof fn lemma_followed(
    s: Seq<char>,
    sep: Seq<char>,
    y: Seq<char>,
    cwd: Place,
    there: Place,
    found: Seq<CommandView>,
    home: Seq<char>,
)
    requires
        cwd.pending.len() == 0,
        there.pending.len() == 0,
        s.len() > 0,
        s[0] == '{' || s[0] == '(',
        is_separator(sep),
        sep.len() == 1 ==> !doubles(sep, y),
        command_at(s + sep + y, 0, cwd, home) == (Scan { end: s.len() as int, cwd: there, found }),
    ensures
        list_at(s + sep + y, 0, cwd, home, false).found == found + list_at(
            y,
            0,
            there,
            home,
            false,
        ).found,
{
    let t = s + sep + y;
    let m = s.len() as int;
    let n = (s + sep).len() as int;
    let none = Seq::<CommandView>::empty();
    lemma_separator_chars(sep);
    assert(t[0] == s[0]);
    assert(t[m] == sep[0]);
    assert(sep.len() == 2 ==> t[m + 1] == sep[1]);
    assert(y.len() > 0 ==> t[n] == y[0]);
    assert(skip_lines(t, 0) == 0);
    assert(lead(t, 0, cwd) == 0);
    assert(skip_blanks(t, m) == m);
    assert(next_command(t, 0, m, false) == n);
    lemma_until_here(t, n, there, home);
    assert(found + none =~= found);
    lemma_list_until(t, 0, cwd, home, n);
    assert(alike(t, y, n, y.len() as int));
    lemma_local_list(t, y, n, y.len() as int, 0, there, home, false);
}

/// A bracket around a list: of a subshell, or of a command group.
pub open spec fn bracketed(body: Seq<char>, group: bool) -> Seq<char> {
    if group {
        seq!['{'] + body + seq!['}']
    } else {
        seq!['('] + body + seq![')']
    }
}

proof fn lemma_bracket(
    t: Seq<char>,
    lines: Seq<Seq<Item>>,
    seps: Seq<Seq<char>>,
    group: bool,
    cwd: Place,
    home: Seq<char>,
)
    requires
        cwd.pending.len() == 0,
        line_is_writable(lines, seps),
        holds_at(t, 0, bracketed(line_source(lines, seps), group)),
    ensures
        command_at(t, 0, cwd, home) == (Scan {
            end: 2int + line_source(lines, seps).len(),
            cwd: if group {
                place_behind(lines, cwd, home)
            } else {
                cwd
            },
            found: line_commands(lines, cwd, home),
        }),
        place_behind(lines, cwd, home).pending.len() == 0,
        t[0] == '{' || t[0] == '(',
{
    let body = line_source(lines, seps);
    let whole = bracketed(body, group);
    let n = body.len() as int;
    assert(t[0int + 0] == whole[0]);
    assert(t[0int + (n + 1)] == whole[n + 1]);
    assert(holds_at(t, 1, body)) by {
        assert forall|k: int| 0 <= k < body.len() implies #[trigger] t[1 + k] == body[k] by {
            assert(t[0int + (1 + k)] == whole[1 + k]);
        }
    }
    lemma_line(t, 1, lines, seps, cwd, home, true);
    assert(awaiting(cwd, cwd.pending) == cwd);
    assert(skip_blanks(t, 0) == 0);
}

/// A subshell lists the commands of its list, and leaves the shell where it was; a command
/// group lists them too, and leaves the shell where its list leaves it. What stands behind a
/// separator goes on from there.
pub proof fn brackets_list_what_they_hold(
    lines: Seq<Seq<Item>>,
    seps: Seq<Seq<char>>,
    group: bool,
    sep: Seq<char>,
    y: Seq<char>,
    cwd: Place,
    home: Seq<char>,
)
    requires
        cwd.pending.len() == 0,
        line_is_writable(lines, seps),
        is_separator(sep),
        sep.len() == 1 ==> !doubles(sep, y),
        continued(y) == y,
        ({
            let s = bracketed(line_source(lines, seps), group);
            continued(s) == s && continued(s + sep + y) == s + sep + y
        }),
    ensures
        ({
            let s = bracketed(line_source(lines, seps), group);
            &&& commands_from(s, cwd, home) == line_commands(lines, cwd, home)
            &&& commands_from(s + sep + y, cwd, home) == line_commands(lines, cwd, home)
                + commands_from(
                y,
                if group {
                    place_behind(lines, cwd, home)
                } else {
                    cwd
                },
                home,
            )
        }),
{
    let s = bracketed(line_source(lines, seps), group);
    let t = s + sep + y;
    let found = line_commands(lines, cwd, home);
    let there = if group { place_behind(lines, cwd, home) } else { cwd };
    assert(holds_at(s, 0, s));
    assert(holds_at(t, 0, s));
    lemma_bracket(s, lines, seps, group, cwd, home);
    lemma_bracket(t, lines, seps, group, cwd, home);
    lemma_alone(s, cwd, there, found, home);
    lemma_followed(s, sep, y, cwd, there, found, home);
}

/// Only `cd` leads the shell anywhere: behind any other command, and behind assignments, it
/// stands where it stood.
pub proof fn other_commands_leave_the_shell_in_place(
    items: Seq<Item>,
    vars: Seq<Seq<char>>,
    name: Seq<char>,
    args: Seq<Seq<char>>,
    cwd: Place,
    home: Seq<char>,
)
    requires
        cwd.pending.len() == 0,
        all_writable(items),
        forall|k: int| 0 <= k < vars.len() ==> is_assignment(#[trigger] vars[k]),
        is_no_assignment(name),
        !assigns(name),
        name != "cd"@,
    ensures
        words_among(items) == vars + (seq![name] + args) ==> place_after(items, cwd, home) == cwd,
        words_among(items) == vars ==> place_after(items, cwd, home) == cwd,
{
    lemma_written_command(items, cwd, home);
    assignments_in_front_are_kept_aside(vars, name, args);
    assert(awaiting(cwd, cwd.pending) == cwd);
}

/// How a word with a substitution is written: plain characters and then `$(` and `)` around
/// a list, with or without double quotes around both.
pub open spec fn substituting(pre: Seq<char>, body: Seq<char>, quoted: bool) -> Seq<char> {
    if quoted {
        seq!['"'] + pre + (seq!['$', '('] + body + seq![')']) + seq!['"']
    } else {
        pre + (seq!['$', '('] + body + seq![')'])
    }
}

/// What a word with a substitution means: `$()` stands for what is substituted, but not in
/// double quotes.
pub open spec fn substituting_text(pre: Seq<char>, quoted: bool) -> Seq<char> {
    if quoted {
        pre
    } else {
        pre + "$()"@
    }
}

proof fn lemma_plain_before(
    s: Seq<char>,
    i: int,
    t: Seq<char>,
    cwd: Place,
    home: Seq<char>,
)
    requires
        is_plain_run(t),
        holds_at(s, i, t),
        !char_at(s, i + t.len(), '('),
    ensures
        ({
            let rest = word_at(s, i + t.len(), cwd, home);
            word_at(s, i, cwd, home) == (Word { text: t + rest.text, ..rest })
        }),
    decreases t.len(),
{
    let rest = word_at(s, i + t.len(), cwd, home);
    if t.len() == 0 {
        assert(t + rest.text =~= rest.text);
    } else {
        let tail = t.skip(1);
        assert(s[i + 0] == t[0]);
        assert(is_plain_char(t[0]) && !is_blank(t[0]));
        assert forall|k: int| 0 <= k < tail.len() implies is_plain_char(#[trigger] tail[k])
            && !is_blank(tail[k]) by {
            assert(tail[k] == t[k + 1]);
        }
        assert forall|k: int| 0 <= k < tail.len() implies #[trigger] s[i + 1 + k] == tail[k] by {
            assert(s[i + (k + 1)] == t[k + 1]);
        }
        lemma_plain_before(s, i + 1, tail, cwd, home);
        if tail.len() > 0 {
            assert(s[i + 1 + 0] == tail[0]);
            assert(is_plain_char(tail[0]));
        }
        assert(!opens_substitution(s, i));
        assert(awaiting(cwd, cwd.pending) == cwd);
        let first = piece_at(s, i, cwd, home);
        assert(first.found + rest.found =~= rest.found);
        assert(seq![t[0]] + (tail + rest.text) =~= t + rest.text);
    }
}

proof fn lemma_quoted_before(
    s: Seq<char>,
    i: int,
    t: Seq<char>,
    cwd: Place,
    home: Seq<char>,
)
    requires
        is_plain_run(t),
        holds_at(s, i, t),
        !char_at(s, i + t.len(), '('),
        i + t.len() < s.len(),
    ensures
        ({
            let rest = quoted_at(s, i + t.len(), cwd, home);
            quoted_at(s, i, cwd, home) == (Word { text: t + rest.text, ..rest })
        }),
    decreases t.len(),
{
    let rest = quoted_at(s, i + t.len(), cwd, home);
    if t.len() == 0 {
        assert(t + rest.text =~= rest.text);
    } else {
        let tail = t.skip(1);
        assert(s[i + 0] == t[0]);
        assert(is_plain_char(t[0]) && !is_blank(t[0]));
        assert forall|k: int| 0 <= k < tail.len() implies is_plain_char(#[trigger] tail[k])
            && !is_blank(tail[k]) by {
            assert(tail[k] == t[k + 1]);
        }
        assert forall|k: int| 0 <= k < tail.len() implies #[trigger] s[i + 1 + k] == tail[k] by {
            assert(s[i + (k + 1)] == t[k + 1]);
        }
        lemma_quoted_before(s, i + 1, tail, cwd, home);
        if tail.len() > 0 {
            assert(s[i + 1 + 0] == tail[0]);
            assert(is_plain_char(tail[0]));
        }
        assert(!opens_substitution(s, i));
        assert(awaiting(cwd, cwd.pending) == cwd);
        assert(Seq::<CommandView>::empty() + rest.found =~= rest.found);
        assert(seq![t[0]] + (tail + rest.text) =~= t + rest.text);
    }
}

proof fn lemma_substituting(
    s: Seq<char>,
    i: int,
    pre: Seq<char>,
    lines: Seq<Seq<Item>>,
    seps: Seq<Seq<char>>,
    quoted: bool,
    cwd: Place,
    home: Seq<char>,
)
    requires
        cwd.pending.len() == 0,
        is_plain_run(pre),
        line_is_writable(lines, seps),
        holds_at(s, i, substituting(pre, line_source(lines, seps), quoted)),
        is_apart(s, i + substituting(pre, line_source(lines, seps), quoted).len()),
    ensures
        word_at(s, i, cwd, home) == (Word {
            end: i + substituting(pre, line_source(lines, seps), quoted).len(),
            text: substituting_text(pre, quoted),
            pending: cwd.pending,
            found: line_commands(lines, cwd, home),
        }),
        !is_blank(s[i]) && !ends_command(s[i]) && s[i] != '<' && s[i] != '>',
{
    let body = line_source(lines, seps);
    let sub = seq!['$', '('] + body + seq![')'];
    let source = substituting(pre, body, quoted);
    let e = i + source.len();
    let found = line_commands(lines, cwd, home);
    let none = Seq::<CommandView>::empty();
    let j = if quoted {
        i + 1 + pre.len()
    } else {
        i + pre.len()
    };
    let n = body.len() as int;
    if quoted {
        lemma_holds_both(s, i, seq!['"'] + pre + sub, seq!['"']);
        lemma_holds_both(s, i, seq!['"'] + pre, sub);
        lemma_holds_both(s, i, seq!['"'], pre);
        assert(s[i + 0] == seq!['"'][0]);
        assert(s[e - 1 + 0] == seq!['"'][0]);
    } else {
        lemma_holds_both(s, i, pre, sub);
    }
    assert(holds_at(s, j, sub));
    assert(s[j + 0] == sub[0] && s[j + 1] == sub[1] && s[j + (n + 2)] == sub[n + 2]);
    lemma_holds_both(s, j, seq!['$', '('] + body, seq![')']);
    lemma_holds_both(s, j, seq!['$', '('], body);
    lemma_line(s, j + 2, lines, seps, cwd, home, true);
    let inside = list_at(s, j + 2, cwd, home, true);
    assert(inside.cwd.pending =~= cwd.pending);
    assert(awaiting(cwd, cwd.pending) == cwd);
    assert(opens_substitution(s, j));
    assert(found + none =~= found);
    assert(none + found =~= found);
    let over = Word { end: e, text: Seq::empty(), pending: cwd.pending, found: none };
    assert(word_at(s, e, cwd, home) == over);
    if quoted {
        lemma_quoted_before(s, i + 1, pre, cwd, home);
        let close = quoted_at(s, e - 1, cwd, home);
        let rest = quoted_at(s, j, cwd, home);
        assert(rest.found =~= found);
        assert(rest.text =~= Seq::<char>::empty());
        assert(pre + rest.text =~= pre);
        let first = piece_at(s, i, cwd, home);
        assert(first == quoted_at(s, i + 1, cwd, home));
        assert(close.end == e);
        assert(rest.end == e);
        assert(first.end == e);
        assert(first.text + Seq::<char>::empty() =~= pre);
        assert(word_at(s, i, cwd, home) == word_after(first, over));
    } else {
        lemma_plain_before(s, i, pre, cwd, home);
        let rest = word_at(s, j, cwd, home);
        let first = piece_at(s, j, cwd, home);
        assert(first.end == e);
        assert(rest == word_after(first, over));
        assert("$()"@ + Seq::<char>::empty() =~= "$()"@);
        assert(rest.text =~= "$()"@);
        assert(rest.found =~= found);
        if pre.len() > 0 {
            assert(s[i + 0] == pre[0]);
            assert(is_plain_char(pre[0]));
        }
    }
}

proof fn lemma_with_substitution(
    front: Seq<Item>,
    pre: Seq<char>,
    lines: Seq<Seq<Item>>,
    seps: Seq<Seq<char>>,
    quoted: bool,
    back: Seq<Item>,
    cwd: Place,
    home: Seq<char>,
)
    requires
        cwd.pending.len() == 0,
        all_writable(front),
        is_plain_run(pre),
        substituting_text(pre, quoted).len() > 0,
        line_is_writable(lines, seps),
        forall|k: int| 0 <= k < back.len() ==> item_is_writable(#[trigger] back[k]),
    ensures
        ({
            let s = items_source(front) + seq![' '] + substituting(
                pre,
                line_source(lines, seps),
                quoted,
            ) + items_source(back);
            let parts = Parts {
                end: s.len() as int,
                words: words_among(front) + seq![substituting_text(pre, quoted)] + words_among(
                    back,
                ),
                redirects_in: inputs_among(front) + inputs_among(back),
                redirects_out: outputs_among(front) + outputs_among(back),
                pending: cwd.pending,
                found: line_commands(lines, cwd, home),
            };
            list_at(s, 0, cwd, home, false).found == simple_command(s, 1, parts, cwd, home).found
        }),
{
    let x = items_source(front);
    let w = substituting(pre, line_source(lines, seps), quoted);
    let z = items_source(back);
    let s = x + seq![' '] + w + z;
    let n = s.len() as int;
    let i = x.len() as int;
    let j = i + 1;
    let e = j + w.len();
    let text = substituting_text(pre, quoted);
    let found = line_commands(lines, cwd, home);
    assert(s[i] == ' ');
    assert(holds_at(s, 0, x));
    assert(holds_at(s, j, w)) by {
        assert forall|k: int| 0 <= k < w.len() implies #[trigger] s[j + k] == w[k] by {}
    }
    assert(holds_at(s, e, z)) by {
        assert forall|k: int| 0 <= k < z.len() implies #[trigger] s[e + k] == z[k] by {}
    }
    if back.len() > 0 {
        assert(z[0] == ' ');
        assert(s[e + 0] == z[0]);
    }
    lemma_first_item(s, front, cwd, home);
    let acc = no_parts(1);
    lemma_items(s, 0, front, cwd, home, acc);
    let one = Parts {
        words: acc.words + words_among(front),
        redirects_in: acc.redirects_in + inputs_among(front),
        redirects_out: acc.redirects_out + outputs_among(front),
        ..acc
    };
    lemma_substituting(s, j, pre, lines, seps, quoted, cwd, home);
    assert(skip_blanks(s, j) == j);
    assert(skip_blanks(s, i) == j);
    let word = word_at(s, j, cwd, home);
    assert(!is_fd_prefix(s, word));
    let two = Parts { words: one.words.push(text), found: one.found + word.found, ..one };
    assert(awaiting(cwd, cwd.pending) == cwd);
    assert(parts_at(s, i, cwd, home, one) == parts_at(s, e, cwd, home, two));
    lemma_items(s, e, back, cwd, home, two);
    assert(skip_blanks(s, n) == n);
    let parts = Parts {
        end: n,
        words: words_among(front) + seq![text] + words_among(back),
        redirects_in: inputs_among(front) + inputs_among(back),
        redirects_out: outputs_among(front) + outputs_among(back),
        pending: cwd.pending,
        found,
    };
    assert(two.words + words_among(back) =~= parts.words);
    assert(two.redirects_in + inputs_among(back) =~= parts.redirects_in);
    assert(two.redirects_out + outputs_among(back) =~= parts.redirects_out);
    assert(two.found =~= found);
    assert(parts_at(s, 0, cwd, home, acc) == parts);
    assert(parts_at(s, 1, cwd, home, acc) == parts);
    let done = simple_command(s, 1, parts, cwd, home);
    assert(command_at(s, 1, cwd, home) == done);
    assert(lead(s, 0, cwd) == 1);
    assert(done.end == n);
    assert(done.cwd.pending == cwd.pending);
    assert(next_command(s, 1, n, false) == n);
    let end = list_at(s, n, done.cwd, home, false);
    assert(end.found == Seq::<CommandView>::empty()) by {
        lemma_skips(s, n);
    }
    assert(done.found + Seq::<CommandView>::empty() =~= done.found);
}

proof fn lemma_first_item(s: Seq<char>, front: Seq<Item>, cwd: Place, home: Seq<char>)
    requires
        all_writable(front),
        holds_at(s, 0, items_source(front)),
        items_source(front).len() < s.len(),
        s[items_source(front).len() as int] == ' ',
    ensures
        skip_blanks(s, 0) == 1,
        skip_blanks(s, 1) == 1,
        skip_lines(s, 0) == 1,
        s[1] != '(' && s[1] != '{' && !ends_command(s[1]) && !is_blank(s[1]),
        1 < items_source(front).len(),
{
    let x = items_source(front);
    assert(holds_at(x, 0, x));
    lemma_all_items(x, 0, front, cwd, home);
    assert(s[0int + 0] == x[0]);
    assert(s[0int + 1] == x[1]);
    assert(skip_lines(s, 1) == 1);
    assert(skip_blanks(s, 1) == 1);
}

/// A command substitution lists the commands of its list, entered where the command stands,
/// in front of the command that it is part of. In the command `$()` stands for what it
/// prints; in double quotes, nothing.
pub proof fn substitutions_are_listed_first(
    front: Seq<Item>,
    pre: Seq<char>,
    lines: Seq<Seq<Item>>,
    seps: Seq<Seq<char>>,
    quoted: bool,
    back: Seq<Item>,
    name: Seq<char>,
    args: Seq<Seq<char>>,
    cwd: Place,
    home: Seq<char>,
)
    requires
        cwd.pending.len() == 0,
        all_writable(front),
        is_plain_run(pre),
        substituting_text(pre, quoted).len() > 0,
        line_is_writable(lines, seps),
        forall|k: int| 0 <= k < back.len() ==> item_is_writable(#[trigger] back[k]),
        ({
            let s = items_source(front) + seq![' '] + substituting(
                pre,
                line_source(lines, seps),
                quoted,
            ) + items_source(back);
            continued(s) == s
        }),
        words_among(front) + seq![substituting_text(pre, quoted)] + words_among(back)
            == seq![name] + args,
        is_no_assignment(name),
        !assigns(name),
        name != "cd"@,
    ensures
        ({
            let s = items_source(front) + seq![' '] + substituting(
                pre,
                line_source(lines, seps),
                quoted,
            ) + items_source(back);
            let inner = line_commands(lines, cwd, home);
            let found = commands_from(s, cwd, home);
            &&& found.len() == inner.len() + 1
            &&& found.take(inner.len() as int) == inner
            &&& found.last().program == name
            &&& found.last().written == args
            &&& !cwd.moved ==> found.last().args == args
            &&& found.last().effective_cwd == cwd.dir
            &&& found.last().moved == cwd.moved
            &&& found.last().redirects_in == inputs_among(front) + inputs_among(back)
            &&& found.last().redirects_out == outputs_among(front) + outputs_among(back)
            &&& found.last().env_vars.len() == 0
        }),
{
    lemma_with_substitution(front, pre, lines, seps, quoted, back, cwd, home);
    let none = Seq::<Seq<char>>::empty();
    assignments_in_front_are_kept_aside(none, name, args);
    assert(none + (seq![name] + args) =~= seq![name] + args);
    assert((seq![name] + args).drop_first() =~= args);
    let s = items_source(front) + seq![' '] + substituting(
        pre,
        line_source(lines, seps),
        quoted,
    ) + items_source(back);
    let inner = line_commands(lines, cwd, home);
    let found = commands_from(s, cwd, home);
    assert(found.take(inner.len() as int) =~= inner);
    if !cwd.moved {
        assert(found.last().args =~= args);
    }
}

/// Lines, each with the line break behind it.
pub open spec fn lines_text(lines: Seq<Seq<char>>) -> Seq<char>
    decreases lines.len(),
{
    if lines.len() == 0 {
        Seq::empty()
    } else {
        lines[0] + seq!['\n'] + lines_text(lines.skip(1))
    }
}

/// Whether lines can stand in a here-document: none of them is the delimiter.
pub open spec fn can_stand_in(lines: Seq<Seq<char>>, delimiter: Seq<char>) -> bool {
    forall|k: int|
        0 <= k < lines.len() ==> !(#[trigger] lines[k]).contains('\n') && trimmed(lines[k])
            != delimiter
}

proof fn lemma_line_break(s: Seq<char>, i: int, line: Seq<char>)
    requires
        holds_at(s, i, line + seq!['\n']),
        !line.contains('\n'),
    ensures
        find_from(s, i, '\n') == i + line.len(),
        s.subrange(i, i + line.len()) == line,
    decreases line.len(),
{
    let all = line + seq!['\n'];
    let n = line.len() as int;
    assert(s[i + n] == all[n]);
    assert(s.subrange(i, i + n) =~= line) by {
        assert forall|k: int| 0 <= k < n implies s.subrange(i, i + n)[k] == line[k] by {
            assert(s[i + k] == all[k]);
        }
    }
    if n > 0 {
        assert(s[i + 0] == all[0]);
        assert(line.contains(line[0]));
        let rest = line.skip(1);
        assert(holds_at(s, i + 1, rest + seq!['\n'])) by {
            let tail = rest + seq!['\n'];
            assert forall|k: int| 0 <= k < tail.len() implies #[trigger] s[i + 1 + k]
                == tail[k] by {
                assert(s[i + (k + 1)] == all[k + 1]);
            }
        }
        assert(!rest.contains('\n')) by {
            if rest.contains('\n') {
                let k = choose|k: int| 0 <= k < rest.len() && rest[k] == '\n';
                assert(line[k + 1] == '\n');
            }
        }
        lemma_line_break(s, i + 1, rest);
    }
}

proof fn lemma_body(
    s: Seq<char>,
    i: int,
    lines: Seq<Seq<char>>,
    last: Seq<char>,
    delimiter: Seq<char>,
)
    requires
        can_stand_in(lines, delimiter),
        trimmed(last) == delimiter,
        !last.contains('\n'),
        holds_at(s, i, lines_text(lines) + (last + seq!['\n'])),
    ensures
        heredoc_end(s, i, delimiter) == i + lines_text(lines).len() + last.len() + 1,
    decreases lines.len(),
{
    let close = last + seq!['\n'];
    lemma_holds_both(s, i, lines_text(lines), close);
    if lines.len() == 0 {
        assert(lines_text(lines).len() == 0);
        lemma_line_break(s, i, last);
    } else {
        let rest = lines.skip(1);
        let first = lines[0] + seq!['\n'];
        assert(lines_text(lines) + close =~= first + (lines_text(rest) + close));
        lemma_holds_both(s, i, first, lines_text(rest) + close);
        lemma_line_break(s, i, lines[0]);
        assert forall|k: int| 0 <= k < rest.len() implies !(#[trigger] rest[k]).contains('\n')
            && trimmed(rest[k]) != delimiter by {
            assert(rest[k] == lines[k + 1]);
        }
        lemma_body(s, i + lines[0].len() + 1, rest, last, delimiter);
    }
}

/// How a here-document is opened: `<<` or `<<-`, and the delimiter, in quotes or not, with or
/// without blanks in front of it.
pub open spec fn opening(dash: bool, gap: Seq<char>, target: Seq<Piece>) -> Seq<char> {
    (if dash {
        seq![' ', '<', '<', '-']
    } else {
        seq![' ', '<', '<']
    }) + (gap + word_source(target))
}

#[verifier::rlimit(40)]
#[verifier::spinoff_prover]
proof fn lemma_opening(
    s: Seq<char>,
    i: int,
    dash: bool,
    gap: Seq<char>,
    target: Seq<Piece>,
    cwd: Place,
    home: Seq<char>,
    one: Parts,
)
    requires
        cwd.pending.len() == 0,
        all_blanks(gap),
        is_writable(target),
        gap.len() == 0 ==> word_source(target)[0] != '-',
        holds_at(s, i, opening(dash, gap, target) + seq!['\n']),
        one.found.len() == 0,
    ensures
        parts_at(s, i, cwd, home, one) == (Parts {
            end: i + opening(dash, gap, target).len(),
            pending: seq![word_text(target)],
            ..one
        }),
        s[i] == ' ',
{
    let sign = if dash {
        seq![' ', '<', '<', '-']
    } else {
        seq![' ', '<', '<']
    };
    let word_part = gap + word_source(target);
    let from = i + sign.len();
    let m = from + word_part.len();
    let delimiter = word_text(target);
    lemma_holds_both(s, i, opening(dash, gap, target), seq!['\n']);
    lemma_holds_both(s, i, sign, word_part);
    assert(s[i + 0] == sign[0] && s[i + 1] == sign[1] && s[i + 2] == sign[2]);
    if dash {
        assert(s[i + 3] == sign[3]);
    }
    assert(opening(dash, gap, target).len() == sign.len() + word_part.len());
    assert(s[m + 0] == seq!['\n'][0]);
    assert(skip_blanks(s, i + 1) == i + 1);
    assert(skip_blanks(s, i) == i + 1);
    let none = Seq::<CommandView>::empty();
    lemma_target(s, from, gap, target, cwd, home);
    let word = target_at(s, from, cwd, home);
    assert(word == (Word { end: m, text: delimiter, pending: cwd.pending, found: none }));
    if gap.len() == 0 {
        assert(word_part =~= word_source(target));
        assert(s[from + 0] == word_part[0]);
    }
    assert(opening_at(s, i + 3, cwd, home) == word);
    assert(cwd.pending.push(delimiter) =~= seq![delimiter]);
    assert(one.found + none =~= one.found);
    let there = awaiting(cwd, seq![delimiter]);
    let two = Parts { found: one.found + none, ..one };
    assert(two == one);
    assert(skip_blanks(s, m) == m);
    assert(parts_at(s, m, there, home, two) == (Parts {
        end: m,
        pending: seq![delimiter],
        ..one
    }));
}

proof fn lemma_heredoc_parts(
    s: Seq<char>,
    front: Seq<Item>,
    dash: bool,
    gap: Seq<char>,
    target: Seq<Piece>,
    cwd: Place,
    home: Seq<char>,
)
    requires
        cwd.pending.len() == 0,
        all_writable(front),
        all_blanks(gap),
        is_writable(target),
        gap.len() == 0 ==> word_source(target)[0] != '-',
        holds_at(s, 0, items_source(front) + opening(dash, gap, target) + seq!['\n']),
    ensures
        ({
            let m = (items_source(front) + opening(dash, gap, target)).len() as int;
            parts_at(s, 1, cwd, home, no_parts(1)) == (Parts {
                end: m,
                words: words_among(front),
                redirects_in: inputs_among(front),
                redirects_out: outputs_among(front),
                pending: seq![word_text(target)],
                found: Seq::empty(),
            })
        }),
        skip_blanks(s, 1) == 1,
        skip_lines(s, 0) == 1,
        s[1] != '(' && s[1] != '{' && !ends_command(s[1]) && !is_blank(s[1]),
{
    let x = items_source(front);
    let i = x.len() as int;
    let rest = opening(dash, gap, target) + seq!['\n'];
    assert(x + opening(dash, gap, target) + seq!['\n'] =~= x + rest);
    lemma_holds_both(s, 0, x, rest);
    let acc = no_parts(1);
    let one = Parts {
        words: acc.words + words_among(front),
        redirects_in: acc.redirects_in + inputs_among(front),
        redirects_out: acc.redirects_out + outputs_among(front),
        ..acc
    };
    lemma_opening(s, i, dash, gap, target, cwd, home, one);
    lemma_first_item(s, front, cwd, home);
    lemma_items(s, 0, front, cwd, home, acc);
    assert(one.words =~= words_among(front));
    assert(one.redirects_in =~= inputs_among(front));
    assert(one.redirects_out =~= outputs_among(front));
    assert(parts_at(s, 0, cwd, home, acc) == parts_at(s, 1, cwd, home, acc));
}

/// The body of a here-document is inert: a command that opens one is listed as it is written
/// in front of `<<`, and what stands behind the line that ends the body goes on as a command
/// line of its own, whatever the lines between hold. That line is the delimiter, with or
/// without whitespace around it.
#[verifier::rlimit(40)]
#[verifier::spinoff_prover]
pub proof fn here_documents_are_inert(
    front: Seq<Item>,
    name: Seq<char>,
    args: Seq<Seq<char>>,
    dash: bool,
    gap: Seq<char>,
    target: Seq<Piece>,
    lines: Seq<Seq<char>>,
    last: Seq<char>,
    y: Seq<char>,
    cwd: Place,
    home: Seq<char>,
)
    requires
        cwd.pending.len() == 0,
        all_writable(front),
        words_among(front) == seq![name] + args,
        is_no_assignment(name),
        !assigns(name),
        name != "cd"@,
        all_blanks(gap),
        is_writable(target),
        gap.len() == 0 ==> word_source(target)[0] != '-',
        unquoted(word_text(target)) == word_text(target),
        trimmed(last) == word_text(target),
        !last.contains('\n'),
        can_stand_in(lines, word_text(target)),
        continued(y) == y,
        ({
            let s = items_source(front) + opening(dash, gap, target) + seq!['\n'] + (lines_text(
                lines,
            ) + (last + seq!['\n'])) + y;
            continued(s) == s
        }),
    ensures
        ({
            let head = items_source(front) + opening(dash, gap, target) + seq!['\n'] + (lines_text(
                lines,
            ) + (last + seq!['\n']));
            let found = commands_from(head + y, cwd, home);
            &&& found.len() > 0
            &&& found[0].program == name
            &&& found[0].written == args
            &&& !cwd.moved ==> found[0].args == args
            &&& found[0].effective_cwd == cwd.dir
            &&& found[0].redirects_in == inputs_among(front)
            &&& found[0].redirects_out == outputs_among(front)
            &&& found[0].env_vars.len() == 0
            &&& found[0].raw == trimmed(head.skip(1))
            &&& found.skip(1) == commands_from(y, cwd, home)
        }),
{
    let delimiter = word_text(target);
    let x = items_source(front);
    let head = x + opening(dash, gap, target) + seq!['\n'];
    let body = lines_text(lines) + (last + seq!['\n']);
    let s = head + body + y;
    let m = head.len() - 1;
    let from = head.len() as int;
    let n = from + body.len();
    assert(holds_at(s, 0, head));
    assert(holds_at(s, from, body)) by {
        assert forall|k: int| 0 <= k < body.len() implies #[trigger] s[from + k] == body[k] by {}
    }
    assert(s[m] == '\n');
    lemma_heredoc_parts(s, front, dash, gap, target, cwd, home);
    lemma_body(s, from, lines, last, delimiter);
    let parts = parts_at(s, 1, cwd, home, no_parts(1));
    let one = simple_command(s, 1, parts, cwd, home);
    assert(command_at(s, 1, cwd, home) == one);
    let none = Seq::<Seq<char>>::empty();
    assignments_in_front_are_kept_aside(none, name, args);
    assert(none + (seq![name] + args) =~= seq![name] + args);
    assert((seq![name] + args).drop_first() =~= args);
    let there = awaiting(cwd, seq![delimiter]);
    assert(one.cwd == there);
    assert(one.found.len() == 1);
    assert(skip_blanks(s, m) == m);
    assert(lead(s, 0, cwd) == 1);
    assert(next_command(s, 1, m, true) == m);
    assert(list_at(s, 0, cwd, home, false).found == one.found + list_at(
        s,
        m,
        there,
        home,
        false,
    ).found);
    assert(seq![delimiter].drop_first() =~= none);
    assert(bodies_end(s, n, none) == n);
    assert(bodies_end(s, from, seq![delimiter]) == n);
    assert(s.subrange(1, n) =~= (head + body).skip(1));
    assert(skip_margin(s, m) == m);
    assert(on_new_line(there).pending =~= cwd.pending);
    assert(on_new_line(there) == cwd);
    assert(list_at(s, m, there, home, false) == list_at(s, n, cwd, home, false));
    assert(alike(s, y, n, y.len() as int));
    lemma_local_list(s, y, n, y.len() as int, 0, cwd, home, false);
    let found = commands_from(s, cwd, home);
    assert(found.skip(1) =~= commands_from(y, cwd, home));
    if !cwd.moved {
        assert(found[0].args =~= args);
    }
}

/// A here-document that no line ends takes the rest of the text.
pub proof fn open_here_documents_take_the_rest(
    s: Seq<char>,
    i: int,
    lines: Seq<Seq<char>>,
    rest: Seq<char>,
    delimiter: Seq<char>,
)
    requires
        can_stand_in(lines, delimiter),
        !rest.contains('\n'),
        holds_at(s, i, lines_text(lines) + rest),
        i + (lines_text(lines) + rest).len() == s.len(),
    ensures
        heredoc_end(s, i, delimiter) == s.len(),
    decreases lines.len(),
{
    lemma_holds_both(s, i, lines_text(lines), rest);
    if lines.len() == 0 {
        let k = find_from(s, i, '\n');
        lemma_find_bounds(s, i, '\n');
        if k < s.len() {
            assert(s[i + (k - i)] == rest[k - i]);
            assert(rest.contains(rest[k - i]));
        }
    } else {
        let more = lines.skip(1);
        let first = lines[0] + seq!['\n'];
        assert(lines_text(lines) + rest =~= first + (lines_text(more) + rest));
        lemma_holds_both(s, i, first, lines_text(more) + rest);
        lemma_line_break(s, i, lines[0]);
        assert forall|k: int| 0 <= k < more.len() implies !(#[trigger] more[k]).contains('\n')
            && trimmed(more[k]) != delimiter by {
            assert(more[k] == lines[k + 1]);
        }
        open_here_documents_take_the_rest(
            s,
            i + lines[0].len() + 1,
            more,
            rest,
            delimiter,
        );
    }
}

/// The text of the bodies of several here-documents, one behind the other.
pub open spec fn bodies_text(bodies: Seq<Seq<Seq<char>>>, pending: Seq<Seq<char>>) -> Seq<char>
    decreases bodies.len(),
{
    if bodies.len() == 0 {
        Seq::empty()
    } else {
        lines_text(bodies[0]) + (pending[0] + seq!['\n']) + bodies_text(
            bodies.skip(1),
            pending.skip(1),
        )
    }
}

/// The bodies of the here-documents that a line opens follow each other, in the order in
/// which they are opened.
pub proof fn bodies_follow_each_other(
    s: Seq<char>,
    i: int,
    bodies: Seq<Seq<Seq<char>>>,
    pending: Seq<Seq<char>>,
)
    requires
        bodies.len() == pending.len(),
        forall|k: int|
            0 <= k < bodies.len() ==> can_stand_in(#[trigger] bodies[k], pending[k]) && trimmed(
                pending[k],
            ) == pending[k] && unquoted(pending[k]) == pending[k] && !pending[k].contains('\n'),
        holds_at(s, i, bodies_text(bodies, pending)),
    ensures
        bodies_end(s, i, pending) == i + bodies_text(bodies, pending).len(),
    decreases bodies.len(),
{
    if bodies.len() > 0 {
        let first = lines_text(bodies[0]) + (pending[0] + seq!['\n']);
        let rest = bodies.skip(1);
        let others = pending.skip(1);
        assert(pending.drop_first() =~= others);
        assert(can_stand_in(bodies[0], pending[0]));
        lemma_holds_both(s, i, first, bodies_text(rest, others));
        lemma_body(s, i, bodies[0], pending[0], pending[0]);
        assert forall|k: int| 0 <= k < rest.len() implies can_stand_in(
            #[trigger] rest[k],
            others[k],
        ) && trimmed(others[k]) == others[k] && unquoted(others[k]) == others[k]
            && !others[k].contains('\n') by {
            assert(rest[k] == bodies[k + 1]);
        }
        bodies_follow_each_other(s, i + first.len(), rest, others);
    }
}

} // verus!

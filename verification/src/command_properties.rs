//! How commands are written: what is written down is what is found.
use vstd::prelude::*;
use crate::shell_grammar::{
    arguments, awaiting, char_at, command_at, commands_from, ends_command, ends_word, is_blank,
    is_fd_prefix, is_path_argument, lemma_skips, list_at, next_command, no_parts, opening_at,
    opens_substitution, parts_at, piece_at, resolved, simple_command, skip_blanks, skip_digits,
    skip_lines, strip_assignments, target_at, word_after, word_at, CommandView, Parts, Place, Scan,
    Stripped, Word,
};
use crate::shell_properties::{
    double_quotes_are_literal, is_plain_char, lemma_no_newline_stays, single_quotes_are_literal,
};
use crate::text::{
    all_name_chars, find_from, is_digit, is_name_char, lemma_find_bounds, replaced, trimmed,
};

verus! {

/// A part of a word as it is written: plain characters, or a text in single or in double
/// quotes.
pub enum Piece {
    Plain(Seq<char>),
    Single(Seq<char>),
    Double(Seq<char>),
}

/// Whether a text is written as it is, without quotes.
pub open spec fn is_plain_run(t: Seq<char>) -> bool {
    forall|k: int| 0 <= k < t.len() ==> is_plain_char(#[trigger] t[k]) && !is_blank(t[k])
}

/// Whether a part of a word can be written as it is.
pub open spec fn can_be_written(piece: Piece) -> bool {
    match piece {
        Piece::Plain(t) => is_plain_run(t),
        Piece::Single(t) => forall|k: int|
            0 <= k < t.len() ==> #[trigger] t[k] != '\'' && t[k] != '\n',
        Piece::Double(t) => forall|k: int|
            0 <= k < t.len() ==> #[trigger] t[k] != '"' && t[k] != '`' && t[k] != '$' && t[k]
                != '\n',
    }
}

/// How a part of a word is written.
pub open spec fn piece_source(piece: Piece) -> Seq<char> {
    match piece {
        Piece::Plain(t) => t,
        Piece::Single(t) => seq!['\''] + t + seq!['\''],
        Piece::Double(t) => seq!['"'] + t + seq!['"'],
    }
}

/// What a part of a word means.
pub open spec fn piece_text(piece: Piece) -> Seq<char> {
    match piece {
        Piece::Plain(t) => t,
        Piece::Single(t) => t,
        Piece::Double(t) => t,
    }
}

/// How a word is written.
pub open spec fn word_source(word: Seq<Piece>) -> Seq<char>
    decreases word.len(),
{
    if word.len() == 0 {
        Seq::empty()
    } else {
        piece_source(word[0]) + word_source(word.skip(1))
    }
}

/// What a word means.
pub open spec fn word_text(word: Seq<Piece>) -> Seq<char>
    decreases word.len(),
{
    if word.len() == 0 {
        Seq::empty()
    } else {
        piece_text(word[0]) + word_text(word.skip(1))
    }
}

/// Whether a word can be written as it is: it means something, and so can its parts.
pub open spec fn is_writable(word: Seq<Piece>) -> bool {
    &&& word_text(word).len() > 0
    &&& forall|k: int| 0 <= k < word.len() ==> can_be_written(#[trigger] word[k])
}

/// Whether a text stands at a position of another.
pub open spec fn holds_at(s: Seq<char>, i: int, t: Seq<char>) -> bool {
    &&& 0 <= i
    &&& i + t.len() <= s.len()
    &&& forall|k: int| 0 <= k < t.len() ==> #[trigger] s[i + k] == t[k]
}

pub proof fn lemma_holds_both(s: Seq<char>, i: int, a: Seq<char>, b: Seq<char>)
    requires
        holds_at(s, i, a + b),
    ensures
        holds_at(s, i, a),
        holds_at(s, i + a.len(), b),
{
    let all = a + b;
    assert forall|k: int| 0 <= k < a.len() implies #[trigger] s[i + k] == a[k] by {
        assert(all[k] == a[k]);
    }
    let j = i + a.len();
    assert forall|k: int| 0 <= k < b.len() implies #[trigger] s[j + k] == b[k] by {
        assert(all[a.len() + k] == b[k]);
        assert(s[i + (a.len() + k)] == all[a.len() + k]);
    }
}

/// The outcome of reading a word without substitutions.
pub open spec fn literal(end: int, text: Seq<char>, cwd: Place) -> Word {
    Word { end, text, pending: cwd.pending, found: Seq::empty() }
}

pub proof fn lemma_word_after(first: Word, rest: Word)
    requires
        first.found.len() == 0,
        rest.found.len() == 0,
    ensures
        word_after(first, rest) == (Word {
            text: first.text + rest.text,
            found: Seq::empty(),
            ..rest
        }),
{
    assert(first.found + rest.found =~= Seq::empty());
}

pub proof fn lemma_plain_piece(
    s: Seq<char>,
    i: int,
    t: Seq<char>,
    end: int,
    text: Seq<char>,
    cwd: Place,
    home: Seq<char>,
)
    requires
        is_plain_run(t),
        holds_at(s, i, t),
        word_at(s, i + t.len(), cwd, home) == literal(end, text, cwd),
        !char_at(s, i + t.len(), '('),
    ensures
        word_at(s, i, cwd, home) == literal(end, t + text, cwd),
    decreases t.len(),
{
    if t.len() == 0 {
        assert(t + text =~= text);
    } else {
        let rest = t.skip(1);
        assert(s[i + 0] == t[0]);
        assert(is_plain_char(t[0]) && !is_blank(t[0]));
        assert forall|k: int| 0 <= k < rest.len() implies is_plain_char(#[trigger] rest[k])
            && !is_blank(rest[k]) by {
            assert(rest[k] == t[k + 1]);
        }
        assert forall|k: int| 0 <= k < rest.len() implies #[trigger] s[i + 1 + k] == rest[k] by {
            assert(s[i + (k + 1)] == t[k + 1]);
        }
        assert(is_plain_run(rest));
        assert(holds_at(s, i + 1, rest));
        lemma_plain_piece(s, i + 1, rest, end, text, cwd, home);
        if rest.len() > 0 {
            assert(s[i + 1 + 0] == rest[0]);
            assert(is_plain_char(rest[0]));
        }
        assert(!opens_substitution(s, i));
        let first = literal(i + 1, seq![s[i]], cwd);
        assert(piece_at(s, i, cwd, home) == first);
        lemma_word_after(first, literal(end, rest + text, cwd));
        assert(seq![t[0]] + (rest + text) =~= t + text);
    }
}

#[verifier::rlimit(40)]
#[verifier::spinoff_prover]
proof fn lemma_word(
    s: Seq<char>,
    i: int,
    word: Seq<Piece>,
    cwd: Place,
    home: Seq<char>,
)
    requires
        forall|k: int| 0 <= k < word.len() ==> can_be_written(#[trigger] word[k]),
        holds_at(s, i, word_source(word)),
        ({
            let e = i + word_source(word).len();
            e == s.len() || ends_word(s[e])
        }),
    ensures
        word_at(s, i, cwd, home) == literal(
            i + word_source(word).len(),
            word_text(word),
            cwd,
        ),
        word.len() > 0 ==> !char_at(s, i, '('),
    decreases word.len(),
{
    if word.len() > 0 {
        let piece = word[0];
        let rest = word.skip(1);
        let source = piece_source(piece);
        assert(can_be_written(piece));
        assert forall|k: int| 0 <= k < rest.len() implies can_be_written(#[trigger] rest[k]) by {
            assert(rest[k] == word[k + 1]);
        }
        lemma_holds_both(s, i, source, word_source(rest));
        let j = i + source.len();
        lemma_word(s, j, rest, cwd, home);
        let end = j + word_source(rest).len();
        let text = word_text(rest);
        let n = piece_text(piece).len() as int;
        match piece {
            Piece::Plain(t) => {
                lemma_plain_piece(s, i, t, end, text, cwd, home);
                if t.len() > 0 {
                    assert(s[i + 0] == t[0]);
                    assert(is_plain_char(t[0]));
                }
            },
            Piece::Single(t) => {
                assert(s[i + 0] == source[0]);
                assert(s[i + (n + 1)] == source[n + 1]);
                assert forall|k: int| i < k < i + n + 1 implies s[k] != '\'' by {
                    assert(s[i + (k - i)] == source[k - i]);
                    assert(t[k - i - 1] != '\'');
                }
                single_quotes_are_literal(s, i, i + n + 1, cwd, home);
                assert(s.subrange(i + 1, i + n + 1) =~= t) by {
                    assert forall|k: int| 0 <= k < n implies s[i + 1 + k] == t[k] by {
                        assert(s[i + (k + 1)] == source[k + 1]);
                    }
                }
                lemma_word_after(literal(j, t, cwd), literal(end, text, cwd));
            },
            Piece::Double(t) => {
                assert(s[i + 0] == source[0]);
                assert(s[i + (n + 1)] == source[n + 1]);
                assert forall|k: int| i < k < i + n + 1 implies s[k] != '"' && s[k] != '`'
                    && !opens_substitution(s, k) by {
                    assert(s[i + (k - i)] == source[k - i]);
                    assert(t[k - i - 1] != '"');
                }
                double_quotes_are_literal(s, i, i + n + 1, cwd, home);
                assert(s.subrange(i + 1, i + n + 1) =~= t) by {
                    assert forall|k: int| 0 <= k < n implies s[i + 1 + k] == t[k] by {
                        assert(s[i + (k + 1)] == source[k + 1]);
                    }
                }
                lemma_word_after(literal(j, t, cwd), literal(end, text, cwd));
            },
        }
        assert(source + word_source(rest) == word_source(word));
    } else {
        assert(word_source(word).len() == 0);
    }
}

/// A part of a simple command: a word, or a redirection. A number may stand in front of a
/// redirection, and blanks in front of its target.
pub enum Item {
    Word(Seq<Piece>),
    /// `< target`
    From { fd: Seq<char>, gap: Seq<char>, target: Seq<Piece> },
    /// `> target` or `>> target`
    To { fd: Seq<char>, append: bool, gap: Seq<char>, target: Seq<Piece> },
    /// `>&1` or `<&1`
    Copy { fd: Seq<char>, out: bool, of: Seq<char> },
    /// `<<< text`
    Text { gap: Seq<char>, target: Seq<Piece> },
}

/// Whether a text consists of digits.
pub open spec fn all_digits(t: Seq<char>) -> bool {
    forall|k: int| 0 <= k < t.len() ==> is_digit(#[trigger] t[k])
}

/// Whether a text consists of blanks.
pub open spec fn all_blanks(t: Seq<char>) -> bool {
    forall|k: int| 0 <= k < t.len() ==> is_blank(#[trigger] t[k])
}

/// How a part of a simple command is written.
pub open spec fn item_source(item: Item) -> Seq<char> {
    match item {
        Item::Word(word) => word_source(word),
        Item::From { fd, gap, target } => fd + (seq!['<'] + gap + word_source(target)),
        Item::To { fd, append, gap, target } => fd + ((if append {
            seq!['>', '>']
        } else {
            seq!['>']
        }) + gap + word_source(target)),
        Item::Copy { fd, out, of } => fd + ((if out {
            seq!['>', '&']
        } else {
            seq!['<', '&']
        }) + of),
        Item::Text { gap, target } => seq!['<', '<', '<'] + gap + word_source(target),
    }
}

/// Whether a part of a simple command can be written as it is.
pub open spec fn item_is_writable(item: Item) -> bool {
    match item {
        Item::Word(word) => is_writable(word),
        Item::From { fd, gap, target } => all_digits(fd) && all_blanks(gap) && is_writable(target),
        Item::To { fd, append, gap, target } => all_digits(fd) && all_blanks(gap) && is_writable(
            target,
        ),
        Item::Copy { fd, out, of } => all_digits(fd) && all_digits(of),
        Item::Text { gap, target } => all_blanks(gap) && is_writable(target),
    }
}

/// How the parts of a simple command are written: with a space in front of each.
pub open spec fn items_source(items: Seq<Item>) -> Seq<char>
    decreases items.len(),
{
    if items.len() == 0 {
        Seq::empty()
    } else {
        seq![' '] + item_source(items[0]) + items_source(items.skip(1))
    }
}

/// The words among the parts of a simple command, in order.
pub open spec fn words_among(items: Seq<Item>) -> Seq<Seq<char>>
    decreases items.len(),
{
    if items.len() == 0 {
        Seq::empty()
    } else {
        (match items[0] {
            Item::Word(word) => seq![word_text(word)],
            _ => Seq::empty(),
        }) + words_among(items.skip(1))
    }
}

/// The targets of `<` among the parts of a simple command, in order.
pub open spec fn inputs_among(items: Seq<Item>) -> Seq<Seq<char>>
    decreases items.len(),
{
    if items.len() == 0 {
        Seq::empty()
    } else {
        (match items[0] {
            Item::From { fd, gap, target } => seq![word_text(target)],
            _ => Seq::empty(),
        }) + inputs_among(items.skip(1))
    }
}

/// The targets of `>` and `>>` among the parts of a simple command, in order.
pub open spec fn outputs_among(items: Seq<Item>) -> Seq<Seq<char>>
    decreases items.len(),
{
    if items.len() == 0 {
        Seq::empty()
    } else {
        (match items[0] {
            Item::To { fd, append, gap, target } => seq![word_text(target)],
            _ => Seq::empty(),
        }) + outputs_among(items.skip(1))
    }
}

pub proof fn lemma_word_starts(word: Seq<Piece>)
    requires
        word_text(word).len() > 0,
        forall|k: int| 0 <= k < word.len() ==> can_be_written(#[trigger] word[k]),
    ensures
        word_source(word).len() > 0,
        !ends_word(word_source(word)[0]),
        word_source(word)[0] != '(',
        word_source(word)[0] != '{',
    decreases word.len(),
{
    let piece = word[0];
    let rest = word.skip(1);
    assert(can_be_written(piece));
    let source = piece_source(piece);
    if source.len() == 0 {
        assert(piece_text(piece) + word_text(rest) =~= word_text(rest));
        assert forall|k: int| 0 <= k < rest.len() implies can_be_written(#[trigger] rest[k]) by {
            assert(rest[k] == word[k + 1]);
        }
        lemma_word_starts(rest);
        assert(source + word_source(rest) =~= word_source(rest));
    } else {
        assert(word_source(word)[0] == source[0]);
        if let Piece::Plain(t) = piece {
            assert(is_plain_char(t[0]));
        }
    }
}

proof fn lemma_blanks(s: Seq<char>, i: int, gap: Seq<char>)
    requires
        all_blanks(gap),
        holds_at(s, i, gap),
        i + gap.len() < s.len(),
        !is_blank(s[i + gap.len()]),
    ensures
        skip_blanks(s, i) == i + gap.len(),
    decreases gap.len(),
{
    if gap.len() > 0 {
        let rest = gap.skip(1);
        assert(s[i + 0] == gap[0]);
        assert(is_blank(gap[0]));
        assert forall|k: int| 0 <= k < rest.len() implies is_blank(#[trigger] rest[k]) && s[i + 1
            + k] == rest[k] by {
            assert(is_blank(gap[k + 1]));
            assert(s[i + (k + 1)] == gap[k + 1]);
        }
        assert(holds_at(s, i + 1, rest)) by {
            assert forall|k: int| 0 <= k < rest.len() implies #[trigger] s[i + 1 + k]
                == rest[k] by {
                assert(s[i + (k + 1)] == gap[k + 1]);
            }
        }
        lemma_blanks(s, i + 1, rest);
    }
}

proof fn lemma_digits(s: Seq<char>, i: int, of: Seq<char>)
    requires
        all_digits(of),
        holds_at(s, i, of),
        i + of.len() == s.len() || !is_digit(s[i + of.len()]),
    ensures
        skip_digits(s, i) == i + of.len(),
    decreases of.len(),
{
    if of.len() > 0 {
        let rest = of.skip(1);
        assert(s[i + 0] == of[0]);
        assert(is_digit(of[0]));
        assert(all_digits(rest)) by {
            assert forall|k: int| 0 <= k < rest.len() implies is_digit(#[trigger] rest[k]) by {
                assert(is_digit(of[k + 1]));
            }
        }
        assert(holds_at(s, i + 1, rest)) by {
            assert forall|k: int| 0 <= k < rest.len() implies #[trigger] s[i + 1 + k]
                == rest[k] by {
                assert(s[i + (k + 1)] == of[k + 1]);
            }
        }
        lemma_digits(s, i + 1, rest);
    }
}

/// Whether what stands in front of a position is a word of its own: a blank, the end of the
/// command or of the text follows.
pub open spec fn is_apart(s: Seq<char>, e: int) -> bool {
    e == s.len() || 0 <= e < s.len() && (is_blank(s[e]) || ends_command(s[e]))
}

pub proof fn lemma_target(
    s: Seq<char>,
    i: int,
    gap: Seq<char>,
    target: Seq<Piece>,
    cwd: Place,
    home: Seq<char>,
)
    requires
        all_blanks(gap),
        is_writable(target),
        holds_at(s, i, gap + word_source(target)),
        is_apart(s, i + gap.len() + word_source(target).len()),
    ensures
        target_at(s, i, cwd, home) == literal(
            i + gap.len() + word_source(target).len(),
            word_text(target),
            cwd,
        ),
        word_source(target).len() > 0,
        s[i] != '&',
        s[i] != '<',
        s[i] != '>',
        s[i] != '-' || gap.len() == 0,
{
    lemma_holds_both(s, i, gap, word_source(target));
    lemma_word_starts(target);
    let j = i + gap.len();
    assert(s[j + 0] == word_source(target)[0]);
    lemma_blanks(s, i, gap);
    lemma_word(s, j, target, cwd, home);
    if gap.len() > 0 {
        assert(s[i + 0] == gap[0]);
        assert(is_blank(gap[0]));
    }
}

proof fn lemma_descriptor(
    s: Seq<char>,
    i: int,
    fd: Seq<char>,
    cwd: Place,
    home: Seq<char>,
    acc: Parts,
)
    requires
        all_digits(fd),
        holds_at(s, i, fd),
        char_at(s, i + fd.len(), '<') || char_at(s, i + fd.len(), '>'),
    ensures
        parts_at(s, i, cwd, home, acc) == parts_at(s, i + fd.len(), cwd, home, acc),
{
    if fd.len() > 0 {
        let word = seq![Piece::Plain(fd)];
        assert(word.skip(1) =~= Seq::empty());
        reveal_with_fuel(word_source, 2);
        reveal_with_fuel(word_text, 2);
        assert(word_source(word) =~= fd);
        assert(word_text(word) =~= fd);
        assert(can_be_written(word[0])) by {
            assert forall|k: int| 0 <= k < fd.len() implies is_plain_char(#[trigger] fd[k])
                && !is_blank(fd[k]) by {
                assert(is_digit(fd[k]));
            }
        }
        assert(s[i + 0] == fd[0]);
        assert(is_digit(fd[0]));
        lemma_word(s, i, word, cwd, home);
        let read = word_at(s, i, cwd, home);
        assert(is_fd_prefix(s, read));
        assert(skip_blanks(s, i) == i);
        assert(acc.found + read.found =~= acc.found);
        assert(awaiting(cwd, cwd.pending) == cwd);
        assert((Parts { found: acc.found + read.found, ..acc }) == acc);
    }
}

/// What a part of a simple command adds to what was read before it.
spec fn with_item(acc: Parts, item: Item) -> Parts {
    match item {
        Item::Word(word) => Parts { words: acc.words.push(word_text(word)), ..acc },
        Item::From { fd, gap, target } => Parts {
            redirects_in: acc.redirects_in.push(word_text(target)),
            ..acc
        },
        Item::To { fd, append, gap, target } => Parts {
            redirects_out: acc.redirects_out.push(word_text(target)),
            ..acc
        },
        _ => acc,
    }
}

#[verifier::rlimit(80)]
#[verifier::spinoff_prover]
proof fn lemma_item_word(
    s: Seq<char>,
    i: int,
    item: Item,
    cwd: Place,
    home: Seq<char>,
    acc: Parts,
)
    requires
        item is Word,
        item_is_writable(item),
        holds_at(s, i, item_source(item)),
        is_apart(s, i + item_source(item).len()),
    ensures
        parts_at(s, i, cwd, home, acc) == parts_at(
            s,
            i + item_source(item).len(),
            cwd,
            home,
            with_item(acc, item),
        ),
        item_source(item).len() > 0,
        !is_blank(s[i]),
        !ends_command(s[i]),
        s[i] != '(',
        s[i] != '{',
{
    let none = Seq::<CommandView>::empty();
    let e = i + item_source(item).len();
    assert(awaiting(cwd, cwd.pending) == cwd);
    assert(acc.found + none =~= acc.found);
    let word = item->Word_0;
        lemma_word_starts(word);
        assert(s[i + 0] == word_source(word)[0]);
        lemma_word(s, i, word, cwd, home);
        assert(skip_blanks(s, i) == i);
        let read = word_at(s, i, cwd, home);
        assert(!is_fd_prefix(s, read));
        assert((Parts {
            words: acc.words.push(read.text),
            found: acc.found + read.found,
            ..acc
        }) == with_item(acc, item));
}

#[verifier::rlimit(80)]
#[verifier::spinoff_prover]
proof fn lemma_item_from(
    s: Seq<char>,
    i: int,
    item: Item,
    cwd: Place,
    home: Seq<char>,
    acc: Parts,
)
    requires
        item is From,
        item_is_writable(item),
        holds_at(s, i, item_source(item)),
        is_apart(s, i + item_source(item).len()),
    ensures
        parts_at(s, i, cwd, home, acc) == parts_at(
            s,
            i + item_source(item).len(),
            cwd,
            home,
            with_item(acc, item),
        ),
        item_source(item).len() > 0,
        !is_blank(s[i]),
        !ends_command(s[i]),
        s[i] != '(',
        s[i] != '{',
{
    let none = Seq::<CommandView>::empty();
    let e = i + item_source(item).len();
    assert(awaiting(cwd, cwd.pending) == cwd);
    assert(acc.found + none =~= acc.found);
    let fd = item->From_fd;
    let gap = item->From_gap;
    let target = item->From_target;
        let rest = seq!['<'] + gap + word_source(target);
        lemma_holds_both(s, i, fd, rest);
        let j = i + fd.len();
        assert(rest =~= seq!['<'] + (gap + word_source(target)));
        lemma_holds_both(s, j, seq!['<'], gap + word_source(target));
        assert(s[j + 0] == seq!['<'][0]);
        lemma_descriptor(s, i, fd, cwd, home, acc);
        if fd.len() > 0 {
            assert(s[i + 0] == fd[0]);
            assert(is_digit(fd[0]));
        }
        lemma_target(s, j + 1, gap, target, cwd, home);
        assert(skip_blanks(s, j) == j);
        let read = target_at(s, j + 1, cwd, home);
        assert((Parts {
            redirects_in: acc.redirects_in.push(read.text),
            found: acc.found + read.found,
            ..acc
        }) == with_item(acc, item));
}

#[verifier::rlimit(80)]
#[verifier::spinoff_prover]
proof fn lemma_item_to(
    s: Seq<char>,
    i: int,
    item: Item,
    cwd: Place,
    home: Seq<char>,
    acc: Parts,
)
    requires
        item is To,
        item_is_writable(item),
        holds_at(s, i, item_source(item)),
        is_apart(s, i + item_source(item).len()),
    ensures
        parts_at(s, i, cwd, home, acc) == parts_at(
            s,
            i + item_source(item).len(),
            cwd,
            home,
            with_item(acc, item),
        ),
        item_source(item).len() > 0,
        !is_blank(s[i]),
        !ends_command(s[i]),
        s[i] != '(',
        s[i] != '{',
{
    let none = Seq::<CommandView>::empty();
    let e = i + item_source(item).len();
    assert(awaiting(cwd, cwd.pending) == cwd);
    assert(acc.found + none =~= acc.found);
    let fd = item->To_fd;
    let append = item->To_append;
    let gap = item->To_gap;
    let target = item->To_target;
        let sign = if append {
            seq!['>', '>']
        } else {
            seq!['>']
        };
        let rest = sign + gap + word_source(target);
        lemma_holds_both(s, i, fd, rest);
        let j = i + fd.len();
        assert(rest =~= sign + (gap + word_source(target)));
        lemma_holds_both(s, j, sign, gap + word_source(target));
        assert(s[j + 0] == sign[0]);
        if append {
            assert(s[j + 1] == sign[1]);
        }
        lemma_descriptor(s, i, fd, cwd, home, acc);
        if fd.len() > 0 {
            assert(s[i + 0] == fd[0]);
            assert(is_digit(fd[0]));
        }
        lemma_target(s, j + sign.len(), gap, target, cwd, home);
        assert(skip_blanks(s, j) == j);
        let read = target_at(s, j + sign.len(), cwd, home);
        assert((Parts {
            redirects_out: acc.redirects_out.push(read.text),
            found: acc.found + read.found,
            ..acc
        }) == with_item(acc, item));
}

#[verifier::rlimit(80)]
#[verifier::spinoff_prover]
proof fn lemma_item_copy(
    s: Seq<char>,
    i: int,
    item: Item,
    cwd: Place,
    home: Seq<char>,
    acc: Parts,
)
    requires
        item is Copy,
        item_is_writable(item),
        holds_at(s, i, item_source(item)),
        is_apart(s, i + item_source(item).len()),
    ensures
        parts_at(s, i, cwd, home, acc) == parts_at(
            s,
            i + item_source(item).len(),
            cwd,
            home,
            with_item(acc, item),
        ),
        item_source(item).len() > 0,
        !is_blank(s[i]),
        !ends_command(s[i]),
        s[i] != '(',
        s[i] != '{',
{
    let none = Seq::<CommandView>::empty();
    let e = i + item_source(item).len();
    assert(awaiting(cwd, cwd.pending) == cwd);
    assert(acc.found + none =~= acc.found);
    let fd = item->Copy_fd;
    let out = item->Copy_out;
    let of = item->Copy_of;
        let sign = if out {
            seq!['>', '&']
        } else {
            seq!['<', '&']
        };
        lemma_holds_both(s, i, fd, sign + of);
        let j = i + fd.len();
        lemma_holds_both(s, j, sign, of);
        assert(s[j + 0] == sign[0] && s[j + 1] == sign[1]);
        lemma_descriptor(s, i, fd, cwd, home, acc);
        if fd.len() > 0 {
            assert(s[i + 0] == fd[0]);
            assert(is_digit(fd[0]));
        }
        lemma_digits(s, j + 2, of);
        assert(skip_blanks(s, j) == j);
}

#[verifier::rlimit(80)]
#[verifier::spinoff_prover]
proof fn lemma_item_text(
    s: Seq<char>,
    i: int,
    item: Item,
    cwd: Place,
    home: Seq<char>,
    acc: Parts,
)
    requires
        item is Text,
        item_is_writable(item),
        holds_at(s, i, item_source(item)),
        is_apart(s, i + item_source(item).len()),
    ensures
        parts_at(s, i, cwd, home, acc) == parts_at(
            s,
            i + item_source(item).len(),
            cwd,
            home,
            with_item(acc, item),
        ),
        item_source(item).len() > 0,
        !is_blank(s[i]),
        !ends_command(s[i]),
        s[i] != '(',
        s[i] != '{',
{
    let none = Seq::<CommandView>::empty();
    let e = i + item_source(item).len();
    assert(awaiting(cwd, cwd.pending) == cwd);
    assert(acc.found + none =~= acc.found);
    let gap = item->Text_gap;
    let target = item->Text_target;
        let sign = seq!['<', '<', '<'];
        assert(item_source(item) =~= sign + (gap + word_source(target)));
        lemma_holds_both(s, i, sign, gap + word_source(target));
        assert(s[i + 0] == sign[0] && s[i + 1] == sign[1] && s[i + 2] == sign[2]);
        lemma_target(s, i + 3, gap, target, cwd, home);
        assert(skip_blanks(s, i) == i);
        let read = opening_at(s, i + 2, cwd, home);
        assert((Parts { found: acc.found + read.found, ..acc }) == acc);
}

proof fn lemma_item(
    s: Seq<char>,
    i: int,
    item: Item,
    cwd: Place,
    home: Seq<char>,
    acc: Parts,
)
    requires
        item_is_writable(item),
        holds_at(s, i, item_source(item)),
        is_apart(s, i + item_source(item).len()),
    ensures
        parts_at(s, i, cwd, home, acc) == parts_at(
            s,
            i + item_source(item).len(),
            cwd,
            home,
            with_item(acc, item),
        ),
        item_source(item).len() > 0,
        !is_blank(s[i]),
        !ends_command(s[i]),
        s[i] != '(',
        s[i] != '{',
{
    match item {
        Item::Word(_) => lemma_item_word(s, i, item, cwd, home, acc),
        Item::From { .. } => lemma_item_from(s, i, item, cwd, home, acc),
        Item::To { .. } => lemma_item_to(s, i, item, cwd, home, acc),
        Item::Copy { .. } => lemma_item_copy(s, i, item, cwd, home, acc),
        Item::Text { .. } => lemma_item_text(s, i, item, cwd, home, acc),
    }
}

/// Whether a simple command ends at a position.
pub open spec fn is_over(s: Seq<char>, e: int) -> bool {
    e == s.len() || 0 <= e < s.len() && ends_command(s[e])
}

pub proof fn lemma_items(
    s: Seq<char>,
    i: int,
    items: Seq<Item>,
    cwd: Place,
    home: Seq<char>,
    acc: Parts,
)
    requires
        forall|k: int| 0 <= k < items.len() ==> item_is_writable(#[trigger] items[k]),
        holds_at(s, i, items_source(items)),
        is_apart(s, i + items_source(items).len()),
    ensures
        parts_at(s, i, cwd, home, acc) == parts_at(
            s,
            i + items_source(items).len(),
            cwd,
            home,
            Parts {
                words: acc.words + words_among(items),
                redirects_in: acc.redirects_in + inputs_among(items),
                redirects_out: acc.redirects_out + outputs_among(items),
                ..acc
            },
        ),
    decreases items.len(),
{
    if items.len() == 0 {
        assert(acc.words + words_among(items) =~= acc.words);
        assert(acc.redirects_in + inputs_among(items) =~= acc.redirects_in);
        assert(acc.redirects_out + outputs_among(items) =~= acc.redirects_out);
    } else {
        let item = items[0];
        let rest = items.skip(1);
        let blank = seq![' '];
        assert(item_is_writable(item));
        assert forall|k: int| 0 <= k < rest.len() implies item_is_writable(#[trigger] rest[k]) by {
            assert(rest[k] == items[k + 1]);
        }
        lemma_holds_both(s, i, blank + item_source(item), items_source(rest));
        lemma_holds_both(s, i, blank, item_source(item));
        assert(s[i + 0] == blank[0]);
        let j = i + 1;
        let e = j + item_source(item).len();
        assert(i + (blank + item_source(item)).len() == e);
        if rest.len() > 0 {
            assert(items_source(rest)[0] == ' ');
            assert(s[e + 0] == items_source(rest)[0]);
        }
        lemma_item(s, j, item, cwd, home, acc);
        assert(skip_blanks(s, i) == skip_blanks(s, j));
        assert(parts_at(s, i, cwd, home, acc) == parts_at(s, j, cwd, home, acc)) by {
            lemma_skips(s, j);
        }
        let added = with_item(acc, item);
        lemma_items(s, e, rest, cwd, home, added);
        assert(added.words + words_among(rest) =~= acc.words + words_among(items));
        assert(added.redirects_in + inputs_among(rest) =~= acc.redirects_in + inputs_among(items));
        assert(added.redirects_out + outputs_among(rest) =~= acc.redirects_out + outputs_among(
            items,
        ));
    }
}

/// The parts that items amount to, if they end at a position.
pub open spec fn parts_of(items: Seq<Item>, end: int, cwd: Place) -> Parts {
    Parts {
        end,
        words: words_among(items),
        redirects_in: inputs_among(items),
        redirects_out: outputs_among(items),
        pending: cwd.pending,
        found: Seq::empty(),
    }
}

pub proof fn lemma_all_items(s: Seq<char>, i: int, items: Seq<Item>, cwd: Place, home: Seq<char>)
    requires
        items.len() > 0,
        forall|k: int| 0 <= k < items.len() ==> item_is_writable(#[trigger] items[k]),
        holds_at(s, i, items_source(items)),
        is_over(s, i + items_source(items).len()),
    ensures
        ({
            let e = i + items_source(items).len();
            &&& i + 1 < e
            &&& s[i] == ' '
            &&& !is_blank(s[i + 1]) && !ends_command(s[i + 1])
            &&& s[i + 1] != '(' && s[i + 1] != '{' && s[i + 1] != '\r'
            &&& parts_at(s, i + 1, cwd, home, no_parts(i + 1)) == parts_of(items, e, cwd)
            &&& command_at(s, i + 1, cwd, home) == simple_command(
                s,
                i + 1,
                parts_of(items, e, cwd),
                cwd,
                home,
            )
        }),
{
    let item = items[0];
    let rest = items.skip(1);
    let blank = seq![' '];
    assert(item_is_writable(item));
    lemma_holds_both(s, i, blank + item_source(item), items_source(rest));
    lemma_holds_both(s, i, blank, item_source(item));
    assert(s[i + 0] == blank[0]);
    let mid = i + 1 + item_source(item).len();
    assert(i + (blank + item_source(item)).len() == mid);
    if rest.len() > 0 {
        assert(items_source(rest)[0] == ' ');
        assert(s[mid + 0] == items_source(rest)[0]);
    }
    lemma_item(s, i + 1, item, cwd, home, no_parts(i + 1));
    assert(s[i + 1 + 0] == item_source(item)[0]);
    lemma_first_char(item);
    let acc = no_parts(i + 1);
    lemma_items(s, i, items, cwd, home, acc);
    let e = i + items_source(items).len();
    assert(Seq::<Seq<char>>::empty() + words_among(items) =~= words_among(items));
    assert(Seq::<Seq<char>>::empty() + inputs_among(items) =~= inputs_among(items));
    assert(Seq::<Seq<char>>::empty() + outputs_among(items) =~= outputs_among(items));
    assert(skip_blanks(s, e) == e);
    assert(skip_blanks(s, i + 1) == i + 1);
    assert(skip_blanks(s, i) == i + 1);
    assert(parts_at(s, i, cwd, home, acc) == parts_at(s, i + 1, cwd, home, acc));
}

/// The words and redirections of a simple command, written in any number and any order, are
/// read as what they are: the words, the targets of `<`, and the targets of `>` and `>>`,
/// each in order, and all of them. Quotes are no part of a word. A number in front of a
/// redirection, `>&1` and `<<< text` are neither words nor targets.
pub proof fn words_and_redirections_read_as_written(
    items: Seq<Item>,
    cwd: Place,
    home: Seq<char>,
)
    requires
        forall|k: int| 0 <= k < items.len() ==> item_is_writable(#[trigger] items[k]),
    ensures
        ({
            let s = items_source(items);
            parts_at(s, 0, cwd, home, no_parts(0)) == (Parts {
                end: s.len() as int,
                words: words_among(items),
                redirects_in: inputs_among(items),
                redirects_out: outputs_among(items),
                pending: cwd.pending,
                found: Seq::empty(),
            })
        }),
{
    let s = items_source(items);
    lemma_items(s, 0, items, cwd, home, no_parts(0));
    assert(Seq::<Seq<char>>::empty() + words_among(items) =~= words_among(items));
    assert(Seq::<Seq<char>>::empty() + inputs_among(items) =~= inputs_among(items));
    assert(Seq::<Seq<char>>::empty() + outputs_among(items) =~= outputs_among(items));
}

/// Whether a word is a name, `=` and a value that holds no substitution.
pub open spec fn is_assignment(w: Seq<char>) -> bool {
    exists|k: int|
        #![trigger w[k]]
        0 <= k < w.len() && w[k] == '=' && (forall|j: int|
            0 <= j < k ==> is_name_char(#[trigger] w[j])) && (forall|j: int|
            k < j < w.len() ==> #[trigger] w[j] != '$' && w[j] != '`')
}

/// Whether a word assigns no variable: what stands in front of a `=` in it is no name.
pub open spec fn is_no_assignment(w: Seq<char>) -> bool {
    forall|k: int|
        0 <= k < w.len() && #[trigger] w[k] == '=' ==> exists|j: int|
            0 <= j < k && !is_name_char(#[trigger] w[j])
}

proof fn lemma_no_assignment(w: Seq<char>)
    requires
        !w.contains('='),
    ensures
        is_no_assignment(w),
{
    assert forall|k: int| 0 <= k < w.len() && #[trigger] w[k] == '=' implies exists|j: int|
        0 <= j < k && !is_name_char(#[trigger] w[j]) by {
        assert(w.contains(w[k]));
    }
}

/// Whether a word is the name of a builtin that assigns variables.
pub open spec fn assigns(w: Seq<char>) -> bool {
    w == "export"@ || w == "local"@ || w == "declare"@ || w == "typeset"@ || w == "readonly"@
}

proof fn lemma_assigns(w: Seq<char>)
    requires
        assigns(w),
    ensures
        !w.contains('='),
        w.len() > 0,
        w[0] != '-',
        w != "cd"@,
{
    reveal_strlit("export");
    reveal_strlit("local");
    reveal_strlit("declare");
    reveal_strlit("typeset");
    reveal_strlit("readonly");
    reveal_strlit("cd");
    if w == "export"@ {
        assert(w =~= seq!['e', 'x', 'p', 'o', 'r', 't']);
    } else if w == "local"@ {
        assert(w =~= seq!['l', 'o', 'c', 'a', 'l']);
    } else if w == "declare"@ {
        assert(w =~= seq!['d', 'e', 'c', 'l', 'a', 'r', 'e']);
    } else if w == "typeset"@ {
        assert(w =~= seq!['t', 'y', 'p', 'e', 's', 'e', 't']);
    } else {
        assert(w =~= seq!['r', 'e', 'a', 'd', 'o', 'n', 'l', 'y']);
    }
}

proof fn lemma_nothing_to_replace(s: Seq<char>, pat: Seq<char>, with: Seq<char>)
    requires
        pat.len() > 0,
        forall|k: int| 0 <= k < s.len() ==> #[trigger] s[k] != pat[0],
    ensures
        replaced(s, pat, with) == s,
    decreases s.len(),
{
    if s.len() >= pat.len() {
        assert(s.take(pat.len() as int)[0] == s[0]);
        let rest = s.skip(1);
        assert forall|k: int| 0 <= k < rest.len() implies #[trigger] rest[k] != pat[0] by {
            assert(rest[k] == s[k + 1]);
        }
        lemma_nothing_to_replace(rest, pat, with);
        assert(seq![s[0]] + rest =~= s);
    }
}

proof fn lemma_find_first(s: Seq<char>, i: int, j: int, c: char)
    requires
        0 <= i <= j < s.len(),
        s[j] == c,
        forall|k: int| i <= k < j ==> #[trigger] s[k] != c,
    ensures
        find_from(s, i, c) == j,
    decreases j - i,
{
    if i < j {
        lemma_find_first(s, i + 1, j, c);
    }
}

proof fn lemma_assignment(w: Seq<char>, rest: Seq<Seq<char>>, builtin: bool)
    requires
        is_assignment(w),
    ensures
        strip_assignments(seq![w] + rest, builtin) == (Stripped {
            words: strip_assignments(rest, builtin).words,
            env_vars: seq![w] + strip_assignments(rest, builtin).env_vars,
        }),
{
    let k = choose|k: int|
        #![trigger w[k]]
        0 <= k < w.len() && w[k] == '=' && (forall|j: int|
            0 <= j < k ==> is_name_char(#[trigger] w[j])) && (forall|j: int|
            k < j < w.len() ==> #[trigger] w[j] != '$' && w[j] != '`');
    assert forall|j: int| 0 <= j < k implies #[trigger] w[j] != '=' by {
        assert(is_name_char(w[j]));
    }
    lemma_find_first(w, 0, k, '=');
    let words = seq![w] + rest;
    assert(words.drop_first() =~= rest);
    assert(words[0] == w);
    if assigns(w) {
        lemma_assigns(w);
        assert(w.contains('='));
    }
    assert(is_name_char(w[0]) || k == 0);
    reveal_strlit("$()");
    reveal_strlit("`...`");
    reveal_strlit("=");
    let value = w.skip(k + 1);
    assert forall|j: int| 0 <= j < value.len() implies #[trigger] value[j] != '$' && value[j]
        != '`' by {
        assert(value[j] == w[k + 1 + j]);
    }
    lemma_nothing_to_replace(value, "$()"@, ""@);
    lemma_nothing_to_replace(value, "`...`"@, ""@);
    assert(w.take(k) + "="@ + value =~= w);
    assert forall|j: int| 0 <= j < w.take(k).len() implies is_name_char(
        #[trigger] w.take(k)[j],
    ) by {
        assert(is_name_char(w[j]));
    }
}

/// Assignments in front of a command are taken off and kept as they are, in order; what is
/// left is the command with its arguments. Without a command they are all there is.
pub proof fn assignments_in_front_are_kept_aside(
    vars: Seq<Seq<char>>,
    name: Seq<char>,
    args: Seq<Seq<char>>,
)
    requires
        forall|k: int| 0 <= k < vars.len() ==> is_assignment(#[trigger] vars[k]),
        is_no_assignment(name),
        !assigns(name),
    ensures
        strip_assignments(vars + (seq![name] + args), false) == (Stripped {
            words: seq![name] + args,
            env_vars: vars,
        }),
        strip_assignments(vars, false) == (Stripped { words: Seq::empty(), env_vars: vars }),
    decreases vars.len(),
{
    let words = vars + (seq![name] + args);
    if vars.len() == 0 {
        assert(words =~= seq![name] + args);
        assert(words[0] == name);
        lemma_find_bounds(name, 0, '=');
        let eq = find_from(name, 0, '=');
        if eq < name.len() {
            assert(name[eq] == '=');
            let j = choose|j: int| 0 <= j < eq && !is_name_char(#[trigger] name[j]);
            assert(name.take(eq)[j] == name[j]);
            assert(!all_name_chars(name.take(eq)));
        }
        assert(strip_assignments(words, false).env_vars =~= vars);
        assert(strip_assignments(vars, false).env_vars =~= vars);
        assert(vars =~= Seq::empty());
    } else {
        let rest = vars.skip(1);
        assert(is_assignment(vars[0]));
        assert forall|k: int| 0 <= k < rest.len() implies is_assignment(#[trigger] rest[k]) by {
            assert(rest[k] == vars[k + 1]);
        }
        assignments_in_front_are_kept_aside(rest, name, args);
        lemma_assignment(vars[0], rest + (seq![name] + args), false);
        lemma_assignment(vars[0], rest, false);
        assert(words =~= seq![vars[0]] + (rest + (seq![name] + args)));
        assert(vars =~= seq![vars[0]] + rest);
    }
}

/// Behind `export`, `local`, `declare`, `typeset` or `readonly`, flags are passed over, a
/// bare name counts as an empty variable, and assignments are kept; nothing is run.
pub proof fn assigning_builtins_run_nothing(
    builtin: Seq<char>,
    flag: Seq<char>,
    name: Seq<char>,
    vars: Seq<Seq<char>>,
)
    requires
        assigns(builtin),
        flag.len() > 0,
        flag[0] == '-',
        name.len() > 0,
        forall|k: int| 0 <= k < name.len() ==> is_name_char(#[trigger] name[k]),
        !assigns(name),
        forall|k: int| 0 <= k < vars.len() ==> is_assignment(#[trigger] vars[k]),
    ensures
        strip_assignments(seq![builtin] + vars, false) == (Stripped {
            words: Seq::empty(),
            env_vars: vars,
        }),
        strip_assignments(seq![builtin, flag] + vars, false) == (Stripped {
            words: Seq::empty(),
            env_vars: vars,
        }),
        strip_assignments(seq![builtin, name] + vars, false) == (Stripped {
            words: Seq::empty(),
            env_vars: seq![name + "="@] + vars,
        }),
{
    lemma_only_assignments(vars);
    let a = seq![builtin] + vars;
    let b = seq![builtin, flag] + vars;
    let c = seq![builtin, name] + vars;
    assert(a.drop_first() =~= vars);
    assert(b.drop_first() =~= seq![flag] + vars);
    assert((seq![flag] + vars).drop_first() =~= vars);
    assert(c.drop_first() =~= seq![name] + vars);
    assert((seq![name] + vars).drop_first() =~= vars);
    assert(a[0] == builtin && b[0] == builtin && c[0] == builtin);
    assert((seq![flag] + vars)[0] == flag);
    assert((seq![name] + vars)[0] == name);
    assert(!assigns(flag)) by {
        if assigns(flag) {
            lemma_assigns(flag);
        }
    }
    lemma_find_bounds(name, 0, '=');
    assert(is_name_char(name[0]));
    if find_from(name, 0, '=') < name.len() {
        assert(is_name_char(name[find_from(name, 0, '=')]));
    }
    assert(all_name_chars(name));
    assert(strip_assignments(seq![flag] + vars, true) == strip_assignments(vars, true));
    assert(strip_assignments(seq![name] + vars, true).env_vars == seq![name + "="@] + vars);
}

proof fn lemma_only_assignments(vars: Seq<Seq<char>>)
    requires
        forall|k: int| 0 <= k < vars.len() ==> is_assignment(#[trigger] vars[k]),
    ensures
        strip_assignments(vars, true) == (Stripped { words: Seq::empty(), env_vars: vars }),
    decreases vars.len(),
{
    if vars.len() == 0 {
        assert(vars =~= Seq::empty());
    } else {
        let rest = vars.skip(1);
        assert(is_assignment(vars[0]));
        assert forall|k: int| 0 <= k < rest.len() implies is_assignment(#[trigger] rest[k]) by {
            assert(rest[k] == vars[k + 1]);
        }
        lemma_only_assignments(rest);
        lemma_assignment(vars[0], rest, true);
        assert(vars =~= seq![vars[0]] + rest);
    }
}

proof fn lemma_written_without_breaks(items: Seq<Item>)
    requires
        forall|k: int| 0 <= k < items.len() ==> item_is_writable(#[trigger] items[k]),
    ensures
        forall|k: int| 0 <= k < items_source(items).len() ==> #[trigger] items_source(items)[k]
            != '\n',
    decreases items.len(),
{
    if items.len() > 0 {
        let item = items[0];
        let rest = items.skip(1);
        assert(item_is_writable(item));
        assert forall|k: int| 0 <= k < rest.len() implies item_is_writable(#[trigger] rest[k]) by {
            assert(rest[k] == items[k + 1]);
        }
        lemma_written_without_breaks(rest);
        let source = item_source(item);
        match item {
            Item::Word(word) => lemma_word_without_breaks(word),
            Item::From { fd, gap, target } => lemma_word_without_breaks(target),
            Item::To { fd, append, gap, target } => lemma_word_without_breaks(target),
            Item::Text { gap, target } => lemma_word_without_breaks(target),
            Item::Copy { .. } => {},
        }
        assert forall|k: int| 0 <= k < source.len() implies #[trigger] source[k] != '\n' by {
            match item {
                Item::Word(word) => {},
                Item::From { fd, gap, target } => {
                    if k < fd.len() {
                        assert(is_digit(fd[k]));
                    } else if 1 <= k - fd.len() < 1 + gap.len() {
                        assert(is_blank(gap[k - fd.len() - 1]));
                    } else if k > fd.len() {
                        assert(source[k] == word_source(target)[k - fd.len() - 1 - gap.len()]);
                    }
                },
                Item::To { fd, append, gap, target } => {
                    let n = if append { 2int } else { 1 };
                    if k < fd.len() {
                        assert(is_digit(fd[k]));
                    } else if n <= k - fd.len() < n + gap.len() {
                        assert(is_blank(gap[k - fd.len() - n]));
                    } else if k - fd.len() >= n {
                        assert(source[k] == word_source(target)[k - fd.len() - n - gap.len()]);
                    }
                },
                Item::Copy { fd, out, of } => {
                    if k < fd.len() {
                        assert(is_digit(fd[k]));
                    } else if k - fd.len() >= 2 {
                        assert(is_digit(of[k - fd.len() - 2]));
                    }
                },
                Item::Text { gap, target } => {
                    if 3 <= k < 3 + gap.len() {
                        assert(is_blank(gap[k - 3]));
                    } else if k >= 3 {
                        assert(source[k] == word_source(target)[k - 3 - gap.len()]);
                    }
                },
            }
        }
        let all = items_source(items);
        assert forall|k: int| 0 <= k < all.len() implies #[trigger] all[k] != '\n' by {
            if 1 <= k < 1 + source.len() {
                assert(all[k] == source[k - 1]);
            } else if k > source.len() {
                assert(all[k] == items_source(rest)[k - 1 - source.len()]);
            }
        }
    }
}

proof fn lemma_word_without_breaks(word: Seq<Piece>)
    requires
        forall|k: int| 0 <= k < word.len() ==> can_be_written(#[trigger] word[k]),
    ensures
        forall|k: int| 0 <= k < word_source(word).len() ==> #[trigger] word_source(word)[k]
            != '\n',
    decreases word.len(),
{
    if word.len() > 0 {
        let piece = word[0];
        let rest = word.skip(1);
        assert(can_be_written(piece));
        assert forall|k: int| 0 <= k < rest.len() implies can_be_written(#[trigger] rest[k]) by {
            assert(rest[k] == word[k + 1]);
        }
        lemma_word_without_breaks(rest);
        let source = piece_source(piece);
        assert forall|k: int| 0 <= k < source.len() implies #[trigger] source[k] != '\n' by {
            match piece {
                Piece::Plain(t) => {
                    assert(is_plain_char(t[k]));
                },
                Piece::Single(t) => {
                    if 1 <= k <= t.len() {
                        assert(source[k] == t[k - 1]);
                    }
                },
                Piece::Double(t) => {
                    if 1 <= k <= t.len() {
                        assert(source[k] == t[k - 1]);
                    }
                },
            }
        }
        let all = word_source(word);
        assert forall|k: int| 0 <= k < all.len() implies #[trigger] all[k] != '\n' by {
            if k < source.len() {
                assert(all[k] == source[k]);
            } else {
                assert(all[k] == word_source(rest)[k - source.len()]);
            }
        }
    }
}

pub proof fn lemma_written_command(items: Seq<Item>, cwd: Place, home: Seq<char>)
    requires
        cwd.pending.len() == 0,
        items.len() > 0,
        forall|k: int| 0 <= k < items.len() ==> item_is_writable(#[trigger] items[k]),
    ensures
        ({
            let s = items_source(items);
            let one = simple_command(s, 1, parts_of(items, s.len() as int, cwd), cwd, home);
            &&& list_at(s, 0, cwd, home, false).found == one.found
            &&& list_at(s, 0, cwd, home, false).cwd == one.cwd
            &&& commands_from(s, cwd, home) == one.found
            &&& one.cwd.pending == cwd.pending
        }),
{
    let s = items_source(items);
    let n = s.len() as int;
    lemma_written_without_breaks(items);
    lemma_no_newline_stays(s);
    assert(holds_at(s, 0, s));
    lemma_all_items(s, 0, items, cwd, home);
    let one = simple_command(s, 1, parts_of(items, n, cwd), cwd, home);
    assert(s[1] != '\n');
    assert(skip_lines(s, 1) == 1);
    assert(skip_lines(s, 0) == 1);
    assert(one.end == n);
    assert(skip_blanks(s, n) == n);
    assert(one.cwd.pending == cwd.pending);
    let end = list_at(s, n, one.cwd, home, false);
    assert(end == (Scan { end: n, cwd: one.cwd, found: Seq::empty() })) by {
        lemma_skips(s, n);
    }
    assert(next_command(s, 1, n, false) == n);
    assert(one.found + Seq::<CommandView>::empty() =~= one.found);
}

proof fn lemma_first_char(item: Item)
    requires
        item_is_writable(item),
        item_source(item).len() > 0,
    ensures
        item_source(item)[0] != '\r',
{
    match item {
        Item::Word(word) => {
            lemma_word_first_char(word);
        },
        Item::From { fd, gap, target } => {
            if fd.len() > 0 {
                assert(is_digit(fd[0]));
            }
        },
        Item::To { fd, append, gap, target } => {
            if fd.len() > 0 {
                assert(is_digit(fd[0]));
            }
        },
        Item::Copy { fd, out, of } => {
            if fd.len() > 0 {
                assert(is_digit(fd[0]));
            }
        },
        Item::Text { gap, target } => {},
    }
}

proof fn lemma_word_first_char(word: Seq<Piece>)
    requires
        forall|k: int| 0 <= k < word.len() ==> can_be_written(#[trigger] word[k]),
        word_source(word).len() > 0,
    ensures
        word_source(word)[0] != '\r',
    decreases word.len(),
{
    let piece = word[0];
    let rest = word.skip(1);
    assert(can_be_written(piece));
    if piece_source(piece).len() == 0 {
        assert(piece_source(piece) + word_source(rest) =~= word_source(rest));
        assert forall|k: int| 0 <= k < rest.len() implies can_be_written(#[trigger] rest[k]) by {
            assert(rest[k] == word[k + 1]);
        }
        lemma_word_first_char(rest);
    } else if let Piece::Plain(t) = piece {
        assert(is_plain_char(t[0]));
    }
}

/// A simple command is listed as what is written: assignments, a name and arguments, and
/// redirections in any number anywhere among them, come out as one command with that name,
/// those arguments, and all those targets and assignments in order. It runs in the directory
/// of the shell. Behind a `cd` the arguments that are written as paths are resolved.
pub proof fn commands_are_listed_as_written(
    items: Seq<Item>,
    vars: Seq<Seq<char>>,
    name: Seq<char>,
    args: Seq<Seq<char>>,
    cwd: Place,
    home: Seq<char>,
)
    requires
        cwd.pending.len() == 0,
        forall|k: int| 0 <= k < items.len() ==> item_is_writable(#[trigger] items[k]),
        words_among(items) == vars + (seq![name] + args),
        forall|k: int| 0 <= k < vars.len() ==> is_assignment(#[trigger] vars[k]),
        is_no_assignment(name),
        !assigns(name),
        name != "cd"@,
    ensures
        ({
            let found = commands_from(items_source(items), cwd, home);
            &&& found.len() == 1
            &&& found[0].program == name
            &&& found[0].written == args
            &&& !cwd.moved ==> found[0].args == args
            &&& found[0].args.len() == args.len()
            &&& forall|k: int|
                0 <= k < args.len() ==> #[trigger] found[0].args[k] == (if cwd.moved
                    && is_path_argument(args[k]) {
                    if resolved(cwd.dir, args[k], home).len() > 0 {
                        resolved(cwd.dir, args[k], home)
                    } else {
                        seq!['.']
                    }
                } else {
                    args[k]
                })
            &&& found[0].effective_cwd == cwd.dir
            &&& found[0].moved == cwd.moved
            &&& found[0].redirects_in == inputs_among(items)
            &&& found[0].redirects_out == outputs_among(items)
            &&& found[0].env_vars == vars
            &&& found[0].raw == trimmed(items_source(items).skip(1))
        }),
{
    assert(words_among(items).len() > 0);
    lemma_written_command(items, cwd, home);
    assignments_in_front_are_kept_aside(vars, name, args);
    assert((seq![name] + args).drop_first() =~= args);
    let found = commands_from(items_source(items), cwd, home);
    let text = items_source(items);
    assert(text.subrange(1, text.len() as int) =~= text.skip(1));
    assert(found[0].args =~= arguments(cwd, args, home));
    if !cwd.moved {
        assert(found[0].args =~= args);
    }
}

/// Assignments without a command are listed as one command without a name, with all the
/// assignments and all the targets of redirections in order.
pub proof fn bare_assignments_are_listed(
    items: Seq<Item>,
    cwd: Place,
    home: Seq<char>,
)
    requires
        cwd.pending.len() == 0,
        forall|k: int| 0 <= k < items.len() ==> item_is_writable(#[trigger] items[k]),
        words_among(items).len() > 0,
        forall|k: int|
            0 <= k < words_among(items).len() ==> is_assignment(#[trigger] words_among(items)[k]),
    ensures
        ({
            let s = items_source(items);
            let found = commands_from(s, cwd, home);
            &&& found.len() == 1
            &&& found[0].program.len() == 0
            &&& found[0].args.len() == 0
            &&& found[0].written.len() == 0
            &&& found[0].env_vars == words_among(items)
            &&& found[0].redirects_in == inputs_among(items)
            &&& found[0].redirects_out == outputs_among(items)
            &&& found[0].effective_cwd == cwd.dir
            &&& found[0].moved == cwd.moved
            &&& found[0].raw == trimmed(s.skip(1))
        }),
{
    let s = items_source(items);
    lemma_written_command(items, cwd, home);
    assert(!seq!['x'].contains('='));
    lemma_no_assignment(seq!['x']);
    assert(!assigns(seq!['x'])) by {
        if assigns(seq!['x']) {
            reveal_strlit("export");
            reveal_strlit("local");
            reveal_strlit("declare");
            reveal_strlit("typeset");
            reveal_strlit("readonly");
            assert(seq!['x'].len() == 1);
        }
    }
    assignments_in_front_are_kept_aside(words_among(items), seq!['x'], Seq::empty());
    assert(s.subrange(1, s.len() as int) =~= s.skip(1));
}

/// `cd` with a directory leads the shell there, and without one home; it is not listed, and
/// it leads nowhere where it stands in front of nothing.
pub proof fn cd_leads_the_shell(
    items: Seq<Item>,
    vars: Seq<Seq<char>>,
    args: Seq<Seq<char>>,
    cwd: Place,
    home: Seq<char>,
)
    requires
        cwd.pending.len() == 0,
        forall|k: int| 0 <= k < items.len() ==> item_is_writable(#[trigger] items[k]),
        words_among(items) == vars + (seq!["cd"@] + args),
        forall|k: int| 0 <= k < vars.len() ==> is_assignment(#[trigger] vars[k]),
    ensures
        ({
            let read = list_at(items_source(items), 0, cwd, home, false);
            &&& commands_from(items_source(items), cwd, home).len() == 0
            &&& read.cwd.moved
            &&& read.cwd.pending == cwd.pending
            &&& args.len() == 0 ==> read.cwd.dir == home
            &&& args.len() > 0 ==> read.cwd.dir == resolved(cwd.dir, args[0], home)
        }),
{
    assert(words_among(items).len() > 0);
    lemma_written_command(items, cwd, home);
    reveal_strlit("cd");
    assert("cd"@ =~= seq!['c', 'd']);
    assert(!"cd"@.contains('='));
    lemma_no_assignment("cd"@);
    assert(!assigns("cd"@)) by {
        if assigns("cd"@) {
            lemma_assigns("cd"@);
        }
    }
    assignments_in_front_are_kept_aside(vars, "cd"@, args);
    assert((seq!["cd"@] + args).drop_first() =~= args);
}

/// Assignments behind `export`, `local`, `declare`, `typeset` or `readonly` are listed as
/// bare assignments are; the builtin and its flags are no part of them.
pub proof fn assigning_builtins_are_listed(
    items: Seq<Item>,
    builtin: Seq<char>,
    flag: Seq<char>,
    vars: Seq<Seq<char>>,
    cwd: Place,
    home: Seq<char>,
)
    requires
        cwd.pending.len() == 0,
        forall|k: int| 0 <= k < items.len() ==> item_is_writable(#[trigger] items[k]),
        assigns(builtin),
        flag.len() > 0,
        flag[0] == '-',
        vars.len() > 0,
        forall|k: int| 0 <= k < vars.len() ==> is_assignment(#[trigger] vars[k]),
        words_among(items) == seq![builtin] + vars || words_among(items) == seq![builtin, flag]
            + vars,
    ensures
        ({
            let found = commands_from(items_source(items), cwd, home);
            &&& found.len() == 1
            &&& found[0].program.len() == 0
            &&& found[0].args.len() == 0
            &&& found[0].written.len() == 0
            &&& found[0].env_vars == vars
            &&& found[0].redirects_in == inputs_among(items)
            &&& found[0].redirects_out == outputs_among(items)
            &&& found[0].effective_cwd == cwd.dir
        }),
{
    assert(words_among(items).len() > 0);
    lemma_written_command(items, cwd, home);
    reveal_strlit("export");
    reveal_strlit("local");
    reveal_strlit("declare");
    reveal_strlit("typeset");
    reveal_strlit("readonly");
    assert(seq!['x'].len() == 1);
    assigning_builtins_run_nothing(builtin, flag, seq!['x'], vars);
}

/// A word ends where a redirection begins, with or without a blank between them: it is a
/// word of the command, unless it is a number, which names what is redirected.
pub proof fn words_end_at_a_redirection(
    s: Seq<char>,
    i: int,
    word: Seq<Piece>,
    cwd: Place,
    home: Seq<char>,
    acc: Parts,
)
    requires
        is_writable(word),
        holds_at(s, i, word_source(word)),
        ({
            let e = i + word_source(word).len();
            e < s.len() && (s[e] == '<' || s[e] == '>')
        }),
    ensures
        ({
            let e = i + word_source(word).len();
            &&& !all_digits(word_text(word)) ==> parts_at(s, i, cwd, home, acc) == parts_at(
                s,
                e,
                cwd,
                home,
                Parts { words: acc.words.push(word_text(word)), ..acc },
            )
            &&& all_digits(word_text(word)) ==> parts_at(s, i, cwd, home, acc) == parts_at(
                s,
                e,
                cwd,
                home,
                acc,
            )
        }),
{
    let e = i + word_source(word).len();
    lemma_word_starts(word);
    assert(s[i + 0] == word_source(word)[0]);
    lemma_word(s, i, word, cwd, home);
    assert(skip_blanks(s, i) == i);
    let read = word_at(s, i, cwd, home);
    assert(is_fd_prefix(s, read) <==> all_digits(read.text)) by {
        if all_digits(read.text) {
            assert forall|k: int| 0 <= k < read.text.len() implies is_digit(
                #[trigger] read.text[k],
            ) by {}
        }
    }
    assert(acc.found + read.found =~= acc.found);
    assert(awaiting(cwd, cwd.pending) == cwd);
    assert((Parts {
        words: acc.words.push(word_text(word)),
        found: acc.found + read.found,
        ..acc
    }) == (Parts { words: acc.words.push(word_text(word)), ..acc }));
    assert((Parts { found: acc.found + read.found, ..acc }) == acc);
}

/// What characters mean to a shell: a space and a tab separate words; `;`, `&`, `|`, `)`, `}`
/// and a line break end a command; `<` and `>` redirect. Letters, digits and the characters
/// of paths and flags are no more than themselves.
pub proof fn characters_have_their_meaning(c: char)
    ensures
        is_blank(c) <==> c == ' ' || c == '\t',
        ends_command(c) <==> c == ';' || c == '&' || c == '|' || c == ')' || c == '}' || c == '\n',
        ends_word(c) <==> is_blank(c) || ends_command(c) || c == '<' || c == '>',
        is_digit(c) <==> '0' <= c <= '9',
        'a' <= c <= 'z' || 'A' <= c <= 'Z' || '0' <= c <= '9' || c == '_' ==> is_name_char(c),
        c == '-' || c == '=' || c == '/' || c == '.' || c == '$' || c == ' ' ==> !is_name_char(c),
        'a' <= c <= 'z' || 'A' <= c <= 'Z' || '0' <= c <= '9' || c == '_' || c == '-' || c == '/'
            || c == '.' || c == '=' || c == ':' || c == ',' || c == '@' || c == '%' || c == '+' || c
            == '~' || c == '*' || c == '?' || c == '[' || c == ']' || c == '!' || c == '#' || c
            == '^' || c == '$' || c == '\\' ==> is_plain_char(c) && !is_blank(c),
        c == '\'' || c == '"' || c == '`' || c == '(' || c == ')' || c == '{' || c == '}' || c
            == ';' || c == '&' || c == '|' || c == '<' || c == '>' || c == '\n' ==> !is_plain_char(
            c,
        ),
{
}

} // verus!

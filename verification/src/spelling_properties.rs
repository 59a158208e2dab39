//! How tokens are spelled: what is spelled out is what is read.
use vstd::prelude::*;
use crate::command_properties::{holds_at, lemma_holds_both};
use crate::error::ErrorView;
use crate::lexer::{
    close_at, digits_end, flag_end, name_end, token_at, token_then, tokens_from, tokens_of,
    unescaped, word_token, SpannedView, TokenAt, TokenView,
};
use crate::text::{decimal, find_from, is_ascii_letter, is_digit, is_name_char};
use crate::text_properties::numbers_read_as_written;

verus! {

/// How a character is written in a string literal.
pub open spec fn in_quotes(c: char) -> Seq<char> {
    if c == '\n' {
        seq!['\\', 'n']
    } else if c == '\t' {
        seq!['\\', 't']
    } else if c == '"' {
        seq!['\\', '"']
    } else if c == '\\' {
        seq!['\\', '\\']
    } else {
        seq![c]
    }
}

/// How a text is written in a string literal.
pub open spec fn quoted_text(t: Seq<char>) -> Seq<char>
    decreases t.len(),
{
    if t.len() == 0 {
        Seq::empty()
    } else {
        in_quotes(t[0]) + quoted_text(t.skip(1))
    }
}

/// How a token is spelled.
pub open spec fn spelling(token: TokenView) -> Seq<char> {
    match token {
        TokenView::Let => "let"@,
        TokenView::Table => "table"@,
        TokenView::Default => "default"@,
        TokenView::Opts => "opts"@,
        TokenView::Skip => "skip"@,
        TokenView::Flag => "flag"@,
        TokenView::Evaluate => "evaluate"@,
        TokenView::Forward => "forward"@,
        TokenView::Allow => "allow"@,
        TokenView::Deny => "deny"@,
        TokenView::Passthrough => "passthrough"@,
        TokenView::Force => "force"@,
        TokenView::Entry => "entry"@,
        TokenView::Audit => "audit"@,
        TokenView::Arrow => seq!['-', '>'],
        TokenView::LBrace => seq!['{'],
        TokenView::RBrace => seq!['}'],
        TokenView::LBracket => seq!['['],
        TokenView::RBracket => seq![']'],
        TokenView::Comma => seq![','],
        TokenView::Bang => seq!['!'],
        TokenView::Equals => seq!['='],
        TokenView::Regex(p) => seq!['/'] + p + seq!['/'],
        TokenView::Str(t) => seq!['"'] + quoted_text(t) + seq!['"'],
        TokenView::VarRef(name) => seq!['$'] + name,
        TokenView::Ident(w) => w,
        TokenView::FlagLit(f) => f,
        TokenView::Number(n) => decimal(n),
        TokenView::Newline => seq!['\n'],
    }
}

/// Whether a word is one of the keywords.
pub open spec fn is_keyword(w: Seq<char>) -> bool {
    w == "let"@ || w == "table"@ || w == "default"@ || w == "opts"@ || w == "skip"@ || w
        == "flag"@ || w == "evaluate"@ || w == "forward"@ || w == "allow"@ || w == "deny"@ || w
        == "passthrough"@ || w == "force"@ || w == "entry"@ || w == "audit"@
}

/// Whether a text is a word: a letter or `_`, and then letters, digits and `_`.
pub open spec fn is_word(w: Seq<char>) -> bool {
    &&& w.len() > 0
    &&& is_ascii_letter(w[0]) || w[0] == '_'
    &&& forall|k: int| 0 <= k < w.len() ==> is_name_char(#[trigger] w[k])
}

/// Whether a token can be spelled out as it is.
pub open spec fn can_be_spelled(token: TokenView) -> bool {
    match token {
        TokenView::Regex(p) => forall|k: int|
            0 <= k < p.len() ==> #[trigger] p[k] != '/' && p[k] != '\\',
        TokenView::VarRef(name) => name.len() > 0 && forall|k: int|
            0 <= k < name.len() ==> is_name_char(#[trigger] name[k]),
        TokenView::Ident(w) => is_word(w) && !is_keyword(w),
        TokenView::FlagLit(f) => f.len() > 1 && f[0] == '-' && (is_ascii_letter(f[1]) || is_digit(
            f[1],
        )) && forall|k: int| 1 <= k < f.len() ==> is_name_char(#[trigger] f[k]) || f[k] == '-',
        TokenView::Number(n) => n <= usize::MAX,
        TokenView::Newline => false,
        _ => true,
    }
}

/// Whether a token ends at a position: with a blank, with the line or with the text.
pub open spec fn token_ends(s: Seq<char>, e: int) -> bool {
    e == s.len() || 0 <= e < s.len() && (s[e] == ' ' || s[e] == '\n')
}

proof fn lemma_keywords(w: Seq<char>)
    requires
        is_keyword(w),
    ensures
        is_word(w),
        w[0] != 'r',
{
    reveal_strlit("let");
    reveal_strlit("table");
    reveal_strlit("default");
    reveal_strlit("opts");
    reveal_strlit("skip");
    reveal_strlit("flag");
    reveal_strlit("evaluate");
    reveal_strlit("forward");
    reveal_strlit("allow");
    reveal_strlit("deny");
    reveal_strlit("passthrough");
    reveal_strlit("force");
    reveal_strlit("entry");
    reveal_strlit("audit");
    if w == "let"@ {
        assert(w =~= seq!['l', 'e', 't']);
    } else if w == "table"@ {
        assert(w =~= seq!['t', 'a', 'b', 'l', 'e']);
    } else if w == "default"@ {
        assert(w =~= seq!['d', 'e', 'f', 'a', 'u', 'l', 't']);
    } else if w == "opts"@ {
        assert(w =~= seq!['o', 'p', 't', 's']);
    } else if w == "skip"@ {
        assert(w =~= seq!['s', 'k', 'i', 'p']);
    } else if w == "flag"@ {
        assert(w =~= seq!['f', 'l', 'a', 'g']);
    } else if w == "evaluate"@ {
        assert(w =~= seq!['e', 'v', 'a', 'l', 'u', 'a', 't', 'e']);
    } else if w == "forward"@ {
        assert(w =~= seq!['f', 'o', 'r', 'w', 'a', 'r', 'd']);
    } else if w == "allow"@ {
        assert(w =~= seq!['a', 'l', 'l', 'o', 'w']);
    } else if w == "deny"@ {
        assert(w =~= seq!['d', 'e', 'n', 'y']);
    } else if w == "passthrough"@ {
        assert(w =~= seq!['p', 'a', 's', 's', 't', 'h', 'r', 'o', 'u', 'g', 'h']);
    } else if w == "force"@ {
        assert(w =~= seq!['f', 'o', 'r', 'c', 'e']);
    } else if w == "entry"@ {
        assert(w =~= seq!['e', 'n', 't', 'r', 'y']);
    } else {
        assert(w =~= seq!['a', 'u', 'd', 'i', 't']);
    }
}

proof fn lemma_keyword_tokens()
    ensures
        word_token("let"@) == TokenView::Let,
        word_token("table"@) == TokenView::Table,
        word_token("default"@) == TokenView::Default,
        word_token("opts"@) == TokenView::Opts,
        word_token("skip"@) == TokenView::Skip,
        word_token("flag"@) == TokenView::Flag,
        word_token("evaluate"@) == TokenView::Evaluate,
        word_token("forward"@) == TokenView::Forward,
        word_token("allow"@) == TokenView::Allow,
        word_token("deny"@) == TokenView::Deny,
        word_token("passthrough"@) == TokenView::Passthrough,
        word_token("force"@) == TokenView::Force,
        word_token("entry"@) == TokenView::Entry,
        word_token("audit"@) == TokenView::Audit,
{
    reveal_strlit("let");
    reveal_strlit("table");
    reveal_strlit("default");
    reveal_strlit("opts");
    reveal_strlit("skip");
    reveal_strlit("flag");
    reveal_strlit("evaluate");
    reveal_strlit("forward");
    reveal_strlit("allow");
    reveal_strlit("deny");
    reveal_strlit("passthrough");
    reveal_strlit("force");
    reveal_strlit("entry");
    reveal_strlit("audit");
    assert("let"@.len() == 3 && "table"@.len() == 5 && "default"@.len() == 7 && "opts"@.len() == 4
        && "skip"@.len() == 4 && "flag"@.len() == 4 && "evaluate"@.len() == 8 && "forward"@.len()
        == 7 && "allow"@.len() == 5 && "deny"@.len() == 4 && "passthrough"@.len() == 11
        && "force"@.len() == 5 && "entry"@.len() == 5 && "audit"@.len() == 5);
    assert("table"@[0] == 't' && "allow"@[0] == 'a' && "force"@[0] == 'f' && "entry"@[0] == 'e'
        && "audit"@[0] == 'a' && "allow"@[1] == 'l' && "audit"@[1] == 'u');
    assert("default"@[0] == 'd' && "forward"@[0] == 'f');
    assert("opts"@[0] == 'o' && "skip"@[0] == 's' && "flag"@[0] == 'f' && "deny"@[0] == 'd');
}

proof fn lemma_name_run(s: Seq<char>, i: int, e: int)
    requires
        0 <= i <= e <= s.len(),
        forall|k: int| i <= k < e ==> is_name_char(#[trigger] s[k]),
        token_ends(s, e),
    ensures
        name_end(s, i) == e,
    decreases e - i,
{
    if i < e {
        assert(is_name_char(s[i]));
        lemma_name_run(s, i + 1, e);
    }
}

proof fn lemma_flag_run(s: Seq<char>, i: int, e: int)
    requires
        0 <= i <= e <= s.len(),
        forall|k: int| i <= k < e ==> is_name_char(#[trigger] s[k]) || s[k] == '-',
        token_ends(s, e),
    ensures
        flag_end(s, i) == e,
    decreases e - i,
{
    if i < e {
        assert(is_name_char(s[i]) || s[i] == '-');
        lemma_flag_run(s, i + 1, e);
    }
}

proof fn lemma_digit_run(s: Seq<char>, i: int, e: int)
    requires
        0 <= i <= e <= s.len(),
        forall|k: int| i <= k < e ==> is_digit(#[trigger] s[k]),
        token_ends(s, e),
    ensures
        digits_end(s, i) == e,
    decreases e - i,
{
    if i < e {
        assert(is_digit(s[i]));
        lemma_digit_run(s, i + 1, e);
    }
}

proof fn lemma_plain_close(s: Seq<char>, i: int, e: int, quote: char)
    requires
        0 <= i <= e < s.len(),
        forall|k: int| i <= k < e ==> #[trigger] s[k] != quote && s[k] != '\\',
        s[e] == quote,
    ensures
        close_at(s, i, quote) == e,
    decreases e - i,
{
    if i < e {
        lemma_plain_close(s, i + 1, e, quote);
    }
}

proof fn lemma_quoted(s: Seq<char>, i: int, t: Seq<char>)
    requires
        holds_at(s, i, quoted_text(t) + seq!['"']),
    ensures
        close_at(s, i, '"') == i + quoted_text(t).len(),
        unescaped(quoted_text(t)) == t,
    decreases t.len(),
{
    let quote = seq!['"'];
    lemma_holds_both(s, i, quoted_text(t), quote);
    if t.len() == 0 {
        assert(s[i + 0] == quote[0]);
        assert(t =~= Seq::empty());
    } else {
        let first = in_quotes(t[0]);
        let rest = t.skip(1);
        let tail = quoted_text(rest);
        assert(quoted_text(t) + quote =~= first + (tail + quote));
        lemma_holds_both(s, i, first, tail + quote);
        lemma_quoted(s, i + first.len(), rest);
        assert(s[i + 0] == first[0]);
        let all = quoted_text(t);
        assert(all[0] == first[0]);
        if first.len() == 2 {
            assert(all[1] == first[1]);
            assert(all.skip(2) =~= tail);
        } else {
            assert(all.skip(1) =~= tail);
        }
        assert(seq![t[0]] + rest =~= t);
    }
}

proof fn lemma_word_spelled(s: Seq<char>, i: int, w: Seq<char>)
    requires
        is_word(w),
        holds_at(s, i, w),
        token_ends(s, i + w.len()),
    ensures
        token_at(s, i) == TokenAt::Found(word_token(w), i + w.len()),
        s[i] == w[0],
{
    let e = i + w.len();
    assert(s[i + 0] == w[0]);
    assert(is_name_char(w[0]));
    assert forall|k: int| i <= k < e implies is_name_char(#[trigger] s[k]) by {
        assert(s[i + (k - i)] == w[k - i]);
    }
    lemma_name_run(s, i, e);
    assert(s.subrange(i, e) =~= w) by {
        let own = s.subrange(i, e);
        assert forall|k: int| 0 <= k < own.len() implies own[k] == w[k] by {
            assert(s[i + k] == w[k]);
        }
    }
    if i + 1 < s.len() {
        if w.len() > 1 {
            assert(s[i + 1] == w[1]);
            assert(is_name_char(w[1]));
        }
    }
}

/// A token reads as it is spelled: keywords, symbols, patterns, strings with their escapes,
/// references to variables, words, flags and numbers.
pub proof fn tokens_read_as_spelled(s: Seq<char>, i: int, token: TokenView)
    requires
        can_be_spelled(token),
        holds_at(s, i, spelling(token)),
        token_ends(s, i + spelling(token).len()),
    ensures
        token_at(s, i) == TokenAt::Found(token, i + spelling(token).len()),
        spelling(token).len() > 0,
        s[i] != ' ' && s[i] != '\t' && s[i] != '\r' && s[i] != '\n' && s[i] != '#',
{
    let w = spelling(token);
    let e = i + w.len();
    if is_keyword(w) && !(token is Ident) && !(token is Regex) && !(token is Str)
        && !(token is VarRef) && !(token is FlagLit) && !(token is Number) {
        lemma_keywords(w);
        lemma_keyword_tokens();
        lemma_word_spelled(s, i, w);
    } else {
        match token {
            TokenView::Ident(name) => {
                lemma_word_spelled(s, i, name);
            },
            TokenView::Arrow => {
                assert(s[i + 0] == w[0] && s[i + 1] == w[1]);
            },
            TokenView::Regex(p) => {
                let n = p.len() as int;
                assert(s[i + 0] == w[0]);
                assert(s[i + (n + 1)] == w[n + 1]);
                assert forall|k: int| i + 1 <= k < i + n + 1 implies #[trigger] s[k] != '/' && s[k]
                    != '\\' by {
                    assert(s[i + (k - i)] == w[k - i]);
                    assert(w[k - i] == p[k - i - 1]);
                }
                lemma_plain_close(s, i + 1, i + n + 1, '/');
                let own = s.subrange(i + 1, i + n + 1);
                assert forall|k: int| 0 <= k < own.len() implies own[k] == p[k] by {
                    assert(s[i + (k + 1)] == w[k + 1]);
                }
                assert(own =~= p);
            },
            TokenView::Str(t) => {
                let q = quoted_text(t);
                let n = q.len() as int;
                assert(s[i + 0] == w[0]);
                assert(w =~= seq!['"'] + (q + seq!['"']));
                lemma_holds_both(s, i, seq!['"'], q + seq!['"']);
                lemma_quoted(s, i + 1, t);
                let own = s.subrange(i + 1, i + n + 1);
                assert forall|k: int| 0 <= k < own.len() implies own[k] == q[k] by {
                    assert(s[i + (k + 1)] == w[k + 1]);
                }
                assert(own =~= q);
            },
            TokenView::VarRef(name) => {
                assert(s[i + 0] == w[0]);
                assert forall|k: int| i + 1 <= k < e implies is_name_char(#[trigger] s[k]) by {
                    assert(s[i + (k - i)] == w[k - i]);
                    assert(is_name_char(name[k - i - 1]));
                }
                lemma_name_run(s, i + 1, e);
                let own = s.subrange(i + 1, e);
                assert forall|k: int| 0 <= k < own.len() implies own[k] == name[k] by {
                    assert(s[i + (k + 1)] == w[k + 1]);
                }
                assert(own =~= name);
            },
            TokenView::FlagLit(f) => {
                assert(s[i + 0] == f[0] && s[i + 1] == f[1]);
                assert forall|k: int| i + 1 <= k < e implies is_name_char(#[trigger] s[k]) || s[k]
                    == '-' by {
                    assert(s[i + (k - i)] == f[k - i]);
                }
                lemma_flag_run(s, i + 1, e);
                let own = s.subrange(i, e);
                assert forall|k: int| 0 <= k < own.len() implies own[k] == f[k] by {
                    assert(s[i + k] == f[k]);
                }
                assert(own =~= f);
            },
            TokenView::Number(n) => {
                numbers_read_as_written(n);
                assert(s[i + 0] == w[0]);
                assert(is_digit(w[0]));
                assert forall|k: int| i <= k < e implies is_digit(#[trigger] s[k]) by {
                    assert(s[i + (k - i)] == w[k - i]);
                }
                lemma_digit_run(s, i, e);
                let own = s.subrange(i, e);
                assert forall|k: int| 0 <= k < own.len() implies own[k] == w[k] by {
                    assert(s[i + k] == w[k]);
                }
                assert(own =~= w);
            },
            _ => {
                assert(s[i + 0] == w[0]);
            },
        }
    }
}

/// Tokens spelled out one after the other, with a space behind each; line breaks stand for
/// themselves.
pub open spec fn spelled_out(tokens: Seq<TokenView>) -> Seq<char>
    decreases tokens.len(),
{
    if tokens.len() == 0 {
        Seq::empty()
    } else {
        (if tokens[0] is Newline {
            seq!['\n']
        } else {
            spelling(tokens[0]) + seq![' ']
        }) + spelled_out(tokens.skip(1))
    }
}

/// Whether tokens can be spelled out one after the other: no line break follows another.
pub open spec fn can_all_be_spelled(tokens: Seq<TokenView>) -> bool {
    &&& forall|k: int|
        0 <= k < tokens.len() ==> (#[trigger] tokens[k]) is Newline || can_be_spelled(tokens[k])
    &&& forall|k: int|
        0 <= k && k + 1 < tokens.len() ==> !((#[trigger] tokens[k]) is Newline && tokens[k
            + 1] is Newline)
}

/// Whether tokens that were read are those that were spelled out.
pub open spec fn reads_as(
    read: Result<Seq<SpannedView>, ErrorView>,
    tokens: Seq<TokenView>,
) -> bool {
    &&& read is Ok
    &&& read->Ok_0.len() == tokens.len()
    &&& forall|k: int| 0 <= k < tokens.len() ==> (#[trigger] read->Ok_0[k]).token == tokens[k]
}

proof fn lemma_spelled_out(
    s: Seq<char>,
    i: int,
    line: nat,
    col: nat,
    broken: bool,
    tokens: Seq<TokenView>,
)
    requires
        can_all_be_spelled(tokens),
        holds_at(s, i, spelled_out(tokens)),
        i + spelled_out(tokens).len() == s.len(),
        broken && tokens.len() > 0 ==> !(tokens[0] is Newline),
    ensures
        reads_as(tokens_from(s, i, line, col, broken), tokens),
    decreases tokens.len(),
{
    if tokens.len() > 0 {
        let token = tokens[0];
        let rest = tokens.skip(1);
        assert(token is Newline || can_be_spelled(token));
        assert(can_all_be_spelled(rest)) by {
            assert forall|k: int| 0 <= k < rest.len() implies (#[trigger] rest[k]) is Newline
                || can_be_spelled(rest[k]) by {
                assert(rest[k] == tokens[k + 1]);
            }
            assert forall|k: int| 0 <= k && k + 1 < rest.len() implies !((
            #[trigger] rest[k]) is Newline && rest[k + 1] is Newline) by {
                assert(rest[k] == tokens[k + 1]);
                assert(rest[k + 1] == tokens[k + 2]);
            }
        }
        if rest.len() > 0 {
            assert(rest[0] == tokens[0int + 1]);
        }
        let all = tokens_from(s, i, line, col, broken);
        if token is Newline {
            lemma_holds_both(s, i, seq!['\n'], spelled_out(rest));
            assert(s[i + 0] == seq!['\n'][0]);
            lemma_spelled_out(s, i + 1, line + 1, 1, true, rest);
            let more = tokens_from(s, i + 1, line + 1, 1, true);
            assert(all == token_then(TokenView::Newline, line, col, more));
            assert forall|k: int| 0 <= k < tokens.len() implies (#[trigger] all->Ok_0[k]).token
                == tokens[k] by {
                if k > 0 {
                    assert(all->Ok_0[k] == more->Ok_0[k - 1]);
                    assert(rest[k - 1] == tokens[k]);
                }
            }
        } else {
            let w = spelling(token);
            let e = i + w.len();
            lemma_holds_both(s, i, w + seq![' '], spelled_out(rest));
            lemma_holds_both(s, i, w, seq![' ']);
            assert(s[e + 0] == seq![' '][0]);
            tokens_read_as_spelled(s, i, token);
            let there = (col + (e - i)) as nat;
            lemma_spelled_out(s, e + 1, line, there + 1, false, rest);
            let more = tokens_from(s, e + 1, line, there + 1, false);
            assert(tokens_from(s, e, line, there, false) == more);
            assert(all == token_then(token, line, col, more));
            assert forall|k: int| 0 <= k < tokens.len() implies (#[trigger] all->Ok_0[k]).token
                == tokens[k] by {
                if k > 0 {
                    assert(all->Ok_0[k] == more->Ok_0[k - 1]);
                    assert(rest[k - 1] == tokens[k]);
                }
            }
        }
    }
}

/// A text reads as the tokens that it spells out, all of them and in order.
pub proof fn texts_read_as_spelled(tokens: Seq<TokenView>)
    requires
        can_all_be_spelled(tokens),
    ensures
        reads_as(tokens_of(spelled_out(tokens)), tokens),
{
    lemma_spelled_out(spelled_out(tokens), 0, 1, 1, false, tokens);
}

/// Other ways to spell a token: `→` for the arrow, `r"..."` for a pattern that holds slashes
/// or backslashes, and in `/.../` a slash behind a backslash, which both stay in the pattern.
/// A tab, a carriage return and a comment separate tokens as a space does.
pub proof fn tokens_have_other_spellings(
    s: Seq<char>,
    i: int,
    p: Seq<char>,
    line: nat,
    col: nat,
    broken: bool,
)
    requires
        0 <= i,
    ensures
        holds_at(s, i, seq!['\u{2192}']) ==> token_at(s, i) == TokenAt::Found(
            TokenView::Arrow,
            i + 1,
        ),
        holds_at(s, i, seq!['r', '"'] + p + seq!['"']) && !p.contains('"') ==> token_at(s, i)
            == TokenAt::Found(TokenView::Regex(p), i + p.len() + 3),
        holds_at(s, i, seq!['/'] + (p + seq!['\\', '/']) + seq!['/']) && (forall|k: int|
            0 <= k < p.len() ==> #[trigger] p[k] != '/' && p[k] != '\\') ==> token_at(s, i)
            == TokenAt::Found(TokenView::Regex(p + seq!['\\', '/']), i + p.len() + 4),
        i < s.len() && (s[i] == ' ' || s[i] == '\t' || s[i] == '\r') ==> tokens_from(
            s,
            i,
            line,
            col,
            broken,
        ) == tokens_from(s, i + 1, line, col + 1, broken),
{
    if holds_at(s, i, seq!['\u{2192}']) {
        assert(s[i + 0] == seq!['\u{2192}'][0]);
    }
    let raw = seq!['r', '"'] + p + seq!['"'];
    if holds_at(s, i, raw) && !p.contains('"') {
        let n = p.len() as int;
        assert(s[i + 0] == raw[0] && s[i + 1] == raw[1] && s[i + (n + 2)] == raw[n + 2]);
        assert forall|k: int| i + 2 <= k < i + n + 2 implies #[trigger] s[k] != '"' by {
            assert(s[i + (k - i)] == raw[k - i]);
            assert(p.contains(p[k - i - 2]));
        }
        lemma_found(s, i + 2, i + n + 2, '"');
        let own = s.subrange(i + 2, i + n + 2);
        assert forall|k: int| 0 <= k < own.len() implies own[k] == p[k] by {
            assert(s[i + (k + 2)] == raw[k + 2]);
        }
        assert(own =~= p);
    }
    let body = p + seq!['\\', '/'];
    let slashed = seq!['/'] + body + seq!['/'];
    if holds_at(s, i, slashed) && (forall|k: int|
        0 <= k < p.len() ==> #[trigger] p[k] != '/' && p[k] != '\\') {
        let n = p.len() as int;
        assert(s[i + 0] == slashed[0]);
        assert(s[i + (n + 1)] == slashed[n + 1] && s[i + (n + 2)] == slashed[n + 2] && s[i + (n
            + 3)] == slashed[n + 3]);
        assert forall|k: int| i + 1 <= k < i + n + 1 implies #[trigger] s[k] != '/' && s[k]
            != '\\' by {
            assert(s[i + (k - i)] == slashed[k - i]);
            assert(slashed[k - i] == p[k - i - 1]);
        }
        lemma_escaped_close(s, i + 1, i + n + 1, '/');
        let own = s.subrange(i + 1, i + n + 3);
        assert forall|k: int| 0 <= k < own.len() implies own[k] == body[k] by {
            assert(s[i + (k + 1)] == slashed[k + 1]);
        }
        assert(own =~= body);
    }
}

proof fn lemma_found(s: Seq<char>, i: int, e: int, c: char)
    requires
        0 <= i <= e < s.len(),
        forall|k: int| i <= k < e ==> #[trigger] s[k] != c,
        s[e] == c,
    ensures
        find_from(s, i, c) == e,
    decreases e - i,
{
    if i < e {
        lemma_found(s, i + 1, e, c);
    }
}

proof fn lemma_escaped_close(s: Seq<char>, i: int, e: int, quote: char)
    requires
        0 <= i <= e,
        e + 2 < s.len(),
        quote != '\\',
        forall|k: int| i <= k < e ==> #[trigger] s[k] != quote && s[k] != '\\',
        s[e] == '\\',
        s[e + 2] == quote,
    ensures
        close_at(s, i, quote) == e + 2,
    decreases e - i,
{
    if i < e {
        lemma_escaped_close(s, i + 1, e, quote);
    } else {
        assert(close_at(s, e + 2, quote) == e + 2);
    }
}

/// Tokens that are spelled out, with their places: a line break leads to the first column of
/// the next line, and any other token, with the space behind it, takes as many columns as it
/// has characters.
pub open spec fn with_places(tokens: Seq<TokenView>, line: nat, col: nat) -> Seq<SpannedView>
    decreases tokens.len(),
{
    if tokens.len() == 0 {
        Seq::empty()
    } else {
        seq![SpannedView { token: tokens[0], line, col }] + (if tokens[0] is Newline {
            with_places(tokens.skip(1), line + 1, 1)
        } else {
            with_places(tokens.skip(1), line, col + spelling(tokens[0]).len() + 1)
        })
    }
}

proof fn lemma_places(
    s: Seq<char>,
    i: int,
    line: nat,
    col: nat,
    broken: bool,
    tokens: Seq<TokenView>,
)
    requires
        can_all_be_spelled(tokens),
        holds_at(s, i, spelled_out(tokens)),
        i + spelled_out(tokens).len() == s.len(),
        broken && tokens.len() > 0 ==> !(tokens[0] is Newline),
    ensures
        tokens_from(s, i, line, col, broken) == Ok::<Seq<SpannedView>, ErrorView>(
            with_places(tokens, line, col),
        ),
    decreases tokens.len(),
{
    if tokens.len() > 0 {
        let token = tokens[0];
        let rest = tokens.skip(1);
        assert(token is Newline || can_be_spelled(token));
        assert(can_all_be_spelled(rest)) by {
            assert forall|k: int| 0 <= k < rest.len() implies (#[trigger] rest[k]) is Newline
                || can_be_spelled(rest[k]) by {
                assert(rest[k] == tokens[k + 1]);
            }
            assert forall|k: int| 0 <= k && k + 1 < rest.len() implies !((
            #[trigger] rest[k]) is Newline && rest[k + 1] is Newline) by {
                assert(rest[k] == tokens[k + 1]);
                assert(rest[k + 1] == tokens[k + 2]);
            }
        }
        if rest.len() > 0 {
            assert(rest[0] == tokens[0int + 1]);
        }
        if token is Newline {
            lemma_holds_both(s, i, seq!['\n'], spelled_out(rest));
            assert(s[i + 0] == seq!['\n'][0]);
            lemma_places(s, i + 1, line + 1, 1, true, rest);
        } else {
            let w = spelling(token);
            let e = i + w.len();
            lemma_holds_both(s, i, w + seq![' '], spelled_out(rest));
            lemma_holds_both(s, i, w, seq![' ']);
            assert(s[e + 0] == seq![' '][0]);
            tokens_read_as_spelled(s, i, token);
            let there = (col + (e - i)) as nat;
            lemma_places(s, e + 1, line, there + 1, false, rest);
            assert(tokens_from(s, e, line, there, false) == tokens_from(
                s,
                e + 1,
                line,
                there + 1,
                false,
            ));
        }
    }
}

/// The tokens of a text have the places at which they are spelled out, counted from the
/// first column of the first line.
pub proof fn tokens_have_their_places(tokens: Seq<TokenView>)
    requires
        can_all_be_spelled(tokens),
    ensures
        tokens_of(spelled_out(tokens)) == Ok::<Seq<SpannedView>, ErrorView>(
            with_places(tokens, 1, 1),
        ),
{
    lemma_places(spelled_out(tokens), 0, 1, 1, false, tokens);
}

proof fn lemma_no_close(s: Seq<char>, i: int, quote: char)
    requires
        0 <= i <= s.len(),
        forall|k: int| i <= k < s.len() ==> #[trigger] s[k] != quote,
    ensures
        close_at(s, i, quote) >= s.len(),
        find_from(s, i, quote) >= s.len(),
    decreases s.len() - i,
{
    if i < s.len() {
        lemma_no_close(s, i + 1, quote);
        if i + 2 <= s.len() {
            lemma_no_close(s, i + 2, quote);
        }
    }
}

/// What cannot be read is an error at its place: a pattern or a string that is not closed,
/// `$` without a name, and a character that begins nothing.
pub proof fn what_cannot_be_read_is_an_error(
    s: Seq<char>,
    i: int,
    line: nat,
    col: nat,
    broken: bool,
)
    requires
        0 <= i < s.len(),
    ensures
        s[i] == '/' && (forall|k: int| i < k < s.len() ==> #[trigger] s[k] != '/') ==> tokens_from(
            s,
            i,
            line,
            col,
            broken,
        ) == Err::<Seq<SpannedView>, ErrorView>(ErrorView::UnterminatedRegex { line, col }),
        s[i] == '"' && (forall|k: int| i < k < s.len() ==> #[trigger] s[k] != '"') ==> tokens_from(
            s,
            i,
            line,
            col,
            broken,
        ) == Err::<Seq<SpannedView>, ErrorView>(ErrorView::UnterminatedString { line, col }),
        s[i] == 'r' && i + 1 < s.len() && s[i + 1] == '"' && (forall|k: int|
            i + 1 < k < s.len() ==> #[trigger] s[k] != '"') ==> tokens_from(s, i, line, col, broken)
            == Err::<Seq<SpannedView>, ErrorView>(ErrorView::UnterminatedRawString { line, col }),
        s[i] == '$' && (i + 1 == s.len() || !is_name_char(s[i + 1])) ==> tokens_from(
            s,
            i,
            line,
            col,
            broken,
        ) == Err::<Seq<SpannedView>, ErrorView>(ErrorView::EmptyVariable { line, col }),
        s[i] == '(' || s[i] == ')' || s[i] == '*' || s[i] == '@' || s[i] == ';' || s[i] == '&'
            || s[i] == '|' || s[i] == '<' || s[i] == '>' || s[i] == '.' || s[i] == ':' || s[i]
            == '+' || s[i] == '%' || s[i] == '\'' ==> tokens_from(s, i, line, col, broken) == Err::<
            Seq<SpannedView>,
            ErrorView,
        >(ErrorView::UnexpectedChar { c: s[i], line, col }),
{
    if s[i] == '/' && (forall|k: int| i < k < s.len() ==> #[trigger] s[k] != '/') {
        lemma_no_close(s, i + 1, '/');
    }
    if s[i] == '"' && (forall|k: int| i < k < s.len() ==> #[trigger] s[k] != '"') {
        lemma_no_close(s, i + 1, '"');
    }
    if s[i] == 'r' && i + 1 < s.len() && s[i + 1] == '"' && (forall|k: int|
        i + 1 < k < s.len() ==> #[trigger] s[k] != '"') {
        lemma_no_close(s, i + 2, '"');
    }
}

} // verus!

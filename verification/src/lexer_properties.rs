//! How texts that are put together are read: what a text is read as does not depend on what
//! stands around it, once it is broken off.
use vstd::prelude::*;
use crate::error::ErrorView;
use crate::lexer::{
    close_at, digits_end, flag_end, name_end, symbol, token_at, tokens_from, tokens_of, SpannedView,
    TokenAt, TokenView,
};
use crate::text::{find_from, lemma_find_bounds};

verus! {

/// Whether a text begins with something that ends every token: a comment or a line break.
pub open spec fn breaks_off(c: Seq<char>) -> bool {
    c.len() > 0 && (c[0] == '#' || c[0] == '\n')
}

proof fn lemma_runs_end(a: Seq<char>, c: Seq<char>, i: int)
    requires
        breaks_off(c),
        0 <= i <= a.len(),
    ensures
        name_end(a + c, i) == name_end(a, i),
        flag_end(a + c, i) == flag_end(a, i),
        digits_end(a + c, i) == digits_end(a, i),
        i <= name_end(a, i) <= a.len(),
        i <= flag_end(a, i) <= a.len(),
        i <= digits_end(a, i) <= a.len(),
    decreases a.len() - i,
{
    if i < a.len() {
        assert((a + c)[i] == a[i]);
        lemma_runs_end(a, c, i + 1);
    } else {
        assert((a + c)[i] == c[0]);
    }
}

proof fn lemma_close_stays(a: Seq<char>, c: Seq<char>, i: int, quote: char)
    requires
        0 <= i <= a.len(),
        close_at(a, i, quote) < a.len(),
    ensures
        close_at(a + c, i, quote) == close_at(a, i, quote),
        i <= close_at(a, i, quote),
    decreases a.len() - i,
{
    if i < a.len() {
        assert((a + c)[i] == a[i]);
        if a[i] == quote {
        } else if a[i] == '\\' && i + 1 < a.len() {
            lemma_close_stays(a, c, i + 2, quote);
        } else {
            if i + 1 >= a.len() {
                assert(close_at(a, i + 1, quote) == i + 1);
            }
            lemma_close_stays(a, c, i + 1, quote);
        }
    }
}

proof fn lemma_find_stays(a: Seq<char>, c: Seq<char>, i: int, q: char)
    requires
        0 <= i <= a.len(),
        find_from(a, i, q) < a.len(),
    ensures
        find_from(a + c, i, q) == find_from(a, i, q),
    decreases a.len() - i,
{
    if i < a.len() {
        assert((a + c)[i] == a[i]);
        if a[i] != q {
            lemma_find_stays(a, c, i + 1, q);
        }
    }
}

proof fn lemma_subrange_stays(a: Seq<char>, c: Seq<char>, i: int, j: int)
    requires
        0 <= i <= j <= a.len(),
    ensures
        (a + c).subrange(i, j) == a.subrange(i, j),
{
    assert((a + c).subrange(i, j) =~= a.subrange(i, j));
}

/// A token that a text ends with is the same where something follows that ends it.
proof fn lemma_token_stays(a: Seq<char>, c: Seq<char>, i: int)
    requires
        breaks_off(c),
        0 <= i < a.len(),
        token_at(a, i) is Found,
    ensures
        token_at(a + c, i) == token_at(a, i),
        token_at(a, i) matches TokenAt::Found(_, e) && i < e <= a.len(),
{
    let s = a + c;
    assert(s[i] == a[i]);
    lemma_runs_end(a, c, i);
    lemma_runs_end(a, c, i + 1);
    lemma_subrange_stays(a, c, i, name_end(a, i));
    lemma_subrange_stays(a, c, i + 1, name_end(a, i + 1));
    lemma_subrange_stays(a, c, i, digits_end(a, i));
    lemma_subrange_stays(a, c, i, flag_end(a, i + 1));
    if i + 1 < a.len() {
        assert(s[i + 1] == a[i + 1]);
    } else {
        assert(s[i + 1] == c[0]);
    }
    let ch = a[i];
    let more = i + 1 < a.len();
    if symbol(ch) is Some {
    } else if ch == '-' {
    } else if ch == '/' {
        lemma_close_stays(a, c, i + 1, '/');
        lemma_subrange_stays(a, c, i + 1, close_at(a, i + 1, '/'));
    } else if ch == 'r' && more && a[i + 1] == '"' {
        lemma_find_bounds(a, i + 2, '"');
        lemma_find_stays(a, c, i + 2, '"');
        lemma_subrange_stays(a, c, i + 2, find_from(a, i + 2, '"'));
    } else if ch == '"' {
        lemma_close_stays(a, c, i + 1, '"');
        lemma_subrange_stays(a, c, i + 1, close_at(a, i + 1, '"'));
    }
}

proof fn lemma_runs_shift(x: Seq<char>, b: Seq<char>, i: int)
    requires
        0 <= i <= b.len(),
    ensures
        name_end(x + b, x.len() + i) == x.len() + name_end(b, i),
        flag_end(x + b, x.len() + i) == x.len() + flag_end(b, i),
        digits_end(x + b, x.len() + i) == x.len() + digits_end(b, i),
        i <= name_end(b, i) <= b.len(),
        i <= flag_end(b, i) <= b.len(),
        i <= digits_end(b, i) <= b.len(),
    decreases b.len() - i,
{
    if i < b.len() {
        assert((x + b)[x.len() + i] == b[i]);
        lemma_runs_shift(x, b, i + 1);
        assert(x.len() + (i + 1) == x.len() + i + 1);
    }
}

proof fn lemma_close_shifts(x: Seq<char>, b: Seq<char>, i: int, quote: char)
    requires
        0 <= i <= b.len() + 1,
    ensures
        close_at(x + b, x.len() + i, quote) == x.len() + close_at(b, i, quote),
        i <= close_at(b, i, quote),
    decreases b.len() - i,
{
    if i < b.len() {
        assert((x + b)[x.len() + i] == b[i]);
        lemma_close_shifts(x, b, i + 1, quote);
        assert(x.len() + (i + 1) == x.len() + i + 1);
        if i + 1 < b.len() {
            lemma_close_shifts(x, b, i + 2, quote);
            assert(x.len() + (i + 2) == x.len() + i + 2);
        }
    }
}

proof fn lemma_find_shifts(x: Seq<char>, b: Seq<char>, i: int, q: char)
    requires
        0 <= i <= b.len(),
    ensures
        find_from(x + b, x.len() + i, q) == x.len() + find_from(b, i, q),
        i <= find_from(b, i, q) <= b.len(),
    decreases b.len() - i,
{
    if i < b.len() {
        assert((x + b)[x.len() + i] == b[i]);
        lemma_find_shifts(x, b, i + 1, q);
        assert(x.len() + (i + 1) == x.len() + i + 1);
    }
}

proof fn lemma_subrange_shifts(x: Seq<char>, b: Seq<char>, i: int, j: int)
    requires
        0 <= i <= j <= b.len(),
    ensures
        (x + b).subrange(x.len() + i, x.len() + j) == b.subrange(i, j),
{
    assert((x + b).subrange(x.len() + i, x.len() + j) =~= b.subrange(i, j));
}

/// What a token at `i` is, found `n` positions further on.
spec fn further(t: TokenAt, n: int) -> TokenAt {
    match t {
        TokenAt::Found(token, e) => TokenAt::Found(token, n + e),
        other => other,
    }
}

proof fn lemma_token_shifts(x: Seq<char>, b: Seq<char>, i: int)
    requires
        0 <= i < b.len(),
    ensures
        token_at(x + b, x.len() + i) == further(token_at(b, i), x.len() as int),
{
    let s = x + b;
    let n = x.len() as int;
    assert(s[n + i] == b[i]);
    lemma_runs_shift(x, b, i);
    lemma_runs_shift(x, b, i + 1);
    assert(n + (i + 1) == n + i + 1);
    assert(n + (i + 2) == n + i + 2);
    lemma_subrange_shifts(x, b, i, name_end(b, i));
    lemma_subrange_shifts(x, b, i + 1, name_end(b, i + 1));
    lemma_subrange_shifts(x, b, i, digits_end(b, i));
    lemma_subrange_shifts(x, b, i, flag_end(b, i + 1));
    let ch = b[i];
    let more = i + 1 < b.len();
    if more {
        assert(s[n + i + 1] == b[i + 1]);
    }
    if ch == '/' {
        lemma_close_shifts(x, b, i + 1, '/');
        let close = close_at(b, i + 1, '/');
        if close < b.len() {
            lemma_subrange_shifts(x, b, i + 1, close);
        }
    } else if ch == 'r' && more && b[i + 1] == '"' {
        lemma_find_shifts(x, b, i + 2, '"');
        lemma_subrange_shifts(x, b, i + 2, find_from(b, i + 2, '"'));
    } else if ch == '"' {
        lemma_close_shifts(x, b, i + 1, '"');
        let close = close_at(b, i + 1, '"');
        if close < b.len() {
            lemma_subrange_shifts(x, b, i + 1, close);
        }
    }
}

/// What stands behind a text is read as it is read alone.
proof fn lemma_tokens_shift(
    x: Seq<char>,
    b: Seq<char>,
    i: int,
    line: nat,
    col: nat,
    broken: bool,
)
    requires
        0 <= i <= b.len(),
    ensures
        tokens_from(x + b, x.len() + i, line, col, broken) == tokens_from(b, i, line, col, broken),
    decreases b.len() - i,
{
    let s = x + b;
    let n = x.len() as int;
    if i < b.len() {
        assert(s[n + i] == b[i]);
        assert(n + (i + 1) == n + i + 1);
        if b[i] == ' ' || b[i] == '\t' || b[i] == '\r' {
            lemma_tokens_shift(x, b, i + 1, line, col + 1, broken);
        } else if b[i] == '#' {
            lemma_find_shifts(x, b, i, '\n');
            let end = find_from(b, i, '\n');
            if i < end {
                lemma_tokens_shift(x, b, end, line, col, broken);
            }
        } else if b[i] == '\n' {
            lemma_tokens_shift(x, b, i + 1, line + 1, 1, true);
        } else {
            lemma_token_shifts(x, b, i);
            match token_at(b, i) {
                TokenAt::Found(token, e) => {
                    if i < e <= b.len() {
                        lemma_tokens_shift(x, b, e, line, (col + (e - i)) as nat, false);
                    }
                },
                _ => {},
            }
        }
    }
}

/// Where a comment with no line break in it stands, the line break behind it is next.
proof fn lemma_comment_end(x: Seq<char>, note: Seq<char>, b: Seq<char>, i: int)
    requires
        0 <= i <= note.len(),
        forall|k: int| 0 <= k < note.len() ==> #[trigger] note[k] != '\n',
    ensures
        find_from(x + note + seq!['\n'] + b, x.len() + i, '\n') == x.len() + note.len(),
    decreases note.len() - i,
{
    let s = x + note + seq!['\n'] + b;
    if i < note.len() {
        assert(s[x.len() + i] == note[i]);
        lemma_comment_end(x, note, b, i + 1);
        assert(x.len() + (i + 1) == x.len() + i + 1);
    } else {
        assert(s[x.len() + i] == '\n');
    }
}

/// `a` without a line break from `i` on: where a comment in it ends, with `note` behind it.
proof fn lemma_comment_reaches(a: Seq<char>, note: Seq<char>, b: Seq<char>, i: int)
    requires
        0 <= i <= a.len(),
        find_from(a, i, '\n') == a.len(),
        forall|k: int| 0 <= k < note.len() ==> #[trigger] note[k] != '\n',
    ensures
        find_from(a + note + seq!['\n'] + b, i, '\n') == a.len() + note.len(),
    decreases a.len() - i,
{
    let s = a + note + seq!['\n'] + b;
    if i < a.len() {
        assert(s[i] == a[i]);
        assert(a[i] != '\n') by {
            lemma_find_bounds(a, i, '\n');
        }
        lemma_comment_reaches(a, note, b, i + 1);
    } else {
        lemma_comment_end(a, note, b, 0);
    }
}

/// With a comment, or nothing, in `note`: the line break behind it is what is read.
proof fn lemma_note_is_nothing(
    a: Seq<char>,
    note: Seq<char>,
    b: Seq<char>,
    i: int,
    line: nat,
    col: nat,
    broken: bool,
)
    requires
        0 <= i <= a.len(),
        tokens_from(a, i, line, col, broken) is Ok,
        note.len() > 0 ==> note[0] == '#',
        forall|k: int| 0 <= k < note.len() ==> #[trigger] note[k] != '\n',
    ensures
        tokens_from(a + note + seq!['\n'] + b, i, line, col, broken) == tokens_from(
            a + seq!['\n'] + b,
            i,
            line,
            col,
            broken,
        ),
    decreases a.len() - i,
{
    let brk = seq!['\n'];
    let s = a + note + brk + b;
    let t = a + brk + b;
    let n = a.len() as int;
    let m = n + note.len();
    let none = Seq::<char>::empty();
    assert(a + none + brk + b =~= t);
    // what stands behind the line break
    assert(s[m] == '\n' && t[n] == '\n');
    assert(s =~= (a + note + brk) + b);
    assert(t =~= (a + brk) + b);
    lemma_tokens_shift(a + note + brk, b, 0, line + 1, 1, true);
    lemma_tokens_shift(a + brk, b, 0, line + 1, 1, true);
    assert(tokens_from(s, m, line, col, broken) == tokens_from(t, n, line, col, broken));
    if i == n {
        if note.len() > 0 {
            assert(s[n] == '#') by {
                assert(s[n] == note[0]);
            }
            lemma_comment_end(a, note, b, 0);
        }
    } else {
        assert(s[i] == a[i] && t[i] == a[i]);
        if a[i] == ' ' || a[i] == '\t' || a[i] == '\r' {
            lemma_note_is_nothing(a, note, b, i + 1, line, col + 1, broken);
        } else if a[i] == '#' {
            lemma_find_bounds(a, i, '\n');
            let end = find_from(a, i, '\n');
            if end < n {
                assert(s =~= a + (note + brk + b));
                assert(t =~= a + (brk + b));
                lemma_find_stays(a, note + brk + b, i, '\n');
                lemma_find_stays(a, brk + b, i, '\n');
                lemma_note_is_nothing(a, note, b, end, line, col, broken);
            } else {
                lemma_comment_reaches(a, note, b, i);
                lemma_comment_reaches(a, none, b, i);
            }
        } else if a[i] == '\n' {
            lemma_note_is_nothing(a, note, b, i + 1, line + 1, 1, true);
        } else {
            let c = note + brk + b;
            let d = brk + b;
            assert(s =~= a + c);
            assert(t =~= a + d);
            assert(breaks_off(c)) by {
                if note.len() > 0 {
                    assert(c[0] == note[0]);
                } else {
                    assert(c[0] == '\n');
                }
            }
            assert(token_at(a, i) is Found);
            lemma_token_stays(a, c, i);
            lemma_token_stays(a, d, i);
            let e = token_at(a, i)->Found_1;
            lemma_note_is_nothing(a, note, b, e, line, (col + (e - i)) as nat, false);
        }
    }
}

/// A comment with the line break behind it reads as the line break alone, whatever stands
/// around them: the same tokens at the same places, or the same error.
pub proof fn comments_leave_no_trace(a: Seq<char>, note: Seq<char>, b: Seq<char>)
    requires
        tokens_of(a) is Ok,
        forall|k: int| 0 <= k < note.len() ==> #[trigger] note[k] != '\n',
    ensures
        tokens_of(a + "#"@ + note + "\n"@ + b) == tokens_of(a + "\n"@ + b),
{
    reveal_strlit("#");
    reveal_strlit("\n");
    let comment = "#"@ + note;
    assert forall|k: int| 0 <= k < comment.len() implies #[trigger] comment[k] != '\n' by {
        if k > 0 {
            assert(comment[k] == note[k - 1]);
        }
    }
    assert("\n"@ =~= seq!['\n']);
    assert(a + "#"@ + note + "\n"@ + b =~= a + comment + seq!['\n'] + b);
    lemma_note_is_nothing(a, comment, b, 0, 1, 1, false);
}

/// Whether two sequences of tokens differ in nothing but places.
pub open spec fn same_tokens(a: Seq<SpannedView>, b: Seq<SpannedView>) -> bool {
    &&& a.len() == b.len()
    &&& forall|k: int| 0 <= k < a.len() ==> (#[trigger] a[k]).token == b[k].token
}

/// Tokens without a line break in front.
pub open spec fn without_break(ts: Seq<SpannedView>) -> Seq<SpannedView> {
    if ts.len() > 0 && ts[0].token == TokenView::Newline {
        ts.skip(1)
    } else {
        ts
    }
}

proof fn lemma_same_then(
    token: TokenView,
    line: nat,
    col: nat,
    other_line: nat,
    other_col: nat,
    a: Seq<SpannedView>,
    b: Seq<SpannedView>,
)
    requires
        same_tokens(a, b),
    ensures
        same_tokens(
            seq![SpannedView { token, line, col }] + a,
            seq![SpannedView { token, line: other_line, col: other_col }] + b,
        ),
{
    let x = seq![SpannedView { token, line, col }] + a;
    let y = seq![SpannedView { token, line: other_line, col: other_col }] + b;
    assert forall|k: int| 0 <= k < x.len() implies (#[trigger] x[k]).token == y[k].token by {
        if k > 0 {
            assert(x[k] == a[k - 1] && y[k] == b[k - 1]);
        }
    }
}

proof fn lemma_token_is_no_break(s: Seq<char>, i: int)
    requires
        token_at(s, i) is Found,
    ensures
        token_at(s, i)->Found_0 != TokenView::Newline,
{
}

/// Places in front of a text change nothing but places, and a line break in front of it
/// takes away one that it begins with.
proof fn lemma_tokens_restart(
    b: Seq<char>,
    i: int,
    line: nat,
    col: nat,
    broken: bool,
    other_line: nat,
    other_col: nat,
    other_broken: bool,
)
    requires
        0 <= i <= b.len(),
        tokens_from(b, i, line, col, broken) is Ok,
        broken ==> other_broken,
    ensures
        tokens_from(b, i, other_line, other_col, other_broken) is Ok,
        ({
            let one = tokens_from(b, i, line, col, broken)->Ok_0;
            let two = tokens_from(b, i, other_line, other_col, other_broken)->Ok_0;
            same_tokens(two, if other_broken && !broken { without_break(one) } else { one })
        }),
    decreases b.len() - i,
{
    if i < b.len() {
        if b[i] == ' ' || b[i] == '\t' || b[i] == '\r' {
            lemma_tokens_restart(
                b,
                i + 1,
                line,
                col + 1,
                broken,
                other_line,
                other_col + 1,
                other_broken,
            );
        } else if b[i] == '#' {
            lemma_find_bounds(b, i + 1, '\n');
            let end = find_from(b, i, '\n');
            lemma_tokens_restart(
                b,
                end,
                line,
                col,
                broken,
                other_line,
                other_col,
                other_broken,
            );
        } else if b[i] == '\n' {
            lemma_tokens_restart(b, i + 1, line + 1, 1, true, other_line + 1, 1, true);
            let one = tokens_from(b, i + 1, line + 1, 1, true)->Ok_0;
            let two = tokens_from(b, i + 1, other_line + 1, 1, true)->Ok_0;
            if !other_broken {
                lemma_same_then(TokenView::Newline, other_line, other_col, line, col, two, one);
            } else if !broken {
                let whole = seq![SpannedView { token: TokenView::Newline, line, col }] + one;
                assert(whole.skip(1) =~= one);
            }
        } else {
            lemma_token_is_no_break(b, i);
            let token = token_at(b, i)->Found_0;
            let e = token_at(b, i)->Found_1;
            if i < e <= b.len() {
                let c1 = (col + (e - i)) as nat;
                let c2 = (other_col + (e - i)) as nat;
                lemma_tokens_restart(b, e, line, c1, false, other_line, c2, false);
                let one = tokens_from(b, e, line, c1, false)->Ok_0;
                let two = tokens_from(b, e, other_line, c2, false)->Ok_0;
                lemma_same_then(token, other_line, other_col, line, col, two, one);
            }
        }
    }
}

/// What two texts joined by a line break are read as: the tokens of the first, a line break
/// if there is none yet, and the tokens of the second without a line break in front.
pub open spec fn joins(
    first: Seq<SpannedView>,
    second: Seq<SpannedView>,
    all: Seq<SpannedView>,
    broken: bool,
) -> bool {
    let n = first.len() as int;
    let ended = if n > 0 { first.last().token == TokenView::Newline } else { broken };
    let tail = without_break(second);
    let m = if ended { n } else { n + 1 };
    &&& all.len() == m + tail.len()
    &&& forall|k: int| 0 <= k < n ==> (#[trigger] all[k]).token == first[k].token
    &&& !ended ==> all[n].token == TokenView::Newline
    &&& forall|k: int| 0 <= k < tail.len() ==> (#[trigger] tail[k]).token == all[m + k].token
}

proof fn lemma_joins_then(
    one: SpannedView,
    place: SpannedView,
    first: Seq<SpannedView>,
    second: Seq<SpannedView>,
    all: Seq<SpannedView>,
)
    requires
        one.token == place.token,
        joins(first, second, all, one.token == TokenView::Newline),
    ensures
        joins(seq![one] + first, second, seq![place] + all, false),
        joins(seq![one] + first, second, seq![place] + all, true),
{
    let f = seq![one] + first;
    let w = seq![place] + all;
    let n = first.len() as int;
    let broken = one.token == TokenView::Newline;
    let ended = if n > 0 { first.last().token == TokenView::Newline } else { broken };
    assert(f.last() == if n > 0 { first.last() } else { one });
    let tail = without_break(second);
    let m = if ended { n } else { n + 1 };
    assert forall|k: int| 0 <= k < n + 1 implies (#[trigger] w[k]).token == f[k].token by {
        if k > 0 {
            assert(w[k] == all[k - 1] && f[k] == first[k - 1]);
        }
    }
    if !ended {
        assert(w[n + 1] == all[n]);
    }
    assert forall|k: int| 0 <= k < tail.len() implies (#[trigger] tail[k]).token == w[m + 1
        + k].token by {
        assert(w[m + 1 + k] == all[m + k]);
    }
}

/// What is read at the line break between two texts.
proof fn lemma_joined_end(a: Seq<char>, b: Seq<char>, line: nat, col: nat, broken: bool)
    requires
        tokens_of(b) is Ok,
    ensures
        ({
            let rest = tokens_from(a + seq!['\n'] + b, a.len() as int, line, col, broken);
            &&& rest is Ok
            &&& joins(Seq::empty(), tokens_of(b)->Ok_0, rest->Ok_0, broken)
        }),
{
    let brk = seq!['\n'];
    let t = a + brk + b;
    let n = a.len() as int;
    assert(t[n] == '\n');
    assert(t =~= (a + brk) + b);
    lemma_tokens_shift(a + brk, b, 0, line + 1, 1, true);
    lemma_tokens_restart(b, 0, 1, 1, false, line + 1, 1, true);
    let second = tokens_of(b)->Ok_0;
    let tail = tokens_from(b, 0, line + 1, 1, true)->Ok_0;
    let here = SpannedView { token: TokenView::Newline, line, col };
    let all = if broken { tail } else { seq![here] + tail };
    assert(tokens_from(t, n, line, col, broken) == Ok::<Seq<SpannedView>, ErrorView>(all));
    let kept = without_break(second);
    let m: int = if broken { 0 } else { 1 };
    assert forall|k: int| 0 <= k < kept.len() implies (#[trigger] kept[k]).token == all[m
        + k].token by {
        assert(tail[k].token == kept[k].token);
        assert(all[m + k] == tail[k]);
    }
}

proof fn lemma_joined_tokens(
    a: Seq<char>,
    b: Seq<char>,
    i: int,
    line: nat,
    col: nat,
    broken: bool,
)
    requires
        0 <= i <= a.len(),
        tokens_from(a, i, line, col, broken) is Ok,
        tokens_of(b) is Ok,
    ensures
        tokens_from(a + seq!['\n'] + b, i, line, col, broken) is Ok,
        joins(
            tokens_from(a, i, line, col, broken)->Ok_0,
            tokens_of(b)->Ok_0,
            tokens_from(a + seq!['\n'] + b, i, line, col, broken)->Ok_0,
            broken,
        ),
    decreases a.len() - i,
{
    let brk = seq!['\n'];
    let t = a + brk + b;
    let n = a.len() as int;
    let c = brk + b;
    let second = tokens_of(b)->Ok_0;
    lemma_joined_end(a, b, line, col, broken);
    if i < n {
        assert(t[i] == a[i]);
        if a[i] == ' ' || a[i] == '\t' || a[i] == '\r' {
            lemma_joined_tokens(a, b, i + 1, line, col + 1, broken);
        } else if a[i] == '#' {
            lemma_find_bounds(a, i, '\n');
            let end = find_from(a, i, '\n');
            if end < n {
                assert(t =~= a + c);
                lemma_find_stays(a, c, i, '\n');
                lemma_joined_tokens(a, b, end, line, col, broken);
            } else {
                let nothing = Seq::<char>::empty();
                assert(a + nothing + brk + b =~= t);
                lemma_comment_reaches(a, nothing, b, i);
                assert(tokens_from(a, n, line, col, broken) == Ok::<Seq<SpannedView>, ErrorView>(
                    Seq::empty(),
                ));
            }
        } else if a[i] == '\n' {
            lemma_joined_tokens(a, b, i + 1, line + 1, 1, true);
            let first = tokens_from(a, i + 1, line + 1, 1, true)->Ok_0;
            let all = tokens_from(t, i + 1, line + 1, 1, true)->Ok_0;
            let here = SpannedView { token: TokenView::Newline, line, col };
            if !broken {
                lemma_joins_then(here, here, first, second, all);
            }
        } else {
            assert(t =~= a + c);
            assert(c[0] == '\n');
            lemma_token_stays(a, c, i);
            lemma_token_is_no_break(a, i);
            let token = token_at(a, i)->Found_0;
            let e = token_at(a, i)->Found_1;
            let next = (col + (e - i)) as nat;
            lemma_joined_tokens(a, b, e, line, next, false);
            let first = tokens_from(a, e, line, next, false)->Ok_0;
            let all = tokens_from(t, e, line, next, false)->Ok_0;
            let one = SpannedView { token, line, col };
            lemma_joins_then(one, one, first, second, all);
        }
    }
}

/// Two texts joined by a line break are read as the tokens of the first, a line break, and
/// the tokens of the second; of line breaks in a row one is kept.
pub proof fn joined_texts_are_read_in_turn(a: Seq<char>, b: Seq<char>)
    requires
        tokens_of(a) is Ok,
        tokens_of(b) is Ok,
    ensures
        tokens_of(a + "\n"@ + b) is Ok,
        joins(tokens_of(a)->Ok_0, tokens_of(b)->Ok_0, tokens_of(a + "\n"@ + b)->Ok_0, false),
{
    reveal_strlit("\n");
    assert("\n"@ =~= seq!['\n']);
    lemma_joined_tokens(a, b, 0, 1, 1, false);
}

} // verus!

//! Slash-separated paths as text: components, joining, parents, extensions and
//! lexical normalisation.
use vstd::prelude::*;
use crate::text::{
    chars_of, find_char, find_from, join_from, joined, str_eq, string_of, texts, lemma_texts_push,
};

verus! {

/// Whether a path starts at the root.
pub open spec fn is_absolute(path: Seq<char>) -> bool {
    path.len() > 0 && path[0] == '/'
}

/// `base` extended by `path`; an absolute `path` replaces `base`.
pub open spec fn join_path(base: Seq<char>, path: Seq<char>) -> Seq<char> {
    if is_absolute(path) {
        path
    } else if base.len() == 0 || base.last() == '/' {
        base + path
    } else {
        base.push('/') + path
    }
}

/// The text between the slashes of a path, empty pieces included.
pub open spec fn pieces(path: Seq<char>) -> Seq<Seq<char>>
    decreases path.len(),
{
    let k = find_from(path, 0, '/');
    if k >= path.len() {
        seq![path]
    } else if k < 0 {
        seq![]
    } else {
        seq![path.take(k)] + pieces(path.skip(k + 1))
    }
}

/// The names that are left when `.` and empty pieces are dropped and each `..`
/// removes the name before it, if there is one.
pub open spec fn settled(parts: Seq<Seq<char>>) -> Seq<Seq<char>>
    decreases parts.len(),
{
    if parts.len() == 0 {
        Seq::empty()
    } else {
        let before = settled(parts.drop_last());
        let last = parts.last();
        if last == Seq::<char>::empty() || last == seq!['.'] {
            before
        } else if last == seq!['.', '.'] {
            if before.len() > 0 {
                before.drop_last()
            } else {
                before
            }
        } else {
            before.push(last)
        }
    }
}

/// A path without `.`, `..`, repeated or trailing slashes, worked out on the text
/// alone. `..` at the root stays at the root.
pub open spec fn normalized(path: Seq<char>) -> Seq<char> {
    let names = joined(settled(pieces(path)), seq!['/']);
    if is_absolute(path) {
        seq!['/'] + names
    } else {
        names
    }
}


/// Where the relative part of a path begins: behind a leading `/`, or behind a
/// leading `.` component.
pub open spec fn body_start(path: Seq<char>) -> int {
    if is_absolute(path) || path == seq!['.'] || (path.len() > 1 && path[0] == '.' && path[1]
        == '/') {
        1
    } else {
        0
    }
}

/// Where the last piece of `path` begins, looking no further back than `start`.
pub open spec fn piece_start(path: Seq<char>, start: int) -> int
    decreases path.len(),
{
    if path.len() <= start {
        start
    } else if path.len() == 0 || path.last() == '/' {
        path.len() as int
    } else {
        piece_start(path.drop_last(), start)
    }
}

/// The last piece of `path` behind `start`.
pub open spec fn last_piece(path: Seq<char>, start: int) -> Seq<char> {
    path.skip(piece_start(path, start))
}

/// `path` without its last piece and the slash in front of that piece.
pub open spec fn drop_piece(path: Seq<char>, start: int) -> Seq<char> {
    let k = piece_start(path, start);
    if k > start {
        path.take(k - 1)
    } else {
        path.take(start)
    }
}

/// `path` without trailing slashes and trailing `.` components.
pub open spec fn trim_tail(path: Seq<char>, start: int) -> Seq<char>
    decreases path.len(),
{
    if start < 0 || path.len() <= start {
        path
    } else {
        let last = last_piece(path, start);
        if last == Seq::<char>::empty() || last == seq!['.'] {
            proof {
                lemma_piece_start(path, start);
            }
            trim_tail(drop_piece(path, start), start)
        } else {
            path
        }
    }
}

pub proof fn lemma_piece_start(path: Seq<char>, start: int)
    requires
        0 <= start <= path.len(),
    ensures
        start <= piece_start(path, start) <= path.len(),
    decreases path.len(),
{
    if path.len() > start && path.last() != '/' {
        lemma_piece_start(path.drop_last(), start);
    }
}

/// The path of the directory that holds `path`; the root and the empty path have
/// none.
pub open spec fn parent(path: Seq<char>) -> Option<Seq<char>> {
    let start = body_start(path);
    let whole = trim_tail(path, start);
    if whole.len() > start {
        Some(trim_tail(drop_piece(whole, start), start))
    } else if start == 1 && path[0] == '.' {
        Some(Seq::empty())
    } else {
        None
    }
}

/// The last name of a path.
pub open spec fn file_name(path: Seq<char>) -> Option<Seq<char>> {
    let start = body_start(path);
    let whole = trim_tail(path, start);
    if whole.len() > start && last_piece(whole, start) != seq!['.', '.'] {
        Some(last_piece(whole, start))
    } else {
        None
    }
}

/// The last position of `c` in `s`, or -1.
pub open spec fn find_last(s: Seq<char>, c: char) -> int
    decreases s.len(),
{
    if s.len() == 0 {
        -1
    } else if s.last() == c {
        s.len() - 1
    } else {
        find_last(s.drop_last(), c)
    }
}

/// What follows the last dot of a path's last name, unless that dot leads the name.
pub open spec fn extension(path: Seq<char>) -> Option<Seq<char>> {
    match file_name(path) {
        Some(name) => {
            let dot = find_last(name, '.');
            if dot > 0 {
                Some(name.skip(dot + 1))
            } else {
                None
            }
        },
        None => None,
    }
}

/// Appends a path to a directory; an absolute path replaces it.
pub fn join(base: &str, path: &str) -> (r: String)
    ensures
        r@ == join_path(base@, path@),
{
    let b = chars_of(base);
    let p = chars_of(path);
    if p.len() > 0 && p[0] == '/' {
        return path.to_owned();
    }
    let mut r = base.to_owned();
    if b.len() > 0 && b[b.len() - 1] != '/' {
        r.push('/');
    }
    r.push_str(path);
    r
}

/// Normalises a path lexically, without looking at the file system: `.` and `..`
/// components and superfluous slashes go.
pub fn normalize_path(path: &str) -> (r: String)
    ensures
        r@ == normalized(path@),
{
    let cs = chars_of(path);
    let mut names: Vec<String> = Vec::new();
    let mut at: usize = 0;
    let ghost mut seen: Seq<Seq<char>> = Seq::empty();
    assert(cs@.skip(0) =~= path@);
    assert(seen + pieces(cs@.skip(0)) =~= pieces(path@));
    assert(texts(names@) =~= settled(seen));
    while at <= cs.len()
        invariant_except_break
            at <= cs@.len(),
            cs@ == path@,
            seen + pieces(cs@.skip(at as int)) == pieces(path@),
            texts(names@) == settled(seen),
        ensures
            cs@ == path@,
            texts(names@) == settled(pieces(path@)),
        decreases cs@.len() + 1 - at,
    {
        let k = find_char(&cs, at, '/');
        let ghost rest = cs@.skip(at as int);
        proof {
            lemma_find_skip(cs@, at as int, '/');
        }
        let piece = string_of(&cs, at, k);
        assert(piece@ =~= rest.take(k - at));
        let ghost old_seen = seen;
        proof {
            seen = seen.push(piece@);
            assert(seen.drop_last() =~= old_seen);
        }
        let ghost old_names = names@;
        proof {
            reveal_strlit("");
            reveal_strlit(".");
            reveal_strlit("..");
            assert(""@ =~= Seq::<char>::empty());
            assert("."@ =~= seq!['.']);
            assert(".."@ =~= seq!['.', '.']);
        }
        if str_eq(piece.as_str(), "") || str_eq(piece.as_str(), ".") {
        } else if str_eq(piece.as_str(), "..") {
            let gone = names.pop();
            if gone.is_some() {
                assert(texts(names@) =~= texts(old_names).drop_last());
            }
        } else {
            proof {
                lemma_texts_push(names@, piece);
            }
            names.push(piece);
        }
        assert(texts(names@) =~= settled(seen));
        if k >= cs.len() {
            assert(pieces(rest) =~= seq![rest]);
            assert(rest.take(k - at) =~= rest);
            assert(old_seen + pieces(rest) =~= seen);
            break;
        }
        assert(rest.skip(k - at + 1) =~= cs@.skip(k + 1));
        assert(old_seen + pieces(rest) =~= seen + pieces(cs@.skip(k + 1)));
        at = k + 1;
    }
    let body = join_from(names.as_slice(), 0, "/");
    proof {
        reveal_strlit("/");
        assert("/"@ =~= seq!['/']);
        assert(names@.skip(0) =~= names@);
    }
    if cs.len() > 0 && cs[0] == '/' {
        let mut r = String::new();
        r.push('/');
        r.push_str(body.as_str());
        assert(r@ =~= seq!['/'] + body@);
        r
    } else {
        body
    }
}

proof fn lemma_find_skip(s: Seq<char>, at: int, c: char)
    requires
        0 <= at <= s.len(),
    ensures
        find_from(s.skip(at), 0, c) == find_from(s, at, c) - at,
{
    lemma_find_shift(s, at, 0, c);
}

proof fn lemma_find_shift(s: Seq<char>, at: int, from: int, c: char)
    requires
        0 <= at <= s.len(),
        0 <= from <= s.len() - at,
    ensures
        find_from(s.skip(at), from, c) == find_from(s, at + from, c) - at,
    decreases s.len() - at - from,
{
    if from < s.len() - at && s.skip(at)[from] != c {
        lemma_find_shift(s, at, from + 1, c);
    }
}

fn body_of(cs: &Vec<char>) -> (r: usize)
    ensures
        r == body_start(cs@),
        r <= cs@.len(),
{
    let n = cs.len();
    assert(n == 1 && cs@[0] == '.' ==> cs@ =~= seq!['.']);
    if n > 0 && (cs[0] == '/' || (cs[0] == '.' && (n == 1 || cs[1] == '/'))) {
        1
    } else {
        0
    }
}

fn start_of_last(cs: &Vec<char>, n: usize, start: usize) -> (r: usize)
    requires
        start <= n <= cs@.len(),
    ensures
        start <= r <= n,
        r == piece_start(cs@.take(n as int), start as int),
{
    let mut k: usize = n;
    while k > start && cs[k - 1] != '/'
        invariant
            start <= k <= n <= cs@.len(),
            piece_start(cs@.take(k as int), start as int) == piece_start(
                cs@.take(n as int),
                start as int,
            ),
        decreases k,
    {
        assert(cs@.take(k as int).drop_last() =~= cs@.take(k - 1));
        k = k - 1;
    }
    k
}

fn trimmed_len(cs: &Vec<char>, len: usize, start: usize) -> (r: usize)
    requires
        start <= len <= cs@.len(),
    ensures
        start <= r <= len,
        cs@.take(r as int) == trim_tail(cs@.take(len as int), start as int),
{
    let mut n: usize = len;
    loop
        invariant_except_break
            start <= n <= len <= cs@.len(),
            trim_tail(cs@.take(n as int), start as int) == trim_tail(
                cs@.take(len as int),
                start as int,
            ),
        ensures
            start <= n <= len <= cs@.len(),
            cs@.take(n as int) == trim_tail(cs@.take(len as int), start as int),
        decreases n,
    {
        if n <= start {
            break;
        }
        let k = start_of_last(cs, n, start);
        let ghost whole = cs@.take(n as int);
        let ghost last = last_piece(whole, start as int);
        assert(n - k == 1 && cs@[k as int] == '.' ==> last =~= seq!['.']);
        assert(last == seq!['.'] ==> last.len() == 1 && last[0] == '.');
        if k == n || (n - k == 1 && cs[k] == '.') {
            assert(k == n ==> last =~= Seq::<char>::empty());
            if k > start {
                n = k - 1;
            } else {
                n = start;
            }
            assert(cs@.take(n as int) =~= drop_piece(whole, start as int));
        } else {
            break;
        }
    }
    n
}

/// The directory that holds `path`, if it is neither empty nor the root.
pub fn parent_of(path: &str) -> (r: Option<String>)
    ensures
        match r {
            Some(p) => parent(path@) == Some(p@) && p@.len() < path@.len(),
            None => parent(path@) is None,
        },
{
    let cs = chars_of(path);
    let start = body_of(&cs);
    let n = trimmed_len(&cs, cs.len(), start);
    assert(cs@.take(cs@.len() as int) =~= path@);
    if n > start {
        let k = start_of_last(&cs, n, start);
        let m = if k > start { k - 1 } else { start };
        assert(cs@.take(m as int) =~= drop_piece(cs@.take(n as int), start as int));
        let q = trimmed_len(&cs, m, start);
        let r = string_of(&cs, 0, q);
        assert(r@ =~= cs@.take(q as int));
        Some(r)
    } else if start == 1 && cs[0] == '.' {
        let r = String::new();
        assert(r@ =~= Seq::<char>::empty());
        Some(r)
    } else {
        None
    }
}

/// Whether the path names a rules file: its extension is `perm`.
pub fn has_perm_extension(path: &str) -> (r: bool)
    ensures
        r == (extension(path@) == Some("perm"@)),
{
    let cs = chars_of(path);
    let start = body_of(&cs);
    let n = trimmed_len(&cs, cs.len(), start);
    assert(cs@.take(cs@.len() as int) =~= path@);
    if n <= start {
        return false;
    }
    let k = start_of_last(&cs, n, start);
    let ghost whole = cs@.take(n as int);
    let ghost name = last_piece(whole, start as int);
    assert(name =~= cs@.subrange(k as int, n as int));
    let mut d: usize = n;
    while d > k && cs[d - 1] != '.'
        invariant
            k <= d <= n <= cs@.len(),
            find_last(cs@.subrange(k as int, d as int), '.') == find_last(
                cs@.subrange(k as int, n as int),
                '.',
            ),
        decreases d,
    {
        assert(cs@.subrange(k as int, d as int).drop_last() =~= cs@.subrange(k as int, d - 1));
        d = d - 1;
    }
    if d - k <= 1 {
        return false;
    }
    assert(find_last(name, '.') == d - 1 - k);
    let ext = string_of(&cs, d, n);
    assert(ext@ =~= name.skip(d - k));
    proof {
        reveal_strlit("perm");
        if ext@ == "perm"@ {
            assert(name.len() > 2);
        }
        assert(name == seq!['.', '.'] ==> ext@.len() == 0);
    }
    str_eq(ext.as_str(), "perm")
}

} // verus!

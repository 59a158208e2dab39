//! What holds of paths as a whole.
use vstd::prelude::*;
use crate::paths::{
    drop_piece, extension, file_name, find_last, is_absolute, join_path, last_piece, normalized,
    parent, piece_start, pieces, settled, trim_tail,
};
use crate::shell_grammar::resolved;
use crate::text::{find_from, joined};

verus! {

/// Whether a name can stand between two slashes of a normalised path.
pub open spec fn is_settled_name(name: Seq<char>) -> bool {
    &&& name.len() > 0
    &&& !name.contains('/')
    &&& name != seq!['.']
    &&& name != seq!['.', '.']
}

/// Whether all names can stand in a normalised path.
pub open spec fn all_settled(names: Seq<Seq<char>>) -> bool {
    forall|i: int| 0 <= i < names.len() ==> is_settled_name(#[trigger] names[i])
}

proof fn lemma_find_before(s: Seq<char>, from: int, c: char)
    requires
        0 <= from <= s.len(),
    ensures
        from <= find_from(s, from, c) <= s.len(),
        find_from(s, from, c) < s.len() ==> s[find_from(s, from, c)] == c,
        forall|i: int| from <= i < find_from(s, from, c) ==> s[i] != c,
    decreases s.len() - from,
{
    if from < s.len() && s[from] != c {
        lemma_find_before(s, from + 1, c);
    }
}

proof fn lemma_find_at(s: Seq<char>, from: int, k: int, c: char)
    requires
        0 <= from <= k <= s.len(),
        k < s.len() ==> s[k] == c,
        forall|i: int| from <= i < k ==> s[i] != c,
    ensures
        find_from(s, from, c) == k,
    decreases k - from,
{
    if from < k {
        lemma_find_at(s, from + 1, k, c);
    }
}

proof fn lemma_pieces_hold_no_slash(path: Seq<char>)
    ensures
        pieces(path).len() > 0,
        forall|i: int| 0 <= i < pieces(path).len() ==> !(#[trigger] pieces(path)[i]).contains('/'),
    decreases path.len(),
{
    let k = find_from(path, 0, '/');
    lemma_find_before(path, 0, '/');
    if k < path.len() {
        let rest = pieces(path.skip(k + 1));
        lemma_pieces_hold_no_slash(path.skip(k + 1));
        assert forall|i: int| 0 <= i < pieces(path).len() implies !(#[trigger] pieces(
            path,
        )[i]).contains('/') by {
            if i > 0 {
                assert(pieces(path)[i] == rest[i - 1]);
            }
        }
    }
}

proof fn lemma_settled_names(parts: Seq<Seq<char>>)
    requires
        forall|i: int| 0 <= i < parts.len() ==> !(#[trigger] parts[i]).contains('/'),
    ensures
        all_settled(settled(parts)),
    decreases parts.len(),
{
    if parts.len() > 0 {
        let before = parts.drop_last();
        assert forall|i: int| 0 <= i < before.len() implies !(#[trigger] before[i]).contains(
            '/',
        ) by {
            assert(!parts[i].contains('/'));
        }
        lemma_settled_names(before);
        assert(!parts[parts.len() - 1].contains('/'));
        assert(parts.last().len() == 0 ==> parts.last() =~= Seq::<char>::empty());
    }
}

proof fn lemma_settled_stays(names: Seq<Seq<char>>)
    requires
        all_settled(names),
    ensures
        settled(names) == names,
        settled(seq![Seq::<char>::empty()] + names) == names,
    decreases names.len(),
{
    let led = seq![Seq::<char>::empty()] + names;
    if names.len() > 0 {
        let before = names.drop_last();
        assert forall|i: int| 0 <= i < before.len() implies is_settled_name(
            #[trigger] before[i],
        ) by {
            assert(is_settled_name(names[i]));
        }
        lemma_settled_stays(before);
        assert(is_settled_name(names[names.len() - 1]));
        assert(names.last() != Seq::<char>::empty());
        assert(before.push(names.last()) =~= names);
        assert(led.drop_last() =~= seq![Seq::<char>::empty()] + before);
        assert(led.last() == names.last());
    } else {
        assert(led.drop_last() =~= Seq::<Seq<char>>::empty());
        assert(settled(led.drop_last()) =~= Seq::<Seq<char>>::empty());
        assert(settled(led) =~= names);
        assert(settled(names) =~= names);
    }
}

proof fn lemma_pieces_append(path: Seq<char>, name: Seq<char>)
    requires
        !name.contains('/'),
    ensures
        pieces(path + seq!['/'] + name) == pieces(path).push(name),
    decreases path.len(),
{
    let s = path + seq!['/'] + name;
    let k = find_from(path, 0, '/');
    lemma_find_before(path, 0, '/');
    assert forall|i: int| 0 <= i < k implies s[i] != '/' by {
        assert(s[i] == path[i]);
    }
    assert(s[k] == '/');
    lemma_find_at(s, 0, k, '/');
    assert(s.take(k) =~= path.take(k));
    if k < path.len() {
        assert(s.skip(k + 1) =~= path.skip(k + 1) + seq!['/'] + name);
        lemma_pieces_append(path.skip(k + 1), name);
        assert(seq![path.take(k)] + pieces(path.skip(k + 1)).push(name) =~= (seq![path.take(k)]
            + pieces(path.skip(k + 1))).push(name));
    } else {
        assert(path.take(k) =~= path);
        assert(s.skip(k + 1) =~= name);
        lemma_pieces_alone(name);
        assert(seq![path] + seq![name] =~= seq![path].push(name));
    }
}

proof fn lemma_pieces_alone(name: Seq<char>)
    requires
        !name.contains('/'),
    ensures
        pieces(name) == seq![name],
{
    assert forall|i: int| 0 <= i < name.len() implies name[i] != '/' by {
        assert(name.contains(name[i]));
    }
    lemma_find_at(name, 0, name.len() as int, '/');
}

proof fn lemma_pieces_led(path: Seq<char>)
    ensures
        pieces(seq!['/'] + path) == seq![Seq::<char>::empty()] + pieces(path),
{
    let s = seq!['/'] + path;
    assert(find_from(s, 0, '/') == 0);
    assert(s.take(0) =~= Seq::<char>::empty());
    assert(s.skip(1) =~= path);
}

proof fn lemma_pieces_joined(names: Seq<Seq<char>>)
    requires
        all_settled(names),
        names.len() > 0,
    ensures
        pieces(joined(names, seq!['/'])) == names,
        joined(names, seq!['/']).len() > 0,
        joined(names, seq!['/'])[0] != '/',
    decreases names.len(),
{
    let before = names.drop_last();
    let last = names.last();
    assert(is_settled_name(names[names.len() - 1]));
    if names.len() == 1 {
        lemma_pieces_alone(last);
        assert(names =~= seq![last]);
        assert(last.contains(last[0]));
    } else {
        assert forall|i: int| 0 <= i < before.len() implies is_settled_name(
            #[trigger] before[i],
        ) by {
            assert(is_settled_name(names[i]));
        }
        lemma_pieces_joined(before);
        lemma_pieces_append(joined(before, seq!['/']), last);
        assert(before.push(last) =~= names);
    }
}

/// A normalised path has no `.` and no `..` component, is absolute if and only if the path
/// was, and stays as it is when it is normalised again.
pub proof fn normalizing_settles_a_path(path: Seq<char>)
    ensures
        normalized(normalized(path)) == normalized(path),
        is_absolute(normalized(path)) <==> is_absolute(path),
        forall|i: int|
            0 <= i < pieces(normalized(path)).len() ==> (#[trigger] pieces(normalized(path))[i])
                != seq!['.'] && pieces(normalized(path))[i] != seq!['.', '.'],
{
    lemma_pieces_hold_no_slash(path);
    lemma_settled_names(pieces(path));
    let names = settled(pieces(path));
    let body = joined(names, seq!['/']);
    let whole = normalized(path);
    lemma_settled_stays(names);
    if names.len() > 0 {
        lemma_pieces_joined(names);
    } else {
        assert(body =~= Seq::<char>::empty());
        lemma_pieces_alone(body);
        assert(pieces(body) =~= seq![Seq::<char>::empty()]);
        assert(settled(pieces(body)) =~= names) by {
            assert(pieces(body).drop_last() =~= Seq::<Seq<char>>::empty());
            assert(settled(pieces(body).drop_last()) =~= names);
        }
    }
    lemma_pieces_led(body);
    if is_absolute(path) {
        assert(whole == seq!['/'] + body);
        if names.len() == 0 {
            let two = seq![Seq::<char>::empty()] + pieces(body);
            assert(two.drop_last() =~= pieces(body));
            assert(two.last() == Seq::<char>::empty());
        }
        assert(settled(pieces(whole)) == names);
    }
    assert forall|i: int| 0 <= i < pieces(whole).len() implies (#[trigger] pieces(whole)[i])
        != seq!['.'] && pieces(whole)[i] != seq!['.', '.'] by {
        let piece = pieces(whole)[i];
        if piece.len() > 0 {
            if is_absolute(path) {
                assert(piece == pieces(body)[i - 1]);
                assert(is_settled_name(names[i - 1]));
            } else {
                assert(is_settled_name(names[i]));
            }
        }
    }
}

/// The path with the given names, from the root or not.
pub open spec fn spelled(names: Seq<Seq<char>>, rooted: bool) -> Seq<char>
    decreases names.len(),
{
    if names.len() == 0 {
        if rooted {
            seq!['/']
        } else {
            Seq::empty()
        }
    } else if names.len() == 1 {
        spelled(Seq::empty(), rooted) + names[0]
    } else {
        spelled(names.drop_last(), rooted) + seq!['/'] + names.last()
    }
}

proof fn lemma_spelled(names: Seq<Seq<char>>)
    ensures
        spelled(names, false) == joined(names, seq!['/']),
        spelled(names, true) == seq!['/'] + joined(names, seq!['/']),
    decreases names.len(),
{
    let body = joined(names, seq!['/']);
    if names.len() == 0 {
        assert(seq!['/'] + body =~= seq!['/']);
    } else if names.len() == 1 {
        assert(spelled(Seq::empty(), false) + names[0] =~= names[0]);
        assert(spelled(Seq::empty(), true) == seq!['/']);
        assert(spelled(names, true) =~= seq!['/'] + names[0]);
    } else {
        lemma_spelled(names.drop_last());
        let front = joined(names.drop_last(), seq!['/']);
        assert(seq!['/'] + front + seq!['/'] + names.last() =~= seq!['/'] + (front + seq!['/']
            + names.last()));
    }
}

proof fn lemma_settled_of(x: Seq<char>, names: Seq<Seq<char>>)
    requires
        all_settled(names),
        normalized(x) == spelled(names, is_absolute(x)),
    ensures
        settled(pieces(x)) == names,
{
    lemma_pieces_hold_no_slash(x);
    lemma_settled_names(pieces(x));
    let own = settled(pieces(x));
    lemma_spelled(names);
    let a = joined(own, seq!['/']);
    let b = joined(names, seq!['/']);
    if is_absolute(x) {
        assert((seq!['/'] + a).skip(1) =~= a);
        assert((seq!['/'] + b).skip(1) =~= b);
    }
    assert(a == b);
    if own.len() > 0 {
        lemma_pieces_joined(own);
    }
    if names.len() > 0 {
        lemma_pieces_joined(names);
    }
    if own.len() == 0 || names.len() == 0 {
        assert(own =~= names);
    }
}

/// The names that are left when one more piece of a path is followed: none and `.` lead
/// nowhere, `..` leads out of the last name, if there is one, and any other name is added.
pub open spec fn led_by(names: Seq<Seq<char>>, piece: Seq<char>) -> Seq<Seq<char>> {
    if piece.len() == 0 || piece == seq!['.'] {
        names
    } else if piece == seq!['.', '.'] {
        if names.len() > 0 {
            names.drop_last()
        } else {
            names
        }
    } else {
        names.push(piece)
    }
}

/// A normalised path is worked out piece by piece, from the root or from nothing; a path of
/// names that are neither `.` nor `..` stays as it is.
pub proof fn paths_are_normalized_piece_by_piece(
    x: Seq<char>,
    names: Seq<Seq<char>>,
    piece: Seq<char>,
    rooted: bool,
)
    requires
        all_settled(names),
        !piece.contains('/'),
    ensures
        x.len() > 0 && normalized(x) == spelled(names, is_absolute(x)) ==> normalized(
            x + seq!['/'] + piece,
        ) == spelled(led_by(names, piece), is_absolute(x)),
        normalized(seq!['/'] + piece) == spelled(led_by(Seq::empty(), piece), true),
        normalized(piece) == spelled(led_by(Seq::empty(), piece), false),
        normalized(spelled(names, rooted)) == spelled(names, rooted),
{
    if x.len() > 0 && normalized(x) == spelled(names, is_absolute(x)) {
        lemma_settled_of(x, names);
        lemma_pieces_append(x, piece);
        let whole = x + seq!['/'] + piece;
        assert(whole[0] == x[0]);
        assert(pieces(whole).drop_last() =~= pieces(x));
        lemma_spelled(led_by(names, piece));
        assert(piece.len() == 0 ==> piece =~= Seq::<char>::empty());
        assert(settled(pieces(whole)) == led_by(names, piece));
    }
    lemma_pieces_alone(piece);
    lemma_pieces_led(piece);
    let none = Seq::<Seq<char>>::empty();
    let one = seq![piece];
    let two = seq![Seq::<char>::empty()] + one;
    assert(one.drop_last() =~= none);
    assert(settled(none) =~= none);
    assert(two.drop_last() =~= seq![Seq::<char>::empty()]);
    assert(seq![Seq::<char>::empty()].drop_last() =~= none);
    assert(settled(seq![Seq::<char>::empty()]) =~= none);
    assert(piece.len() == 0 ==> piece =~= Seq::<char>::empty());
    assert(settled(one) =~= led_by(none, piece));
    assert(settled(two) =~= led_by(none, piece));
    lemma_spelled(led_by(none, piece));
    assert(is_absolute(seq!['/'] + piece));
    assert(!is_absolute(piece)) by {
        if piece.len() > 0 {
            assert(piece.contains(piece[0]));
        }
    }
    lemma_spelled(names);
    lemma_settled_stays(names);
    let body = joined(names, seq!['/']);
    if names.len() > 0 {
        lemma_pieces_joined(names);
        lemma_pieces_led(body);
    } else {
        assert(body =~= Seq::<char>::empty());
        lemma_pieces_alone(body);
        lemma_pieces_led(body);
        assert(pieces(body) =~= seq![Seq::<char>::empty()]);
        let both = seq![Seq::<char>::empty()] + pieces(body);
        assert(both.drop_last() =~= seq![Seq::<char>::empty()]);
        assert(settled(both) =~= none);
        assert(settled(pieces(body)) =~= none);
    }
}

proof fn lemma_last_piece(a: Seq<char>, name: Seq<char>, start: int)
    requires
        !name.contains('/'),
        0 <= start <= a.len(),
        a.len() == start || a.last() == '/',
    ensures
        piece_start(a + name, start) == a.len(),
    decreases name.len(),
{
    let s = a + name;
    if name.len() == 0 {
        assert(s =~= a);
    } else {
        assert(s.last() == name.last());
        assert(name.contains(name.last()));
        assert(s.drop_last() =~= a + name.drop_last());
        assert(!name.drop_last().contains('/')) by {
            if name.drop_last().contains('/') {
                let i = choose|i: int|
                    0 <= i < name.drop_last().len() && name.drop_last()[i] == '/';
                assert(name[i] == '/');
            }
        }
        lemma_last_piece(a, name.drop_last(), start);
    }
}

/// The parent of a path of names is the path without the last of them; the root and the
/// empty path have none. The extension is what stands behind the last dot of the last name,
/// if something stands in front of it.
pub proof fn parents_drop_the_last_name(
    names: Seq<Seq<char>>,
    name: Seq<char>,
    stem: Seq<char>,
    ext: Seq<char>,
)
    requires
        all_settled(names),
        is_settled_name(name),
    ensures
        parent(spelled(names.push(name), true)) == Some(spelled(names, true)),
        spelled(names, true).len() < spelled(names.push(name), true).len(),
        parent(seq!['/']) is None,
        parent(Seq::empty()) is None,
        file_name(spelled(names.push(name), true)) == Some(name),
        stem.len() > 0 && name == stem + seq!['.'] + ext && !ext.contains('.') ==> extension(
            spelled(names.push(name), true),
        ) == Some(ext),
        !name.contains('.') ==> extension(spelled(names.push(name), true)) is None,
{
    let all = names.push(name);
    let path = spelled(all, true);
    let up = spelled(names, true);
    assert(all.drop_last() =~= names);
    let a = if names.len() == 0 {
        up
    } else {
        up + seq!['/']
    };
    assert(names.len() == 0 ==> names =~= Seq::empty());
    assert(path =~= a + name);
    lemma_spelled(names);
    lemma_spelled(all);
    assert(is_absolute(path) && is_absolute(up));
    lemma_last_piece(a, name, 1);
    assert(last_piece(path, 1) =~= name);
    assert(trim_tail(path, 1) == path);
    if names.len() == 0 {
        assert(drop_piece(path, 1) =~= up);
    } else {
        assert(path.take(a.len() - 1) =~= up);
        assert(drop_piece(path, 1) == up);
        let last = names.last();
        assert(is_settled_name(names[names.len() - 1]));
        let before = names.drop_last();
        let b = if before.len() == 0 {
            spelled(before, true)
        } else {
            spelled(before, true) + seq!['/']
        };
        assert(names.len() == 1 ==> before =~= Seq::empty());
        assert(up =~= b + last);
        lemma_spelled(before);
        lemma_last_piece(b, last, 1);
        assert(last_piece(up, 1) =~= last);
        assert(trim_tail(up, 1) == up);
    }
    assert(trim_tail(seq!['/'], 1) == seq!['/']);
    assert(trim_tail(Seq::empty(), 0) == Seq::<char>::empty());
    lemma_find_last(name, '.');
    if name == stem + seq!['.'] + ext && !ext.contains('.') && stem.len() > 0 {
        let at = find_last(name, '.');
        assert(name[stem.len() as int] == '.');
        if at > stem.len() {
            assert(ext[at - stem.len() - 1] == '.');
        }
        assert(at == stem.len());
        assert(name.skip(at + 1) =~= ext);
    }
}

proof fn lemma_find_last(s: Seq<char>, c: char)
    ensures
        -1 <= find_last(s, c) < s.len(),
        find_last(s, c) >= 0 ==> s[find_last(s, c)] == c,
        forall|i: int| find_last(s, c) < i < s.len() ==> s[i] != c,
    decreases s.len(),
{
    if s.len() > 0 && s.last() != c {
        lemma_find_last(s.drop_last(), c);
        assert forall|i: int| find_last(s, c) < i < s.len() implies s[i] != c by {
            if i < s.len() - 1 {
                assert(s.drop_last()[i] == s[i]);
            }
        }
    }
}

/// What a path means to a shell: `~` is the home directory and `~/` leads into it, a path
/// from the root stands for itself, and any other path starts in the directory of the shell.
pub proof fn paths_are_resolved_where_they_start(
    cwd: Seq<char>,
    path: Seq<char>,
    home: Seq<char>,
)
    ensures
        resolved(cwd, seq!['~'], home) == home,
        home.len() > 0 && home.last() != '/' && !(path.len() > 0 && path[0] == '/') ==> resolved(
            cwd,
            seq!['~', '/'] + path,
            home,
        ) == normalized(home + seq!['/'] + path),
        resolved(cwd, seq!['/'] + path, home) == normalized(seq!['/'] + path),
        cwd.len() > 0 && cwd.last() != '/' && (path.len() == 0 || path[0] != '/' && path[0] != '~')
            ==> resolved(cwd, path, home) == normalized(cwd + seq!['/'] + path),
        cwd.len() > 0 && cwd.last() == '/' && path.len() > 0 && path[0] != '/' && path[0] != '~'
            ==> resolved(cwd, path, home) == normalized(cwd + path),
        path.len() > 1 && path[0] == '~' && path[1] != '/' && cwd.len() > 0 && cwd.last() != '/'
            ==> resolved(cwd, path, home) == normalized(cwd + seq!['/'] + path),
{
    reveal_strlit("~");
    assert("~"@ =~= seq!['~']);
    let a = seq!['~', '/'] + path;
    assert(a.skip(2) =~= path);
    assert(a.len() >= 2 && a[0] == '~' && a[1] == '/');
    assert(a != "~"@);
    let b = seq!['/'] + path;
    assert(b[0] == '/');
    assert(b != "~"@) by {
        assert("~"@[0] == '~');
    }
    assert(home.push('/') + path =~= home + seq!['/'] + path);
    assert(cwd.push('/') + path =~= cwd + seq!['/'] + path);
    if path == "~"@ {
        assert(path[0] == '~' && path.len() == 1);
    }
}

/// A path is joined to a directory by one slash; a path from the root replaces it.
pub proof fn paths_are_joined_by_one_slash(base: Seq<char>, path: Seq<char>)
    ensures
        path.len() > 0 && path[0] == '/' ==> join_path(base, path) == path,
        !(path.len() > 0 && path[0] == '/') && base.len() > 0 && base.last() != '/' ==> join_path(
            base,
            path,
        ) == base + seq!['/'] + path,
        !(path.len() > 0 && path[0] == '/') && base.len() > 0 && base.last() == '/' ==> join_path(
            base,
            path,
        ) == base + path,
{
    assert(base.push('/') + path =~= base + seq!['/'] + path);
}

/// A name by itself is its own file name, and its extension is what stands behind its last
/// dot, if something stands in front of it.
pub proof fn bare_names_are_file_names(name: Seq<char>, stem: Seq<char>, ext: Seq<char>)
    requires
        is_settled_name(name),
    ensures
        file_name(name) == Some(name),
        stem.len() > 0 && name == stem + seq!['.'] + ext && !ext.contains('.') ==> extension(name)
            == Some(ext),
        !name.contains('.') ==> extension(name) is None,
{
    assert forall|k: int| 0 <= k < name.len() implies name[k] != '/' by {
        assert(name.contains(name[k]));
    }
    let none = Seq::<char>::empty();
    assert(none + name =~= name);
    lemma_last_piece(none, name, 0);
    assert(last_piece(name, 0) =~= name);
    assert(trim_tail(name, 0) == name);
    lemma_find_last(name, '.');
    if name == stem + seq!['.'] + ext && !ext.contains('.') && stem.len() > 0 {
        let at = find_last(name, '.');
        assert(name[stem.len() as int] == '.');
        if at > stem.len() {
            assert(ext[at - stem.len() - 1] == '.');
        }
        assert(at == stem.len());
        assert(name.skip(at + 1) =~= ext);
    }
}

} // verus!

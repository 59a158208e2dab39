//! Strings as sequences of characters: the operations that the parsers and the
//! rule engine are built from.
use vstd::prelude::*;

verus! {

broadcast use vstd::string::group_string_axioms;

/// `<str as PartialEq>::eq`: two string slices are equal when they hold the same
/// characters.
pub assume_specification[ <str as PartialEq>::eq ](a: &str, b: &str) -> (r: bool)
    ensures
        r == (a@ == b@),
;

/// `String::push`: appends one character.
pub assume_specification[ String::push ](s: &mut String, c: char)
    ensures
        final(s)@ == old(s)@.push(c),
;

/// `String::push_str`: appends the characters of a string slice.
pub assume_specification[ String::push_str ](s: &mut String, t: &str)
    ensures
        final(s)@ == old(s)@ + t@,
;

/// Name for `char::is_alphabetic` beyond ASCII: the Unicode `Alphabetic` property.
pub uninterp spec fn unicode_alphabetic(c: char) -> bool;

/// Name for `char::is_numeric` beyond ASCII: the Unicode numeric categories.
pub uninterp spec fn unicode_numeric(c: char) -> bool;

pub open spec fn is_ascii_char(c: char) -> bool {
    (c as u32) < 128
}

pub open spec fn is_ascii_letter(c: char) -> bool {
    'a' <= c <= 'z' || 'A' <= c <= 'Z'
}

pub open spec fn is_digit(c: char) -> bool {
    '0' <= c <= '9'
}

pub open spec fn alphabetic(c: char) -> bool {
    if is_ascii_char(c) {
        is_ascii_letter(c)
    } else {
        unicode_alphabetic(c)
    }
}

pub open spec fn alphanumeric(c: char) -> bool {
    if is_ascii_char(c) {
        is_ascii_letter(c) || is_digit(c)
    } else {
        unicode_alphabetic(c) || unicode_numeric(c)
    }
}

/// A character of a shell or configuration name: a letter, a digit or `_`.
pub open spec fn is_name_char(c: char) -> bool {
    alphanumeric(c) || c == '_'
}

/// `char::is_alphabetic`: on ASCII the letters, elsewhere the named Unicode property.
pub assume_specification[ char::is_alphabetic ](c: char) -> (r: bool)
    ensures
        is_ascii_char(c) ==> r == is_ascii_letter(c),
        !is_ascii_char(c) ==> r == unicode_alphabetic(c),
;

/// `char::is_alphanumeric`: on ASCII the letters and digits, elsewhere what is
/// alphabetic or numeric.
pub assume_specification[ char::is_alphanumeric ](c: char) -> (r: bool)
    ensures
        is_ascii_char(c) ==> r == (is_ascii_letter(c) || is_digit(c)),
        !is_ascii_char(c) ==> r == (unicode_alphabetic(c) || unicode_numeric(c)),
;

/// The characters with the Unicode `White_Space` property.
pub open spec fn is_whitespace(c: char) -> bool {
    ||| '\u{9}' <= c <= '\u{d}'
    ||| c == ' '
    ||| c == '\u{85}'
    ||| c == '\u{a0}'
    ||| c == '\u{1680}'
    ||| '\u{2000}' <= c <= '\u{200a}'
    ||| c == '\u{2028}'
    ||| c == '\u{2029}'
    ||| c == '\u{202f}'
    ||| c == '\u{205f}'
    ||| c == '\u{3000}'
}

/// The characters of every string in a sequence.
pub open spec fn texts(v: Seq<String>) -> Seq<Seq<char>> {
    Seq::new(v.len(), |i: int| v[i]@)
}

/// The characters of an optional string.
pub open spec fn opt_text(o: Option<String>) -> Option<Seq<char>> {
    match o {
        Some(s) => Some(s@),
        None => None,
    }
}

pub proof fn lemma_texts_push(v: Seq<String>, s: String)
    ensures
        texts(v.push(s)) == texts(v).push(s@),
{
    assert(texts(v.push(s)) =~= texts(v).push(s@));
}

/// Whether every character of `s` satisfies `is_name_char`.
pub open spec fn all_name_chars(s: Seq<char>) -> bool {
    forall|i: int| 0 <= i < s.len() ==> is_name_char(#[trigger] s[i])
}

/// `s` without leading characters that satisfy `p`.
pub open spec fn trim_front(s: Seq<char>, p: spec_fn(char) -> bool) -> Seq<char>
    decreases s.len(),
{
    if s.len() > 0 && p(s[0]) {
        trim_front(s.drop_first(), p)
    } else {
        s
    }
}

/// `s` without trailing characters that satisfy `p`.
pub open spec fn trim_back(s: Seq<char>, p: spec_fn(char) -> bool) -> Seq<char>
    decreases s.len(),
{
    if s.len() > 0 && p(s.last()) {
        trim_back(s.drop_last(), p)
    } else {
        s
    }
}

/// `s` without surrounding whitespace.
pub open spec fn trimmed(s: Seq<char>) -> Seq<char> {
    trim_back(trim_front(s, |c: char| is_whitespace(c)), |c: char| is_whitespace(c))
}

/// `s` without surrounding quote characters.
pub open spec fn unquoted(s: Seq<char>) -> Seq<char> {
    trim_back(trim_front(s, |c: char| c == '\'' || c == '"'), |c: char| c == '\'' || c == '"')
}

/// `s` with every occurrence of `pat`, found from left to right without overlap,
/// replaced by `with`.
pub open spec fn replaced(s: Seq<char>, pat: Seq<char>, with: Seq<char>) -> Seq<char>
    decreases s.len(),
{
    if pat.len() == 0 || s.len() < pat.len() {
        s
    } else if s.take(pat.len() as int) == pat {
        with + replaced(s.skip(pat.len() as int), pat, with)
    } else {
        seq![s[0]] + replaced(s.skip(1), pat, with)
    }
}

/// The items of `parts`, with `sep` between each two of them.
pub open spec fn joined(parts: Seq<Seq<char>>, sep: Seq<char>) -> Seq<char>
    decreases parts.len(),
{
    if parts.len() == 0 {
        Seq::empty()
    } else if parts.len() == 1 {
        parts[0]
    } else {
        joined(parts.drop_last(), sep) + sep + parts.last()
    }
}

/// The digit character for `d < 10`.
pub open spec fn digit_char(d: nat) -> char {
    if d == 0 { '0' } else if d == 1 { '1' } else if d == 2 { '2' } else if d == 3 { '3' }
    else if d == 4 { '4' } else if d == 5 { '5' } else if d == 6 { '6' } else if d == 7 { '7' }
    else if d == 8 { '8' } else { '9' }
}

/// The number in decimal notation.
pub open spec fn decimal(n: nat) -> Seq<char>
    decreases n,
{
    if n < 10 {
        seq![digit_char(n)]
    } else {
        decimal(n / 10).push(digit_char(n % 10))
    }
}

/// The first position at or after `from` that holds `c`, or the length of `s`.
pub open spec fn find_from(s: Seq<char>, from: int, c: char) -> int
    decreases s.len() - from,
{
    if from >= s.len() {
        s.len() as int
    } else if s[from] == c {
        from
    } else {
        find_from(s, from + 1, c)
    }
}

pub proof fn lemma_find_bounds(s: Seq<char>, i: int, c: char)
    requires
        0 <= i <= s.len(),
    ensures
        i <= find_from(s, i, c) <= s.len(),
        find_from(s, i, c) < s.len() ==> s[find_from(s, i, c)] == c,
    decreases s.len() - i,
{
    if i < s.len() && s[i] != c {
        lemma_find_bounds(s, i + 1, c);
    }
}

/// Equality of two string slices.
pub fn str_eq(a: &str, b: &str) -> (r: bool)
    ensures
        r == (a@ == b@),
{
    *a == *b
}

pub fn is_space(c: char) -> (r: bool)
    ensures
        r == is_whitespace(c),
{
    ('\u{9}' <= c && c <= '\u{d}') || c == ' ' || c == '\u{85}' || c == '\u{a0}' || c == '\u{1680}'
        || ('\u{2000}' <= c && c <= '\u{200a}') || c == '\u{2028}' || c == '\u{2029}'
        || c == '\u{202f}' || c == '\u{205f}' || c == '\u{3000}'
}

/// The characters of a string slice, as a vector.
pub fn chars_of(s: &str) -> (r: Vec<char>)
    ensures
        r@ == s@,
{
    let mut r: Vec<char> = Vec::new();
    for c in it: s.chars()
        invariant
            r@ == s@.take(it.index()),
            it.seq() == s@,
    {
        r.push(c);
    }
    r
}

/// The string of the characters of `cs` between two positions.
pub fn string_of(cs: &Vec<char>, from: usize, to: usize) -> (r: String)
    requires
        from <= to <= cs@.len(),
    ensures
        r@ == cs@.subrange(from as int, to as int),
{
    let mut r = String::new();
    let mut i: usize = from;
    while i < to
        invariant
            from <= i <= to <= cs@.len(),
            r@ == cs@.subrange(from as int, i as int),
        decreases to - i,
    {
        r.push(cs[i]);
        i = i + 1;
    }
    r
}

pub fn all_names(cs: &Vec<char>, from: usize, to: usize) -> (r: bool)
    requires
        from <= to <= cs@.len(),
    ensures
        r == all_name_chars(cs@.subrange(from as int, to as int)),
{
    let mut i: usize = from;
    let ghost part = cs@.subrange(from as int, to as int);
    while i < to
        invariant
            from <= i <= to <= cs@.len(),
            part == cs@.subrange(from as int, to as int),
            forall|k: int| 0 <= k < i - from ==> is_name_char(#[trigger] part[k]),
        decreases to - i,
    {
        let c = cs[i];
        assert(part[i - from] == c);
        if !(c.is_alphanumeric() || c == '_') {
            return false;
        }
        i = i + 1;
    }
    true
}

/// The first position at or after `from` that holds `c`, or the length.
pub fn find_char(cs: &Vec<char>, from: usize, c: char) -> (r: usize)
    requires
        from <= cs@.len(),
    ensures
        from <= r <= cs@.len(),
        r == find_from(cs@, from as int, c),
        r < cs@.len() ==> cs@[r as int] == c,
        forall|k: int| from <= k < r ==> cs@[k] != c,
{
    let mut i: usize = from;
    while i < cs.len() && cs[i] != c
        invariant
            from <= i <= cs@.len(),
            find_from(cs@, i as int, c) == find_from(cs@, from as int, c),
            forall|k: int| from <= k < i ==> cs@[k] != c,
        decreases cs@.len() - i,
    {
        i = i + 1;
    }
    i
}

/// `str::trim`: the text without surrounding whitespace.
pub fn trim(cs: &Vec<char>, from: usize, to: usize) -> (r: String)
    requires
        from <= to <= cs@.len(),
    ensures
        r@ == trimmed(cs@.subrange(from as int, to as int)),
{
    let ghost p = |c: char| is_whitespace(c);
    let mut a: usize = from;
    let mut b: usize = to;
    while a < to && is_space(cs[a])
        invariant
            from <= a <= to <= cs@.len(),
            p == (|c: char| is_whitespace(c)),
            trim_front(cs@.subrange(a as int, to as int), p)
                == trim_front(cs@.subrange(from as int, to as int), p),
        decreases to - a,
    {
        assert(cs@.subrange(a as int, to as int).drop_first() =~= cs@.subrange(a + 1, to as int));
        a = a + 1;
    }
    assert(trim_front(cs@.subrange(a as int, to as int), p) == cs@.subrange(a as int, to as int));
    while b > a && is_space(cs[b - 1])
        invariant
            a <= b <= to <= cs@.len(),
            p == (|c: char| is_whitespace(c)),
            trim_back(cs@.subrange(a as int, b as int), p)
                == trim_back(cs@.subrange(a as int, to as int), p),
        decreases b,
    {
        assert(cs@.subrange(a as int, b as int).drop_last() =~= cs@.subrange(a as int, b - 1));
        b = b - 1;
    }
    string_of(cs, a, b)
}

/// The text without surrounding quote characters.
pub fn trim_quotes(s: &str) -> (r: String)
    ensures
        r@ == unquoted(s@),
{
    let cs = chars_of(s);
    let ghost p = |c: char| c == '\'' || c == '"';
    let mut a: usize = 0;
    let mut b: usize = cs.len();
    assert(cs@.subrange(0, cs@.len() as int) =~= s@);
    while a < cs.len() && (cs[a] == '\'' || cs[a] == '"')
        invariant
            a <= cs@.len(),
            p == (|c: char| c == '\'' || c == '"'),
            trim_front(cs@.subrange(a as int, cs@.len() as int), p) == trim_front(s@, p),
        decreases cs@.len() - a,
    {
        assert(cs@.subrange(a as int, cs@.len() as int).drop_first() =~= cs@.subrange(
            a + 1,
            cs@.len() as int,
        ));
        a = a + 1;
    }
    while b > a && (cs[b - 1] == '\'' || cs[b - 1] == '"')
        invariant
            a <= b <= cs@.len(),
            p == (|c: char| c == '\'' || c == '"'),
            trim_back(cs@.subrange(a as int, b as int), p)
                == trim_back(cs@.subrange(a as int, cs@.len() as int), p),
        decreases b,
    {
        assert(cs@.subrange(a as int, b as int).drop_last() =~= cs@.subrange(a as int, b - 1));
        b = b - 1;
    }
    string_of(&cs, a, b)
}

fn matches_at(cs: &Vec<char>, at: usize, pat: &Vec<char>) -> (r: bool)
    requires
        at + pat@.len() <= cs@.len(),
    ensures
        r == (cs@.skip(at as int).take(pat@.len() as int) == pat@),
{
    let mut k: usize = 0;
    while k < pat.len()
        invariant
            k <= pat@.len(),
            at + pat@.len() <= cs@.len(),
            forall|j: int| 0 <= j < k ==> cs@[at + j] == pat@[j],
        decreases pat@.len() - k,
    {
        assert(at + k < cs.len());
        if cs[at + k] != pat[k] {
            assert(cs@.skip(at as int).take(pat@.len() as int)[k as int] != pat@[k as int]);
            return false;
        }
        k = k + 1;
    }
    assert(cs@.skip(at as int).take(pat@.len() as int) =~= pat@);
    true
}

/// `str::replace`: every occurrence of `pat`, from left to right, replaced.
pub fn replace(s: &str, pat: &str, with: &str) -> (r: String)
    requires
        pat@.len() > 0,
    ensures
        r@ == replaced(s@, pat@, with@),
{
    let cs = chars_of(s);
    let pc = chars_of(pat);
    let mut r = String::new();
    let mut i: usize = 0;
    assert(cs@.skip(0) =~= s@);
    while i < cs.len() && cs.len() - i >= pc.len()
        invariant
            i <= cs@.len(),
            pc@ == pat@,
            pc@.len() > 0,
            r@ + replaced(cs@.skip(i as int), pat@, with@) == replaced(s@, pat@, with@),
        decreases cs@.len() - i,
    {
        let ghost rest = cs@.skip(i as int);
        let ghost before = r@;
        if matches_at(&cs, i, &pc) {
            r.push_str(with);
            i = i + pc.len();
            assert(rest.skip(pat@.len() as int) =~= cs@.skip(i as int));
            assert(r@ + replaced(cs@.skip(i as int), pat@, with@) =~= before + replaced(
                rest,
                pat@,
                with@,
            ));
        } else {
            r.push(cs[i]);
            i = i + 1;
            assert(rest.skip(1) =~= cs@.skip(i as int));
            assert(r@ + replaced(cs@.skip(i as int), pat@, with@) =~= before + replaced(
                rest,
                pat@,
                with@,
            ));
        }
    }
    let tail = string_of(&cs, i, cs.len());
    assert(tail@ =~= cs@.skip(i as int));
    r.push_str(tail.as_str());
    r
}

/// The strings of `parts` from position `from`, joined with `sep`.
pub fn join_from(parts: &[String], from: usize, sep: &str) -> (r: String)
    requires
        from <= parts@.len(),
    ensures
        r@ == joined(texts(parts@.skip(from as int)), sep@),
{
    let mut r = String::new();
    let mut i: usize = from;
    let ghost all = texts(parts@.skip(from as int));
    while i < parts.len()
        invariant
            from <= i <= parts@.len(),
            all == texts(parts@.skip(from as int)),
            r@ == joined(all.take(i - from), sep@),
        decreases parts@.len() - i,
    {
        let ghost k = i - from;
        assert(all.take(k + 1).drop_last() =~= all.take(k));
        assert(all.take(k + 1).last() == parts@[i as int]@);
        if i > from {
            r.push_str(sep);
        }
        r.push_str(parts[i].as_str());
        assert(r@ =~= joined(all.take(k + 1), sep@));
        i = i + 1;
    }
    assert(all.take(i - from) =~= all);
    r
}

fn digit(d: usize) -> (r: char)
    requires
        d < 10,
    ensures
        r == digit_char(d as nat),
{
    if d == 0 { '0' } else if d == 1 { '1' } else if d == 2 { '2' } else if d == 3 { '3' }
    else if d == 4 { '4' } else if d == 5 { '5' } else if d == 6 { '6' } else if d == 7 { '7' }
    else if d == 8 { '8' } else { '9' }
}

/// The number in decimal notation.
pub fn decimal_of(n: usize) -> (r: String)
    ensures
        r@ == decimal(n as nat),
    decreases n,
{
    if n < 10 {
        let mut r = String::new();
        r.push(digit(n));
        assert(r@ =~= seq![digit_char(n as nat)]);
        r
    } else {
        let mut r = decimal_of(n / 10);
        r.push(digit(n % 10));
        r
    }
}

/// A copy of a vector of strings.
pub fn copy_strings(v: &[String]) -> (r: Vec<String>)
    ensures
        r@ == v@,
{
    let mut r: Vec<String> = Vec::new();
    let mut i: usize = 0;
    while i < v.len()
        invariant
            i <= v@.len(),
            r@ == v@.take(i as int),
        decreases v@.len() - i,
    {
        r.push(v[i].clone());
        i = i + 1;
    }
    assert(v@.take(i as int) =~= v@);
    r
}

/// A copy of an optional string.
pub fn copy_opt(o: &Option<String>) -> (r: Option<String>)
    ensures
        r == *o,
{
    match o {
        Some(s) => Some(s.clone()),
        None => None,
    }
}

} // verus!

//! References to constants inside patterns: `$name` and `${name}`.
use vstd::prelude::*;
use crate::error::{outcome, Error, ErrorView};
use crate::strmap::{lemma_map_lookup, StrMap};
use crate::config::constant_map;
use crate::text::{chars_of, is_ascii_letter, is_digit, string_of};

verus! {

/// A character that a constant's name may begin with.
pub open spec fn begins_name(c: char) -> bool {
    is_ascii_letter(c) || c == '_'
}

/// A character that may stand further on in a constant's name.
pub open spec fn continues_name(c: char) -> bool {
    begins_name(c) || is_digit(c)
}

/// Where the run of name characters that holds position `i` ends.
pub open spec fn run_end(s: Seq<char>, i: int) -> int
    decreases s.len() - i,
{
    if 0 <= i < s.len() && continues_name(s[i]) {
        run_end(s, i + 1)
    } else {
        i
    }
}

/// Where the name that begins at `i` ends; `i` itself if none begins there.
pub open spec fn name_end(s: Seq<char>, i: int) -> int {
    if 0 <= i < s.len() && begins_name(s[i]) {
        run_end(s, i + 1)
    } else {
        i
    }
}

/// The reference that begins at `i`, if one does: the name, and the position behind
/// the reference.
pub open spec fn reference_at(s: Seq<char>, i: int) -> Option<(Seq<char>, int)> {
    if !(0 <= i < s.len() && s[i] == '$') {
        None
    } else if i + 1 < s.len() && s[i + 1] == '{' {
        let end = name_end(s, i + 2);
        if i + 2 < end < s.len() && s[end] == '}' {
            Some((s.subrange(i + 2, end), end + 1))
        } else {
            None
        }
    } else {
        let end = name_end(s, i + 1);
        if i + 1 < end <= s.len() {
            Some((s.subrange(i + 1, end), end))
        } else {
            None
        }
    }
}

/// `s` from position `i` on, with the values of constants in place of references, put
/// behind `acc`.
pub open spec fn substituted_from(
    s: Seq<char>,
    i: int,
    constants: Map<Seq<char>, Seq<char>>,
    acc: Seq<char>,
) -> Result<Seq<char>, ErrorView>
    decreases s.len() - i,
{
    if i < 0 || i >= s.len() {
        Ok(acc)
    } else {
        match reference_at(s, i) {
            Some((name, end)) => if !constants.dom().contains(name) {
                Err(ErrorView::UnknownConstant { name, pattern: s })
            } else if i < end <= s.len() {
                substituted_from(s, end, constants, acc + constants[name])
            } else {
                Ok(acc)
            },
            None => substituted_from(s, i + 1, constants, acc.push(s[i])),
        }
    }
}

/// `s` with the values of constants in place of references.
pub open spec fn substituted(s: Seq<char>, constants: Map<Seq<char>, Seq<char>>) -> Result<
    Seq<char>,
    ErrorView,
> {
    substituted_from(s, 0, constants, Seq::empty())
}

fn starts_name(c: char) -> (r: bool)
    ensures
        r == begins_name(c),
{
    ('a' <= c && c <= 'z') || ('A' <= c && c <= 'Z') || c == '_'
}

fn find_name_end(cs: &Vec<char>, from: usize) -> (r: usize)
    requires
        from <= cs@.len(),
    ensures
        r == name_end(cs@, from as int),
        from <= r <= cs@.len(),
{
    if from >= cs.len() || !starts_name(cs[from]) {
        return from;
    }
    let mut i: usize = from + 1;
    while i < cs.len() && (starts_name(cs[i]) || ('0' <= cs[i] && cs[i] <= '9'))
        invariant
            from < i <= cs@.len(),
            run_end(cs@, i as int) == run_end(cs@, from + 1),
        decreases cs@.len() - i,
    {
        i = i + 1;
    }
    i
}

/// The reference that begins at `i`, if one does.
fn read_reference(cs: &Vec<char>, i: usize) -> (r: Option<(String, usize)>)
    requires
        i < cs@.len(),
    ensures
        match r {
            Some((name, end)) => reference_at(cs@, i as int) == Some((name@, end as int)) && i < end
                <= cs@.len(),
            None => reference_at(cs@, i as int) is None,
        },
{
    assert(i < cs.len());
    if cs[i] != '$' {
        None
    } else if i + 1 < cs.len() && cs[i + 1] == '{' {
        let end = find_name_end(cs, i + 2);
        if i + 2 < end && end < cs.len() && cs[end] == '}' {
            Some((string_of(cs, i + 2, end), end + 1))
        } else {
            None
        }
    } else {
        let end = find_name_end(cs, i + 1);
        if i + 1 < end {
            Some((string_of(cs, i + 1, end), end))
        } else {
            None
        }
    }
}

/// Puts the values of constants in place of references to them.
pub fn substitute(s: &str, constants: &StrMap<String>) -> (r: Result<String, Error>)
    ensures
        outcome(r) == substituted(s@, constant_map(*constants)),
{
    let cs = chars_of(s);
    let mut text = String::new();
    assert(text@ =~= Seq::<char>::empty());
    let mut i: usize = 0;
    while i < cs.len()
        invariant
            i <= cs@.len(),
            cs@ == s@,
            substituted_from(s@, i as int, constant_map(*constants), text@) == substituted(
                s@,
                constant_map(*constants),
            ),
        decreases cs@.len() - i,
    {
        match read_reference(&cs, i) {
            Some((name, end)) => {
                proof {
                    lemma_map_lookup(constants@, |s: String| s@, name@);
                }
                match constants.get(&name) {
                    Some(value) => {
                        text.push_str(value);
                        i = end;
                    },
                    None => {
                        return Err(Error::UnknownConstant { name, pattern: s.to_owned() });
                    },
                }
            },
            None => {
                text.push(cs[i]);
                i = i + 1;
            },
        }
    }
    Ok(text)
}

} // verus!

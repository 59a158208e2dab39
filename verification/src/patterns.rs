//! Regular expressions: what the library takes from the `regex` crate, and the cache
//! of compiled patterns.
use vstd::prelude::*;
use crate::error::{Error, ErrorView};
use crate::text::str_eq;

verus! {

/// `regex::Regex`, a compiled pattern.
#[verifier::external_type_specification]
#[verifier::external_body]
pub struct ExRegex(regex::Regex);

/// What a compiled pattern holds: the text that `Regex::new` made it from. A value
/// that came about otherwise, with other options, holds none.
pub uninterp spec fn regex_source(re: regex::Regex) -> Option<Seq<char>>;

/// Name for what `Regex::new` finds wrong with a pattern, as text; `None` when the
/// pattern compiles.
pub uninterp spec fn pattern_error(pattern: Seq<char>) -> Option<Seq<char>>;

/// Name for `Regex::is_match`: whether a pattern that compiles matches somewhere in
/// a text.
pub uninterp spec fn pattern_matches(pattern: Seq<char>, text: Seq<char>) -> bool;

/// `Regex::new`: compiles a pattern, or says in words why it cannot be compiled.
#[verifier::external_body]
fn compile(pattern: &str) -> (r: Result<regex::Regex, String>)
    ensures
        match r {
            Ok(re) => pattern_error(pattern@) is None && regex_source(re) == Some(pattern@),
            Err(text) => pattern_error(pattern@) == Some(text@),
        },
{
    match regex::Regex::new(pattern) {
        Ok(re) => Ok(re),
        Err(e) => Err(e.to_string()),
    }
}

/// `Regex::as_str`: the text of the pattern.
pub assume_specification[ regex::Regex::as_str ](re: &regex::Regex) -> (r: &str)
    ensures
        regex_source(*re) is Some ==> r@ == regex_source(*re)->0,
;

/// `Regex::is_match`: whether the pattern matches somewhere in the text.
pub assume_specification[ regex::Regex::is_match ](re: &regex::Regex, haystack: &str) -> (r: bool)
    ensures
        regex_source(*re) is Some ==> r == pattern_matches(regex_source(*re)->0, haystack@),
;

/// The characters that mean something in a pattern.
pub open spec fn is_meta(c: char) -> bool {
    c == '\\' || c == '.' || c == '+' || c == '*' || c == '?' || c == '(' || c == ')' || c == '|'
        || c == '[' || c == ']' || c == '{' || c == '}' || c == '^' || c == '$' || c == '#' || c
        == '&' || c == '-' || c == '~'
}

/// `s` with a backslash in front of every character that means something in a
/// pattern.
pub open spec fn escaped(s: Seq<char>) -> Seq<char>
    decreases s.len(),
{
    if s.len() == 0 {
        Seq::empty()
    } else if is_meta(s.last()) {
        escaped(s.drop_last()).push('\\').push(s.last())
    } else {
        escaped(s.drop_last()).push(s.last())
    }
}

/// `regex::escape`: puts a backslash in front of every meta character. What it returns
/// stands for its argument literally, so that between `^` and `$`, which match at the
/// beginning and at the end of the text, it matches its argument and nothing else.
pub assume_specification[ regex::escape ](pattern: &str) -> (r: std::string::String)
    ensures
        r@ == escaped(pattern@),
        pattern_error("^"@ + r@ + "$"@) is None ==> forall|text: Seq<char>| #[trigger]
            pattern_matches("^"@ + r@ + "$"@, text) == (text == pattern@),
;

/// The pattern that a word matches and nothing else does.
pub fn exact_pattern(word: &str) -> (r: String)
    ensures
        r@ == "^"@ + escaped(word@) + "$"@,
        pattern_error(r@) is None ==> forall|text: Seq<char>| #[trigger]
            pattern_matches(r@, text) == (text == word@),
{
    let mut pattern = "^".to_owned();
    pattern.push_str(&regex::escape(word));
    pattern.push_str("$");
    pattern
}

/// `Regex::clone`: the copy holds the same pattern.
pub assume_specification[ <regex::Regex as Clone>::clone ](re: &regex::Regex) -> (r: regex::Regex)
    ensures
        regex_source(r) == regex_source(*re),
;

/// Whether a text matches a pattern, or what is wrong with the pattern.
pub open spec fn match_result(pattern: Seq<char>, text: Seq<char>) -> Result<bool, ErrorView> {
    match pattern_error(pattern) {
        None => Ok(pattern_matches(pattern, text)),
        Some(detail) => Err(ErrorView::InvalidRegex { pattern, detail }),
    }
}

/// Compiled patterns, found by their text.
#[derive(Debug)]
pub struct RegexCache {
    compiled: Vec<regex::Regex>,
}

impl RegexCache {
    /// Every entry was compiled from its text, without an error.
    #[verifier::type_invariant]
    spec fn inv(self) -> bool {
        forall|i: int|
            0 <= i < self.compiled@.len() ==> regex_source(#[trigger] self.compiled@[i]) is Some
                && pattern_error(regex_source(self.compiled@[i])->0) is None
    }

    /// Whether a pattern is in the cache.
    pub closed spec fn holds(self, pattern: Seq<char>) -> bool {
        exists|i: int|
            0 <= i < self.compiled@.len() && regex_source(#[trigger] self.compiled@[i]) == Some(
                pattern,
            )
    }

    /// The empty cache.
    pub fn new() -> (r: RegexCache)
        ensures
            forall|p: Seq<char>| !r.holds(p),
    {
        RegexCache { compiled: Vec::new() }
    }

    fn find(&self, pattern: &str) -> (r: Option<usize>)
        ensures
            match r {
                Some(i) => i < self.compiled@.len() && regex_source(self.compiled@[i as int])
                    == Some(pattern@),
                None => !self.holds(pattern@),
            },
    {
        proof {
            use_type_invariant(self);
        }
        let mut i: usize = 0;
        while i < self.compiled.len()
            invariant
                i <= self.compiled@.len(),
                self.inv(),
                forall|k: int|
                    0 <= k < i ==> regex_source(#[trigger] self.compiled@[k]) != Some(pattern@),
            decreases self.compiled@.len() - i,
        {
            if str_eq(self.compiled[i].as_str(), pattern) {
                return Some(i);
            }
            i = i + 1;
        }
        None
    }

    /// The cache with one more pattern; unchanged if the pattern is in it.
    pub fn with(self, pattern: &str) -> (r: Result<RegexCache, Error>)
        ensures
            match r {
                Ok(cache) => pattern_error(pattern@) is None && forall|p: Seq<char>|
                    #![trigger cache.holds(p)]
                    cache.holds(p) <==> self.holds(p) || p == pattern@,
                Err(e) => pattern_error(pattern@) is Some && e@ == (ErrorView::InvalidRegex {
                    pattern: pattern@,
                    detail: pattern_error(pattern@)->0,
                }),
            },
    {
        proof {
            use_type_invariant(&self);
        }
        if self.find(pattern).is_some() {
            return Ok(self);
        }
        match compile(pattern) {
            Ok(re) => {
                let ghost before = self.compiled@;
                let mut compiled = self.compiled;
                compiled.push(re);
                let r = RegexCache { compiled };
                proof {
                    assert forall|p: Seq<char>|
                        #![trigger r.holds(p)]
                        r.holds(p) <==> self.holds(p) || p == pattern@ by {
                        if self.holds(p) {
                            let i = choose|i: int|
                                0 <= i < before.len() && regex_source(#[trigger] before[i])
                                    == Some(p);
                            assert(regex_source(r.compiled@[i]) == Some(p));
                        }
                        if p == pattern@ {
                            assert(regex_source(r.compiled@[before.len() as int]) == Some(p));
                        }
                        if r.holds(p) && p != pattern@ {
                            let i = choose|i: int|
                                0 <= i < r.compiled@.len() && regex_source(
                                    #[trigger] r.compiled@[i],
                                ) == Some(p);
                            assert(regex_source(before[i]) == Some(p));
                        }
                    }
                }
                Ok(r)
            },
            Err(detail) => Err(Error::InvalidRegex { pattern: pattern.to_owned(), detail }),
        }
    }

    /// Whether `text` matches `pattern`. A pattern that is not in the cache is
    /// compiled for the occasion.
    pub fn matches(&self, pattern: &str, text: &str) -> (r: Result<bool, Error>)
        ensures
            match r {
                Ok(b) => match_result(pattern@, text@) == Ok::<bool, ErrorView>(b),
                Err(e) => match_result(pattern@, text@) == Err::<bool, ErrorView>(e@),
            },
    {
        proof {
            use_type_invariant(self);
        }
        match self.find(pattern) {
            Some(i) => Ok(self.compiled[i].is_match(text)),
            None => match compile(pattern) {
                Ok(re) => Ok(re.is_match(text)),
                Err(detail) => Err(Error::InvalidRegex { pattern: pattern.to_owned(), detail }),
            },
        }
    }
}

impl Default for RegexCache {
    fn default() -> (r: RegexCache)
        ensures
            forall|p: Seq<char>| !r.holds(p),
    {
        RegexCache::new()
    }
}

impl Clone for RegexCache {
    fn clone(&self) -> (r: RegexCache)
        ensures
            forall|p: Seq<char>| r.holds(p) == self.holds(p),
    {
        proof {
            use_type_invariant(self);
        }
        let mut compiled: Vec<regex::Regex> = Vec::new();
        let mut i: usize = 0;
        while i < self.compiled.len()
            invariant
                i == compiled@.len(),
                i <= self.compiled@.len(),
                forall|k: int|
                    0 <= k < i ==> regex_source(#[trigger] compiled@[k]) == regex_source(
                        self.compiled@[k],
                    ),
            decreases self.compiled@.len() - i,
        {
            compiled.push(self.compiled[i].clone());
            i = i + 1;
        }
        let r = RegexCache { compiled };
        proof {
            assert forall|p: Seq<char>| r.holds(p) == self.holds(p) by {
                if self.holds(p) {
                    let i = choose|i: int|
                        0 <= i < self.compiled@.len() && regex_source(
                            #[trigger] self.compiled@[i],
                        ) == Some(p);
                    assert(regex_source(r.compiled@[i]) == Some(p));
                }
            }
        }
        r
    }
}

} // verus!

//! The tokens of the rule language, and how text is cut into them.
use vstd::prelude::*;
use crate::error::{Error, ErrorView};
use crate::text::{
    chars_of, find_char, find_from, alphabetic, alphanumeric, is_digit, is_name_char, str_eq,
    string_of,
};

verus! {

#[derive(Debug, PartialEq)]
pub enum Token {
    // Keywords
    Let,
    Table,
    Default,
    Opts,
    Skip,
    Flag,
    Evaluate,
    Forward,
    Allow,
    Deny,
    Passthrough,
    Force,
    Entry,
    Audit,
    // Symbols
    /// `→` or `->`
    Arrow,
    LBrace,
    RBrace,
    LBracket,
    RBracket,
    Comma,
    Bang,
    Equals,
    // Literals
    /// `/pattern/` or `r"pattern"`
    Regex(String),
    /// `"string"`
    Str(String),
    /// `$name`
    VarRef(String),
    /// A bare word.
    Ident(String),
    /// `-c`, `-u`, `-vvv` and the like
    FlagLit(String),
    Number(usize),
    // Structure
    Newline,
}

/// A token, in mathematical form.
pub enum TokenView {
    Let,
    Table,
    Default,
    Opts,
    Skip,
    Flag,
    Evaluate,
    Forward,
    Allow,
    Deny,
    Passthrough,
    Force,
    Entry,
    Audit,
    Arrow,
    LBrace,
    RBrace,
    LBracket,
    RBracket,
    Comma,
    Bang,
    Equals,
    Regex(Seq<char>),
    Str(Seq<char>),
    VarRef(Seq<char>),
    Ident(Seq<char>),
    FlagLit(Seq<char>),
    Number(nat),
    Newline,
}

impl View for Token {
    type V = TokenView;

    open spec fn view(&self) -> TokenView {
        match *self {
            Token::Let => TokenView::Let,
            Token::Table => TokenView::Table,
            Token::Default => TokenView::Default,
            Token::Opts => TokenView::Opts,
            Token::Skip => TokenView::Skip,
            Token::Flag => TokenView::Flag,
            Token::Evaluate => TokenView::Evaluate,
            Token::Forward => TokenView::Forward,
            Token::Allow => TokenView::Allow,
            Token::Deny => TokenView::Deny,
            Token::Passthrough => TokenView::Passthrough,
            Token::Force => TokenView::Force,
            Token::Entry => TokenView::Entry,
            Token::Audit => TokenView::Audit,
            Token::Arrow => TokenView::Arrow,
            Token::LBrace => TokenView::LBrace,
            Token::RBrace => TokenView::RBrace,
            Token::LBracket => TokenView::LBracket,
            Token::RBracket => TokenView::RBracket,
            Token::Comma => TokenView::Comma,
            Token::Bang => TokenView::Bang,
            Token::Equals => TokenView::Equals,
            Token::Regex(s) => TokenView::Regex(s@),
            Token::Str(s) => TokenView::Str(s@),
            Token::VarRef(s) => TokenView::VarRef(s@),
            Token::Ident(s) => TokenView::Ident(s@),
            Token::FlagLit(s) => TokenView::FlagLit(s@),
            Token::Number(n) => TokenView::Number(n as nat),
            Token::Newline => TokenView::Newline,
        }
    }
}

impl Clone for Token {
    fn clone(&self) -> (r: Token)
        ensures
            r@ == self@,
    {
        match self {
            Token::Let => Token::Let,
            Token::Table => Token::Table,
            Token::Default => Token::Default,
            Token::Opts => Token::Opts,
            Token::Skip => Token::Skip,
            Token::Flag => Token::Flag,
            Token::Evaluate => Token::Evaluate,
            Token::Forward => Token::Forward,
            Token::Allow => Token::Allow,
            Token::Deny => Token::Deny,
            Token::Passthrough => Token::Passthrough,
            Token::Force => Token::Force,
            Token::Entry => Token::Entry,
            Token::Audit => Token::Audit,
            Token::Arrow => Token::Arrow,
            Token::LBrace => Token::LBrace,
            Token::RBrace => Token::RBrace,
            Token::LBracket => Token::LBracket,
            Token::RBracket => Token::RBracket,
            Token::Comma => Token::Comma,
            Token::Bang => Token::Bang,
            Token::Equals => Token::Equals,
            Token::Regex(s) => Token::Regex(s.clone()),
            Token::Str(s) => Token::Str(s.clone()),
            Token::VarRef(s) => Token::VarRef(s.clone()),
            Token::Ident(s) => Token::Ident(s.clone()),
            Token::FlagLit(s) => Token::FlagLit(s.clone()),
            Token::Number(n) => Token::Number(*n),
            Token::Newline => Token::Newline,
        }
    }
}

/// A place in the source text. Lines and columns count from 1.
#[derive(Debug, Clone, Copy)]
pub struct Span {
    pub line: usize,
    pub col: usize,
}

#[derive(Debug)]
pub struct SpannedToken {
    pub token: Token,
    pub span: Span,
}

impl Clone for SpannedToken {
    fn clone(&self) -> (r: SpannedToken)
        ensures
            r@ == self@,
    {
        SpannedToken { token: self.token.clone(), span: self.span }
    }
}

/// A token with its place, in mathematical form.
pub struct SpannedView {
    pub token: TokenView,
    pub line: nat,
    pub col: nat,
}

impl View for SpannedToken {
    type V = SpannedView;

    open spec fn view(&self) -> SpannedView {
        SpannedView {
            token: self.token@,
            line: self.span.line as nat,
            col: self.span.col as nat,
        }
    }
}

/// The tokens of a vector, in mathematical form.
pub open spec fn token_views(v: Seq<SpannedToken>) -> Seq<SpannedView> {
    Seq::new(v.len(), |i: int| v[i]@)
}

/// What one reading of a token comes to.
pub enum TokenAt {
    /// A token, and the position behind it.
    Found(TokenView, int),
    UnterminatedRegex,
    UnterminatedRawString,
    UnterminatedString,
    EmptyVariable,
    /// Digits whose number no `usize` holds.
    InvalidNumber(Seq<char>),
    UnexpectedChar(char),
}

/// The end of the run of name characters from `i`.
pub open spec fn name_end(s: Seq<char>, i: int) -> int
    decreases s.len() - i,
{
    if 0 <= i < s.len() && is_name_char(s[i]) {
        name_end(s, i + 1)
    } else {
        i
    }
}

/// The end of the run of flag characters from `i`: name characters and `-`.
pub open spec fn flag_end(s: Seq<char>, i: int) -> int
    decreases s.len() - i,
{
    if 0 <= i < s.len() && (is_name_char(s[i]) || s[i] == '-') {
        flag_end(s, i + 1)
    } else {
        i
    }
}

/// The end of the run of digits from `i`.
pub open spec fn digits_end(s: Seq<char>, i: int) -> int
    decreases s.len() - i,
{
    if 0 <= i < s.len() && is_digit(s[i]) {
        digits_end(s, i + 1)
    } else {
        i
    }
}

/// The position of the first `quote` at or after `i` that no backslash escapes, or
/// a position at or behind the end.
pub open spec fn close_at(s: Seq<char>, i: int, quote: char) -> int
    decreases s.len() - i,
{
    if i < 0 || i >= s.len() || s[i] == quote {
        i
    } else if s[i] == '\\' && i + 1 < s.len() {
        close_at(s, i + 2, quote)
    } else {
        close_at(s, i + 1, quote)
    }
}

/// The text of a string literal with its escapes resolved: `\n`, `\t`, `\"` and
/// `\\`; a backslash in front of anything else stays.
pub open spec fn unescaped(s: Seq<char>) -> Seq<char>
    decreases s.len(),
{
    if s.len() == 0 {
        Seq::empty()
    } else if s[0] == '\\' && s.len() > 1 {
        escape_of(s[1]) + unescaped(s.skip(2))
    } else {
        seq![s[0]] + unescaped(s.skip(1))
    }
}

/// What a backslash and `c` stand for.
pub open spec fn escape_of(c: char) -> Seq<char> {
    if c == 'n' {
        seq!['\n']
    } else if c == 't' {
        seq!['\t']
    } else if c == '"' {
        seq!['"']
    } else if c == '\\' {
        seq!['\\']
    } else {
        seq!['\\', c]
    }
}

/// The value of a digit character.
pub open spec fn digit_value(c: char) -> nat {
    ((c as u32) - ('0' as u32)) as nat
}

/// The number that a sequence of digits writes in decimal.
pub open spec fn number_of(s: Seq<char>) -> nat
    decreases s.len(),
{
    if s.len() == 0 {
        0
    } else {
        number_of(s.drop_last()) * 10 + digit_value(s.last())
    }
}

/// The token for a word.
pub open spec fn word_token(w: Seq<char>) -> TokenView {
    if w == "let"@ {
        TokenView::Let
    } else if w == "table"@ {
        TokenView::Table
    } else if w == "default"@ {
        TokenView::Default
    } else if w == "opts"@ {
        TokenView::Opts
    } else if w == "skip"@ {
        TokenView::Skip
    } else if w == "flag"@ {
        TokenView::Flag
    } else if w == "evaluate"@ {
        TokenView::Evaluate
    } else if w == "forward"@ {
        TokenView::Forward
    } else if w == "allow"@ {
        TokenView::Allow
    } else if w == "deny"@ {
        TokenView::Deny
    } else if w == "passthrough"@ {
        TokenView::Passthrough
    } else if w == "force"@ {
        TokenView::Force
    } else if w == "entry"@ {
        TokenView::Entry
    } else if w == "audit"@ {
        TokenView::Audit
    } else {
        TokenView::Ident(w)
    }
}

/// The token for a character that is one by itself.
pub open spec fn symbol(c: char) -> Option<TokenView> {
    if c == '\u{2192}' {
        Some(TokenView::Arrow)
    } else if c == '{' {
        Some(TokenView::LBrace)
    } else if c == '}' {
        Some(TokenView::RBrace)
    } else if c == '[' {
        Some(TokenView::LBracket)
    } else if c == ']' {
        Some(TokenView::RBracket)
    } else if c == ',' {
        Some(TokenView::Comma)
    } else if c == '!' {
        Some(TokenView::Bang)
    } else if c == '=' {
        Some(TokenView::Equals)
    } else {
        None
    }
}

/// The token that begins at `i`.
pub open spec fn token_at(s: Seq<char>, i: int) -> TokenAt {
    let c = s[i];
    let more = i + 1 < s.len();
    if let Some(token) = symbol(c) {
        TokenAt::Found(token, i + 1)
    } else if c == '-' && more && s[i + 1] == '>' {
        TokenAt::Found(TokenView::Arrow, i + 2)
    } else if c == '-' && more && alphanumeric(s[i + 1]) {
        let end = flag_end(s, i + 1);
        TokenAt::Found(TokenView::FlagLit(s.subrange(i, end)), end)
    } else if c == '/' {
        let close = close_at(s, i + 1, '/');
        if close >= s.len() {
            TokenAt::UnterminatedRegex
        } else {
            TokenAt::Found(TokenView::Regex(s.subrange(i + 1, close)), close + 1)
        }
    } else if c == 'r' && more && s[i + 1] == '"' {
        let close = find_from(s, i + 2, '"');
        if close >= s.len() {
            TokenAt::UnterminatedRawString
        } else {
            TokenAt::Found(TokenView::Regex(s.subrange(i + 2, close)), close + 1)
        }
    } else if c == '"' {
        let close = close_at(s, i + 1, '"');
        if close >= s.len() {
            TokenAt::UnterminatedString
        } else {
            TokenAt::Found(TokenView::Str(unescaped(s.subrange(i + 1, close))), close + 1)
        }
    } else if c == '$' {
        let end = name_end(s, i + 1);
        if end == i + 1 {
            TokenAt::EmptyVariable
        } else {
            TokenAt::Found(TokenView::VarRef(s.subrange(i + 1, end)), end)
        }
    } else if is_digit(c) {
        let end = digits_end(s, i);
        let text = s.subrange(i, end);
        if number_of(text) > usize::MAX {
            TokenAt::InvalidNumber(text)
        } else {
            TokenAt::Found(TokenView::Number(number_of(text)), end)
        }
    } else if alphabetic(c) || c == '_' {
        let end = name_end(s, i);
        TokenAt::Found(word_token(s.subrange(i, end)), end)
    } else {
        TokenAt::UnexpectedChar(c)
    }
}

/// Puts a token in front of the rest.
pub open spec fn token_then(
    token: TokenView,
    line: nat,
    col: nat,
    rest: Result<Seq<SpannedView>, ErrorView>,
) -> Result<Seq<SpannedView>, ErrorView> {
    match rest {
        Ok(tokens) => Ok(seq![SpannedView { token, line, col }] + tokens),
        Err(e) => Err(e),
    }
}

/// The tokens of `s` from `i`, which stands at the given line and column. Blanks and
/// comments go; of several line breaks in a row one token is kept, and `broken` says
/// whether the token before `i` was one.
pub open spec fn tokens_from(s: Seq<char>, i: int, line: nat, col: nat, broken: bool) -> Result<
    Seq<SpannedView>,
    ErrorView,
>
    decreases s.len() - i,
{
    if i < 0 || i >= s.len() {
        Ok(Seq::empty())
    } else if s[i] == ' ' || s[i] == '\t' || s[i] == '\r' {
        tokens_from(s, i + 1, line, col + 1, broken)
    } else if s[i] == '#' {
        let end = find_from(s, i, '\n');
        if i < end <= s.len() {
            tokens_from(s, end, line, col, broken)
        } else {
            Ok(Seq::empty())
        }
    } else if s[i] == '\n' {
        let rest = tokens_from(s, i + 1, line + 1, 1, true);
        if broken {
            rest
        } else {
            token_then(TokenView::Newline, line, col, rest)
        }
    } else {
        match token_at(s, i) {
            TokenAt::Found(token, end) => if i < end <= s.len() {
                token_then(
                    token,
                    line,
                    col,
                    tokens_from(s, end, line, (col + (end - i)) as nat, false),
                )
            } else {
                Ok(Seq::empty())
            },
            TokenAt::UnterminatedRegex => Err(ErrorView::UnterminatedRegex { line, col }),
            TokenAt::UnterminatedRawString => Err(ErrorView::UnterminatedRawString { line, col }),
            TokenAt::UnterminatedString => Err(ErrorView::UnterminatedString { line, col }),
            TokenAt::EmptyVariable => Err(ErrorView::EmptyVariable { line, col }),
            TokenAt::InvalidNumber(text) => Err(ErrorView::InvalidNumber { text, line, col }),
            TokenAt::UnexpectedChar(c) => Err(ErrorView::UnexpectedChar { c, line, col }),
        }
    }
}

/// The tokens of a source text.
pub open spec fn tokens_of(s: Seq<char>) -> Result<Seq<SpannedView>, ErrorView> {
    tokens_from(s, 0, 1, 1, false)
}

/// Puts several tokens in front of the rest.
spec fn tokens_then(
    first: Seq<SpannedView>,
    rest: Result<Seq<SpannedView>, ErrorView>,
) -> Result<Seq<SpannedView>, ErrorView> {
    match rest {
        Ok(tokens) => Ok(first + tokens),
        Err(e) => Err(e),
    }
}

proof fn lemma_one_more(
    first: Seq<SpannedView>,
    token: TokenView,
    line: nat,
    col: nat,
    rest: Result<Seq<SpannedView>, ErrorView>,
)
    ensures
        tokens_then(first, token_then(token, line, col, rest)) == tokens_then(
            first.push(SpannedView { token, line, col }),
            rest,
        ),
{
    if let Ok(tokens) = rest {
        let one = SpannedView { token, line, col };
        assert(first + (seq![one] + tokens) =~= first.push(one) + tokens);
    }
}

/// The characters of a text. A vector with one more of them could be made, so their
/// number is below the largest `usize`.
fn chars_with_room(s: &str) -> (r: Vec<char>)
    ensures
        r@ == s@,
        r@.len() < usize::MAX,
{
    let mut r = chars_of(s);
    r.push('\n');
    let n = r.len();
    r.pop();
    assert(r@ =~= s@);
    r
}

fn end_of_name(cs: &Vec<char>, i: usize) -> (r: usize)
    requires
        i <= cs@.len(),
    ensures
        i <= r <= cs@.len(),
        r == name_end(cs@, i as int),
        i < cs@.len() && is_name_char(cs@[i as int]) ==> r > i,
{
    let mut j: usize = i;
    while j < cs.len() && (cs[j].is_alphanumeric() || cs[j] == '_')
        invariant
            i <= j <= cs@.len(),
            name_end(cs@, j as int) == name_end(cs@, i as int),
        decreases cs@.len() - j,
    {
        j = j + 1;
    }
    j
}

fn end_of_flag(cs: &Vec<char>, i: usize) -> (r: usize)
    requires
        i <= cs@.len(),
    ensures
        i <= r <= cs@.len(),
        r == flag_end(cs@, i as int),
{
    let mut j: usize = i;
    while j < cs.len() && (cs[j].is_alphanumeric() || cs[j] == '-' || cs[j] == '_')
        invariant
            i <= j <= cs@.len(),
            flag_end(cs@, j as int) == flag_end(cs@, i as int),
        decreases cs@.len() - j,
    {
        j = j + 1;
    }
    j
}

fn end_of_digits(cs: &Vec<char>, i: usize) -> (r: usize)
    requires
        i <= cs@.len(),
    ensures
        i <= r <= cs@.len(),
        r == digits_end(cs@, i as int),
        i < cs@.len() && is_digit(cs@[i as int]) ==> r > i,
        forall|k: int| i <= k < r ==> is_digit(#[trigger] cs@[k]),
{
    let mut j: usize = i;
    while j < cs.len() && cs[j] >= '0' && cs[j] <= '9'
        invariant
            i <= j <= cs@.len(),
            digits_end(cs@, j as int) == digits_end(cs@, i as int),
            forall|k: int| i <= k < j ==> is_digit(#[trigger] cs@[k]),
        decreases cs@.len() - j,
    {
        j = j + 1;
    }
    j
}

/// The closing quote behind `i`, or the length of the text if there is none.
fn close_of(cs: &Vec<char>, i: usize, quote: char) -> (r: usize)
    requires
        i <= cs@.len(),
    ensures
        i <= r <= cs@.len(),
        r < cs@.len() ==> r == close_at(cs@, i as int, quote),
        r == cs@.len() ==> close_at(cs@, i as int, quote) >= cs@.len(),
{
    let mut j: usize = i;
    while j < cs.len() && cs[j] != quote
        invariant
            i <= j <= cs@.len(),
            close_at(cs@, j as int, quote) == close_at(cs@, i as int, quote),
        decreases cs@.len() - j,
    {
        if cs[j] == '\\' && cs.len() - j > 1 {
            j = j + 2;
        } else {
            j = j + 1;
        }
    }
    j
}

fn unescape(cs: &Vec<char>, from: usize, to: usize) -> (r: String)
    requires
        from <= to <= cs@.len(),
    ensures
        r@ == unescaped(cs@.subrange(from as int, to as int)),
{
    let mut r = String::new();
    let mut i: usize = from;
    let ghost whole = cs@.subrange(from as int, to as int);
    assert(r@ + unescaped(whole) =~= unescaped(whole));
    while i < to
        invariant
            from <= i <= to <= cs@.len(),
            whole == cs@.subrange(from as int, to as int),
            r@ + unescaped(cs@.subrange(i as int, to as int)) == unescaped(whole),
        decreases to - i,
    {
        let ghost part = cs@.subrange(i as int, to as int);
        let ghost r0 = r@;
        if cs[i] == '\\' && to - i > 1 {
            let c = cs[i + 1];
            if c == 'n' {
                r.push('\n');
            } else if c == 't' {
                r.push('\t');
            } else if c == '"' {
                r.push('"');
            } else if c == '\\' {
                r.push('\\');
            } else {
                r.push('\\');
                r.push(c);
            }
            assert(r@ =~= r0 + escape_of(c));
            i = i + 2;
            assert(part.skip(2) =~= cs@.subrange(i as int, to as int));
            assert(r@ + unescaped(part.skip(2)) =~= r0 + (escape_of(c) + unescaped(part.skip(2))));
        } else {
            r.push(cs[i]);
            i = i + 1;
            assert(part.skip(1) =~= cs@.subrange(i as int, to as int));
            assert(r@ + unescaped(part.skip(1)) =~= r0 + (seq![part[0]] + unescaped(
                part.skip(1),
            )));
        }
    }
    assert(r@ + Seq::<char>::empty() =~= r@);
    r
}

fn digit_number(c: char) -> (r: usize)
    requires
        is_digit(c),
    ensures
        r == digit_value(c),
        r < 10,
{
    (c as u32 - '0' as u32) as usize
}

proof fn lemma_number_grows(s: Seq<char>, k: int)
    requires
        0 <= k <= s.len(),
    ensures
        number_of(s.take(k)) <= number_of(s),
    decreases s.len() - k,
{
    if k < s.len() {
        lemma_number_grows(s, k + 1);
        assert(s.take(k + 1).drop_last() =~= s.take(k));
    } else {
        assert(s.take(k) =~= s);
    }
}

/// The number that digits write, if a `usize` holds it.
fn parse_number(cs: &Vec<char>, from: usize, to: usize) -> (r: Option<usize>)
    requires
        from <= to <= cs@.len(),
        forall|k: int| from <= k < to ==> is_digit(#[trigger] cs@[k]),
    ensures
        match r {
            Some(n) => n == number_of(cs@.subrange(from as int, to as int)),
            None => number_of(cs@.subrange(from as int, to as int)) > usize::MAX,
        },
{
    let mut n: usize = 0;
    let mut i: usize = from;
    let ghost text = cs@.subrange(from as int, to as int);
    while i < to
        invariant
            from <= i <= to <= cs@.len(),
            text == cs@.subrange(from as int, to as int),
            forall|k: int| from <= k < to ==> is_digit(#[trigger] cs@[k]),
            n == number_of(text.take(i - from)),
        decreases to - i,
    {
        let d = digit_number(cs[i]);
        proof {
            assert(text.take(i - from + 1).drop_last() =~= text.take(i - from));
            assert(text.take(i - from + 1).last() == cs@[i as int]);
            lemma_number_grows(text, i - from + 1);
        }
        if n > usize::MAX / 10 {
            return None;
        }
        let tens = n * 10;
        if d > usize::MAX - tens {
            return None;
        }
        n = tens + d;
        i = i + 1;
    }
    assert(text.take(i - from) =~= text);
    Some(n)
}

fn keyword_or_ident(w: String) -> (r: Token)
    ensures
        r@ == word_token(w@),
{
    let t = w.as_str();
    if str_eq(t, "let") {
        Token::Let
    } else if str_eq(t, "table") {
        Token::Table
    } else if str_eq(t, "default") {
        Token::Default
    } else if str_eq(t, "opts") {
        Token::Opts
    } else if str_eq(t, "skip") {
        Token::Skip
    } else if str_eq(t, "flag") {
        Token::Flag
    } else if str_eq(t, "evaluate") {
        Token::Evaluate
    } else if str_eq(t, "forward") {
        Token::Forward
    } else if str_eq(t, "allow") {
        Token::Allow
    } else if str_eq(t, "deny") {
        Token::Deny
    } else if str_eq(t, "passthrough") {
        Token::Passthrough
    } else if str_eq(t, "force") {
        Token::Force
    } else if str_eq(t, "entry") {
        Token::Entry
    } else if str_eq(t, "audit") {
        Token::Audit
    } else {
        Token::Ident(w)
    }
}

fn symbol_of(c: char) -> (r: Option<Token>)
    ensures
        match r {
            Some(t) => symbol(c) == Some(t@),
            None => symbol(c) is None,
        },
{
    match c {
        '\u{2192}' => Some(Token::Arrow),
        '{' => Some(Token::LBrace),
        '}' => Some(Token::RBrace),
        '[' => Some(Token::LBracket),
        ']' => Some(Token::RBracket),
        ',' => Some(Token::Comma),
        '!' => Some(Token::Bang),
        '=' => Some(Token::Equals),
        _ => None,
    }
}

/// Reads the token at `i`, which stands at the given line and column.
fn read_token(cs: &Vec<char>, i: usize, line: usize, col: usize) -> (r: Result<
    (Token, usize),
    Error,
>)
    requires
        i < cs@.len(),
    ensures
        match r {
            Ok((token, end)) => token_at(cs@, i as int) == TokenAt::Found(token@, end as int) && i
                < end <= cs@.len() && token@ != TokenView::Newline,
            Err(e) => match token_at(cs@, i as int) {
                TokenAt::Found(..) => false,
                TokenAt::UnterminatedRegex => e == Error::UnterminatedRegex { line, col },
                TokenAt::UnterminatedRawString => e == Error::UnterminatedRawString { line, col },
                TokenAt::UnterminatedString => e == Error::UnterminatedString { line, col },
                TokenAt::EmptyVariable => e == Error::EmptyVariable { line, col },
                TokenAt::InvalidNumber(text) => e@ == (ErrorView::InvalidNumber {
                    text,
                    line: line as nat,
                    col: col as nat,
                }),
                TokenAt::UnexpectedChar(c) => e == Error::UnexpectedChar { c, line, col },
            },
        },
{
    let n = cs.len();
    let c = cs[i];
    let more = n - i > 1;
    if let Some(token) = symbol_of(c) {
        return Ok((token, i + 1));
    }
    if c == '-' && more && cs[i + 1] == '>' {
        return Ok((Token::Arrow, i + 2));
    }
    if c == '-' && more && cs[i + 1].is_alphanumeric() {
        let end = end_of_flag(cs, i + 1);
        return Ok((Token::FlagLit(string_of(cs, i, end)), end));
    }
    if c == '/' {
        let close = close_of(cs, i + 1, '/');
        if close >= n {
            return Err(Error::UnterminatedRegex { line, col });
        }
        return Ok((Token::Regex(string_of(cs, i + 1, close)), close + 1));
    }
    if c == 'r' && more && cs[i + 1] == '"' {
        let close = find_char(cs, i + 2, '"');
        if close >= n {
            return Err(Error::UnterminatedRawString { line, col });
        }
        return Ok((Token::Regex(string_of(cs, i + 2, close)), close + 1));
    }
    if c == '"' {
        let close = close_of(cs, i + 1, '"');
        if close >= n {
            return Err(Error::UnterminatedString { line, col });
        }
        return Ok((Token::Str(unescape(cs, i + 1, close)), close + 1));
    }
    if c == '$' {
        let end = end_of_name(cs, i + 1);
        if end == i + 1 {
            return Err(Error::EmptyVariable { line, col });
        }
        return Ok((Token::VarRef(string_of(cs, i + 1, end)), end));
    }
    if c >= '0' && c <= '9' {
        let end = end_of_digits(cs, i);
        return match parse_number(cs, i, end) {
            Some(k) => Ok((Token::Number(k), end)),
            None => Err(Error::InvalidNumber { text: string_of(cs, i, end), line, col }),
        };
    }
    if c.is_alphabetic() || c == '_' {
        let end = end_of_name(cs, i);
        return Ok((keyword_or_ident(string_of(cs, i, end)), end));
    }
    Err(Error::UnexpectedChar { c, line, col })
}

/// Cuts a source text into tokens.
pub fn lex(input: &str) -> (r: Result<Vec<SpannedToken>, Error>)
    ensures
        match r {
            Ok(tokens) => tokens_of(input@) == Ok::<Seq<SpannedView>, ErrorView>(
                token_views(tokens@),
            ),
            Err(e) => tokens_of(input@) == Err::<Seq<SpannedView>, ErrorView>(e@),
        },
{
    let cs = chars_with_room(input);
    let ghost s = cs@;
    let mut tokens: Vec<SpannedToken> = Vec::new();
    let mut pos: usize = 0;
    let mut line: usize = 1;
    let mut col: usize = 1;
    let mut broken: bool = false;
    proof {
        assert(token_views(tokens@) =~= Seq::<SpannedView>::empty());
        if let Ok(all) = tokens_of(s) {
            assert(Seq::<SpannedView>::empty() + all =~= all);
        }
    }
    while pos < cs.len()
        invariant
            s == cs@,
            s == input@,
            s.len() < usize::MAX,
            pos <= s.len(),
            1 <= line <= pos + 1,
            1 <= col <= pos + 1,
            tokens_of(s) == tokens_then(
                token_views(tokens@),
                tokens_from(s, pos as int, line as nat, col as nat, broken),
            ),
        decreases s.len() - pos,
    {
        let c = cs[pos];
        if c == ' ' || c == '\t' || c == '\r' {
            pos = pos + 1;
            col = col + 1;
            continue;
        }
        if c == '#' {
            let end = find_char(&cs, pos, '\n');
            pos = end;
            continue;
        }
        let ghost before = token_views(tokens@);
        if c == '\n' {
            if !broken {
                let token = SpannedToken { token: Token::Newline, span: Span { line, col } };
                proof {
                    lemma_one_more(
                        before,
                        TokenView::Newline,
                        line as nat,
                        col as nat,
                        tokens_from(s, pos + 1, (line + 1) as nat, 1, true),
                    );
                    assert(token_views(tokens@.push(token)) =~= before.push(token@));
                }
                tokens.push(token);
            }
            broken = true;
            pos = pos + 1;
            line = line + 1;
            col = 1;
            continue;
        }
        let (token, end) = match read_token(&cs, pos, line, col) {
            Ok(found) => found,
            Err(e) => {
                return Err(e);
            },
        };
        let spanned = SpannedToken { token, span: Span { line, col } };
        proof {
            lemma_one_more(
                before,
                token@,
                line as nat,
                col as nat,
                tokens_from(s, end as int, line as nat, (col + (end - pos)) as nat, false),
            );
            assert(token_views(tokens@.push(spanned)) =~= before.push(spanned@));
        }
        tokens.push(spanned);
        broken = false;
        col = col + (end - pos);
        pos = end;
    }
    assert(token_views(tokens@) + Seq::<SpannedView>::empty() =~= token_views(tokens@));
    Ok(tokens)
}

} // verus!

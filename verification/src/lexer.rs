//! The lexer: turns source text into [`Token`]s, interning string literals.
use crate::token::{strings_view, tokens_view, SpecToken, Token};
use vstd::prelude::*;

verus! {

/// Blank characters skipped between tokens: space, tab, carriage return, line feed.
pub open spec fn is_blank(c: char) -> bool {
    c == ' ' || c == '\t' || c == '\r' || c == '\n'
}

pub open spec fn is_digit(c: char) -> bool {
    '0' <= c <= '9'
}

/// The answer of `char::is_alphanumeric` on `c`: whether `c` is alphabetic or
/// numeric in the Unicode sense. Only its name is used; nothing is assumed of it.
pub uninterp spec fn alphanumeric(c: char) -> bool;

/// Characters that may appear in an identifier.
pub open spec fn ident_char(c: char) -> bool {
    alphanumeric(c) || c == '_'
}

/// The end of the run of blank characters that starts at `i`.
pub open spec fn blank_end(s: Seq<char>, i: int) -> int
    decreases s.len() - i,
{
    if 0 <= i < s.len() && is_blank(s[i]) {
        blank_end(s, i + 1)
    } else {
        i
    }
}

/// The end of the run of ASCII digits that starts at `i`.
pub open spec fn digit_end(s: Seq<char>, i: int) -> int
    decreases s.len() - i,
{
    if 0 <= i < s.len() && is_digit(s[i]) {
        digit_end(s, i + 1)
    } else {
        i
    }
}

/// The end of the run of identifier characters that starts at `i`.
pub open spec fn ident_end(s: Seq<char>, i: int) -> int
    decreases s.len() - i,
{
    if 0 <= i < s.len() && ident_char(s[i]) {
        ident_end(s, i + 1)
    } else {
        i
    }
}

/// Whether `s` holds the text `p` at position `i`.
pub open spec fn text_at(s: Seq<char>, i: int, p: Seq<char>) -> bool {
    0 <= i && i + p.len() <= s.len() && s.subrange(i, i + p.len()) == p
}

/// Whether `s` holds the character `c` at position `i`.
pub open spec fn char_at(s: Seq<char>, i: int, c: char) -> bool {
    0 <= i < s.len() && s[i] == c
}


/// The end of the first `"` at or after `i`, or the length of `s` when there is none.
pub open spec fn quote_at_or_after(s: Seq<char>, i: int) -> int
    decreases s.len() - i,
{
    if 0 <= i < s.len() && s[i] != '"' {
        quote_at_or_after(s, i + 1)
    } else if i < 0 {
        s.len() as int
    } else {
        i
    }
}

/// The numeric value of an ASCII digit.
pub open spec fn digit_value(c: char) -> int {
    (c as int) - ('0' as int)
}

/// The value of a string of decimal digits.
pub open spec fn decimal_value(d: Seq<char>) -> int
    decreases d.len(),
{
    if d.len() == 0 {
        0
    } else {
        decimal_value(d.drop_last()) * 10 + digit_value(d.last())
    }
}

pub open spec fn kw_fn() -> Seq<char> {
    seq!['f', 'n']
}

pub open spec fn kw_enum() -> Seq<char> {
    seq!['e', 'n', 'u', 'm']
}

pub open spec fn kw_struct() -> Seq<char> {
    seq!['s', 't', 'r', 'u', 'c', 't']
}

pub open spec fn kw_let() -> Seq<char> {
    seq!['l', 'e', 't']
}

pub open spec fn kw_return() -> Seq<char> {
    seq!['r', 'e', 't', 'u', 'r', 'n']
}

/// After blanks, the keyword `kw` and then (after blanks) an identifier:
/// the tokens `first` and the identifier, and the position after the identifier.
pub open spec fn keyword_then_ident(s: Seq<char>, i: int, kw: Seq<char>, first: SpecToken) -> Option<(Seq<SpecToken>, int)> {
    let j = blank_end(s, i);
    if text_at(s, j, kw) {
        let k = blank_end(s, j + kw.len());
        let e = ident_end(s, k);
        if k < e {
            Some((seq![first, SpecToken::Ident(s.subrange(k, e))], e))
        } else {
            None
        }
    } else {
        None
    }
}

/// `fn name`.
pub open spec fn lex_fn_def(s: Seq<char>, i: int) -> Option<(Seq<SpecToken>, int)> {
    keyword_then_ident(s, i, kw_fn(), SpecToken::Fn)
}

/// `fn` on its own, as in the function type `fn(i32) -> i32`.
pub open spec fn lex_fn(s: Seq<char>, i: int) -> Option<(Seq<SpecToken>, int)> {
    let j = blank_end(s, i);
    if text_at(s, j, kw_fn()) {
        Some((seq![SpecToken::Fn], j + 2))
    } else {
        None
    }
}

/// `enum Name`.
pub open spec fn lex_enum_def(s: Seq<char>, i: int) -> Option<(Seq<SpecToken>, int)> {
    keyword_then_ident(s, i, kw_enum(), SpecToken::EnumDefinition)
}

/// `struct Name`.
pub open spec fn lex_struct_def(s: Seq<char>, i: int) -> Option<(Seq<SpecToken>, int)> {
    keyword_then_ident(s, i, kw_struct(), SpecToken::StructDefinition)
}

/// `let name =`.
pub open spec fn lex_let(s: Seq<char>, i: int) -> Option<(Seq<SpecToken>, int)> {
    let j = blank_end(s, i);
    if text_at(s, j, kw_let()) {
        let k = blank_end(s, j + 3);
        let e = ident_end(s, k);
        let m = blank_end(s, e);
        if k < e && char_at(s, m, '=') {
            Some((seq![SpecToken::Let, SpecToken::Ident(s.subrange(k, e)), SpecToken::Equals], m + 1))
        } else {
            None
        }
    } else {
        None
    }
}

/// Digits, a dot and digits: the literal's text.
pub open spec fn lex_float(s: Seq<char>, i: int) -> Option<(SpecToken, int)> {
    let j = blank_end(s, i);
    let d1 = digit_end(s, j);
    let d2 = digit_end(s, d1 + 1);
    if j < d1 && char_at(s, d1, '.') && d1 + 1 < d2 {
        Some((SpecToken::Float(s.subrange(j, d2)), d2))
    } else {
        None
    }
}

/// Digits whose value fits in an `i128`.
pub open spec fn lex_integer(s: Seq<char>, i: int) -> Option<(SpecToken, int)> {
    let j = blank_end(s, i);
    let e = digit_end(s, j);
    let v = decimal_value(s.subrange(j, e));
    if j < e && v <= i128::MAX {
        Some((SpecToken::Integer(v as i128), e))
    } else {
        None
    }
}

/// The first position in `t` from `from` on that holds `x`, or `t.len()`.
pub open spec fn first_from(t: Seq<Seq<char>>, x: Seq<char>, from: int) -> int
    decreases t.len() - from,
{
    if 0 <= from < t.len() && t[from] != x {
        first_from(t, x, from + 1)
    } else if from < 0 {
        t.len() as int
    } else {
        from
    }
}

/// Interning `x` into the table `t`: the index of its first occurrence, or
/// the next index when it is new, in which case it is appended.
pub open spec fn intern_spec(t: Seq<Seq<char>>, x: Seq<char>) -> (int, Seq<Seq<char>>) {
    let k = first_from(t, x, 0);
    if k < t.len() {
        (k, t)
    } else {
        (t.len() as int, t.push(x))
    }
}

/// A string literal between double quotes (no escapes): its interned index.
pub open spec fn lex_string(s: Seq<char>, i: int, t: Seq<Seq<char>>) -> Option<(SpecToken, int, Seq<Seq<char>>)> {
    let j = blank_end(s, i);
    let k = quote_at_or_after(s, j + 1);
    if char_at(s, j, '"') && k < s.len() {
        let (idx, t2) = intern_spec(t, s.subrange(j + 1, k));
        Some((SpecToken::StringIndex(idx as usize), k + 1, t2))
    } else {
        None
    }
}

/// `,` `:` `;` `'` `::` `->` `=>`, tried in this order (so `::` is two colons).
pub open spec fn lex_punctuation(s: Seq<char>, i: int) -> Option<(SpecToken, int)> {
    let j = blank_end(s, i);
    if char_at(s, j, ',') {
        Some((SpecToken::Comma, j + 1))
    } else if char_at(s, j, ':') {
        Some((SpecToken::Colon, j + 1))
    } else if char_at(s, j, ';') {
        Some((SpecToken::SemiColon, j + 1))
    } else if char_at(s, j, '\'') {
        Some((SpecToken::Apostrophe, j + 1))
    } else if char_at(s, j, ':') && char_at(s, j + 1, ':') {
        Some((SpecToken::Namespace, j + 2))
    } else if char_at(s, j, '-') && char_at(s, j + 1, '>') {
        Some((SpecToken::Arrow, j + 2))
    } else if char_at(s, j, '=') && char_at(s, j + 1, '>') {
        Some((SpecToken::FatArrow, j + 2))
    } else {
        None
    }
}

/// `(` `)` `{` `}` `[` `]`.
pub open spec fn lex_delimiter(s: Seq<char>, i: int) -> Option<(SpecToken, int)> {
    let j = blank_end(s, i);
    if char_at(s, j, '(') {
        Some((SpecToken::LParen, j + 1))
    } else if char_at(s, j, ')') {
        Some((SpecToken::RParen, j + 1))
    } else if char_at(s, j, '{') {
        Some((SpecToken::LBrace, j + 1))
    } else if char_at(s, j, '}') {
        Some((SpecToken::RBrace, j + 1))
    } else if char_at(s, j, '[') {
        Some((SpecToken::LBracket, j + 1))
    } else if char_at(s, j, ']') {
        Some((SpecToken::RBracket, j + 1))
    } else {
        None
    }
}

/// `!` `&&` `||` `+` `-` `*` `/` `%` `<` `>` `?`.
pub open spec fn lex_operator(s: Seq<char>, i: int) -> Option<(SpecToken, int)> {
    let j = blank_end(s, i);
    if char_at(s, j, '!') {
        Some((SpecToken::Not, j + 1))
    } else if char_at(s, j, '&') && char_at(s, j + 1, '&') {
        Some((SpecToken::AndCmp, j + 2))
    } else if char_at(s, j, '|') && char_at(s, j + 1, '|') {
        Some((SpecToken::OrCmp, j + 2))
    } else if char_at(s, j, '+') {
        Some((SpecToken::Plus, j + 1))
    } else if char_at(s, j, '-') {
        Some((SpecToken::Minus, j + 1))
    } else if char_at(s, j, '*') {
        Some((SpecToken::Multiply, j + 1))
    } else if char_at(s, j, '/') {
        Some((SpecToken::Divide, j + 1))
    } else if char_at(s, j, '%') {
        Some((SpecToken::Modulo, j + 1))
    } else if char_at(s, j, '<') {
        Some((SpecToken::Less, j + 1))
    } else if char_at(s, j, '>') {
        Some((SpecToken::Greater, j + 1))
    } else if char_at(s, j, '?') {
        Some((SpecToken::QuestionMark, j + 1))
    } else {
        None
    }
}

/// An identifier followed (after blanks) by `(`, which is not consumed.
pub open spec fn lex_fn_call(s: Seq<char>, i: int) -> Option<(SpecToken, int)> {
    let j = blank_end(s, i);
    let e = ident_end(s, j);
    if j < e && char_at(s, blank_end(s, e), '(') {
        Some((SpecToken::Ident(s.subrange(j, e)), e))
    } else {
        None
    }
}

/// An identifier.
pub open spec fn lex_variable(s: Seq<char>, i: int) -> Option<(SpecToken, int)> {
    let j = blank_end(s, i);
    let e = ident_end(s, j);
    if j < e {
        Some((SpecToken::Ident(s.subrange(j, e)), e))
    } else {
        None
    }
}

/// `return` (an identifier is tried first, so this never decides).
pub open spec fn lex_return(s: Seq<char>, i: int) -> Option<(SpecToken, int)> {
    let j = blank_end(s, i);
    if text_at(s, j, kw_return()) {
        Some((SpecToken::Return, j + 6))
    } else {
        None
    }
}

pub open spec fn with_table(r: Option<(SpecToken, int)>, t: Seq<Seq<char>>) -> Option<(SpecToken, int, Seq<Seq<char>>)> {
    match r {
        Some((tok, p)) => Some((tok, p, t)),
        None => None,
    }
}

pub open spec fn with_table_many(r: Option<(Seq<SpecToken>, int)>, t: Seq<Seq<char>>) -> Option<(Seq<SpecToken>, int, Seq<Seq<char>>)> {
    match r {
        Some((ts, p)) => Some((ts, p, t)),
        None => None,
    }
}

/// One token of a single kind: the first of these alternatives that applies.
pub open spec fn lex_single(s: Seq<char>, i: int, t: Seq<Seq<char>>) -> Option<(SpecToken, int, Seq<Seq<char>>)> {
    if lex_float(s, i) is Some {
        with_table(lex_float(s, i), t)
    } else if lex_integer(s, i) is Some {
        with_table(lex_integer(s, i), t)
    } else if lex_string(s, i, t) is Some {
        lex_string(s, i, t)
    } else if lex_punctuation(s, i) is Some {
        with_table(lex_punctuation(s, i), t)
    } else if lex_delimiter(s, i) is Some {
        with_table(lex_delimiter(s, i), t)
    } else if lex_operator(s, i) is Some {
        with_table(lex_operator(s, i), t)
    } else if lex_fn_call(s, i) is Some {
        with_table(lex_fn_call(s, i), t)
    } else if lex_variable(s, i) is Some {
        with_table(lex_variable(s, i), t)
    } else {
        with_table(lex_return(s, i), t)
    }
}

/// The tokens that start at `i`: first the forms that give two or three tokens,
/// in order, then a single token.
pub open spec fn lex_token(s: Seq<char>, i: int, t: Seq<Seq<char>>) -> Option<(Seq<SpecToken>, int, Seq<Seq<char>>)> {
    if lex_fn_def(s, i) is Some {
        with_table_many(lex_fn_def(s, i), t)
    } else if lex_fn(s, i) is Some {
        with_table_many(lex_fn(s, i), t)
    } else if lex_enum_def(s, i) is Some {
        with_table_many(lex_enum_def(s, i), t)
    } else if lex_struct_def(s, i) is Some {
        with_table_many(lex_struct_def(s, i), t)
    } else if lex_let(s, i) is Some {
        with_table_many(lex_let(s, i), t)
    } else {
        match lex_single(s, i, t) {
            Some((tok, p, t2)) => Some((seq![tok], p, t2)),
            None => None,
        }
    }
}

/// What lexing gives: the tokens, the string table after it, and where it
/// stopped on text that starts no token (`None` when the whole text was read).
pub struct Lexed {
    pub tokens: Seq<SpecToken>,
    pub table: Seq<Seq<char>>,
    pub error_at: Option<int>,
}

/// Lexing `s` from position `i` with the string table `t`.
pub open spec fn lex_from(s: Seq<char>, i: int, t: Seq<Seq<char>>) -> Lexed
    decreases s.len() - i,
{
    let j = blank_end(s, i);
    if j >= s.len() {
        Lexed { tokens: seq![], table: t, error_at: None }
    } else {
        match lex_token(s, j, t) {
            Some((ts, p, t2)) => {
                if i < p <= s.len() {
                    let rest = lex_from(s, p, t2);
                    Lexed { tokens: ts + rest.tokens, table: rest.table, error_at: rest.error_at }
                } else {
                    Lexed { tokens: seq![], table: t, error_at: Some(j) }
                }
            },
            None => Lexed { tokens: seq![], table: t, error_at: Some(j) },
        }
    }
}

/// Lexing the whole text `s` with the string table `t`.
pub open spec fn lex(s: Seq<char>, t: Seq<Seq<char>>) -> Lexed {
    lex_from(s, 0, t)
}

/// The value of an optional batch of tokens with the position after it.
pub open spec fn batch_view(r: Option<(Vec<Token>, usize)>) -> Option<(Seq<SpecToken>, int)> {
    match r {
        Some((ts, p)) => Some((tokens_view(ts@), p as int)),
        None => None,
    }
}

/// The value of an optional token with the position after it.
pub open spec fn single_view(r: Option<(Token, usize)>) -> Option<(SpecToken, int)> {
    match r {
        Some((t, p)) => Some((t@, p as int)),
        None => None,
    }
}

/// Calls `char::is_alphanumeric` (std). Trusted: its result is taken to be
/// `alphanumeric(c)`, the name for that function's answer, which depends on
/// `c` alone.
#[verifier::external_body]
fn char_is_alphanumeric(c: char) -> (r: bool)
    ensures
        r == alphanumeric(c),
{
    c.is_alphanumeric()
}

/// Whether no blank character is an identifier character, as std documents
/// of `char::is_alphanumeric` (a blank is neither alphabetic nor numeric).
pub open spec fn blanks_end_identifiers() -> bool {
    forall|c: char| is_blank(c) ==> !alphanumeric(c)
}

/// Tests, through `char::is_alphanumeric`, that no blank character (space,
/// tab, carriage return, line feed) is an identifier character.
pub fn blanks_are_not_identifier_chars() -> (r: bool)
    ensures
        r == blanks_end_identifiers(),
{
    let r = !char_is_alphanumeric(' ') && !char_is_alphanumeric('\t') && !char_is_alphanumeric('\r')
        && !char_is_alphanumeric('\n');
    assert(r ==> blanks_end_identifiers()) by {
        if r {
            assert forall|c: char| is_blank(c) implies !alphanumeric(c) by {}
        }
    }
    r
}

fn is_blank_exec(c: char) -> (r: bool)
    ensures
        r == is_blank(c),
{
    c == ' ' || c == '\t' || c == '\r' || c == '\n'
}

fn is_digit_exec(c: char) -> (r: bool)
    ensures
        r == is_digit(c),
{
    '0' <= c && c <= '9'
}

/// Whether `c` may appear in an identifier.
pub fn is_ident_char(c: char) -> (r: bool)
    ensures
        r == ident_char(c),
{
    char_is_alphanumeric(c) || c == '_'
}

/// Interns `s` into `table`: returns the index of the first entry equal to
/// `s`, appending `s` when there is none.
pub fn intern(table: &mut Vec<String>, s: &str) -> (r: usize)
    ensures
        (r as int, strings_view(final(table)@)) == intern_spec(strings_view(old(table)@), s@),
{
    let ghost t = strings_view(table@);
    let key = String::from_str(s);
    let mut k: usize = 0;
    while k < table.len()
        invariant
            k <= table@.len(),
            t == strings_view(table@),
            key@ == s@,
            first_from(t, s@, k as int) == first_from(t, s@, 0),
        decreases table@.len() - k,
    {
        if table[k] == key {
            return k;
        }
        k = k + 1;
    }
    table.push(key);
    assert(strings_view(table@) =~= t.push(s@));
    table.len() - 1
}

/// The source text as characters, with the text itself kept for slicing.
pub(crate) struct Scanner<'a> {
    pub(crate) text: &'a str,
    pub(crate) chars: Vec<char>,
}

impl<'a> Scanner<'a> {
    pub(crate) open spec fn wf(&self) -> bool {
        &&& self.chars@ == self.text@
        &&& self.chars@.len() <= usize::MAX
    }

    pub(crate) fn new(text: &'a str) -> (r: Scanner<'a>)
        ensures
            r.wf(),
            r.text == text,
    {
        let mut chars: Vec<char> = Vec::new();
        for c in it: text.chars()
            invariant
                it.seq() == text@,
                chars@ == it.seq().take(it.index() as int),
        {
            chars.push(c);
        }
        let n = chars.len();
        assert(chars@.len() == n);
        assert(chars@ =~= text@);
        Scanner { text, chars }
    }

    pub(crate) fn len(&self) -> (r: usize)
        ensures
            r == self.chars@.len(),
    {
        self.chars.len()
    }

    /// `char_at` on the text.
    pub(crate) fn has_char(&self, i: usize, c: char) -> (r: bool)
        ensures
            r == char_at(self.chars@, i as int, c),
    {
        i < self.chars.len() && self.chars[i] == c
    }

    /// `text_at` on the text.
    fn has_text(&self, i: usize, kw: &[char]) -> (r: bool)
        requires
            i <= self.chars@.len(),
        ensures
            r == text_at(self.chars@, i as int, kw@),
    {
        let n = self.chars.len();
        if kw.len() > n - i {
            return false;
        }
        let mut k: usize = 0;
        while k < kw.len()
            invariant
                n == self.chars@.len(),
                i + kw@.len() <= n,
                k <= kw@.len(),
                forall|m: int| 0 <= m < k ==> self.chars@[i + m] == kw@[m],
            decreases kw@.len() - k,
        {
            if self.chars[i + k] != kw[k] {
                assert(self.chars@.subrange(i as int, i + kw@.len())[k as int] != kw@[k as int]);
                return false;
            }
            k = k + 1;
        }
        assert(self.chars@.subrange(i as int, i + kw@.len()) =~= kw@);
        true
    }

    fn skip_blank(&self, i: usize) -> (r: usize)
        requires
            i <= self.chars@.len(),
        ensures
            r == blank_end(self.chars@, i as int),
            i <= r <= self.chars@.len(),
    {
        let mut k = i;
        while k < self.chars.len() && is_blank_exec(self.chars[k])
            invariant
                i <= k <= self.chars@.len(),
                blank_end(self.chars@, k as int) == blank_end(self.chars@, i as int),
            decreases self.chars@.len() - k,
        {
            k = k + 1;
        }
        k
    }

    fn digits_from(&self, i: usize) -> (r: usize)
        requires
            i <= self.chars@.len(),
        ensures
            r == digit_end(self.chars@, i as int),
            i <= r <= self.chars@.len(),
    {
        let mut k = i;
        while k < self.chars.len() && is_digit_exec(self.chars[k])
            invariant
                i <= k <= self.chars@.len(),
                digit_end(self.chars@, k as int) == digit_end(self.chars@, i as int),
            decreases self.chars@.len() - k,
        {
            k = k + 1;
        }
        k
    }

    fn ident_from(&self, i: usize) -> (r: usize)
        requires
            i <= self.chars@.len(),
        ensures
            r == ident_end(self.chars@, i as int),
            i <= r <= self.chars@.len(),
    {
        let mut k = i;
        while k < self.chars.len() && is_ident_char(self.chars[k])
            invariant
                i <= k <= self.chars@.len(),
                ident_end(self.chars@, k as int) == ident_end(self.chars@, i as int),
            decreases self.chars@.len() - k,
        {
            k = k + 1;
        }
        k
    }

    pub(crate) fn quote_from(&self, i: usize) -> (r: usize)
        requires
            i <= self.chars@.len(),
        ensures
            r == quote_at_or_after(self.chars@, i as int),
            i <= r <= self.chars@.len(),
    {
        let mut k = i;
        while k < self.chars.len() && self.chars[k] != '"'
            invariant
                i <= k <= self.chars@.len(),
                quote_at_or_after(self.chars@, k as int) == quote_at_or_after(self.chars@, i as int),
            decreases self.chars@.len() - k,
        {
            k = k + 1;
        }
        k
    }

    /// The text between two positions.
    pub(crate) fn text_between(&self, a: usize, b: usize) -> (r: String)
        requires
            self.wf(),
            a <= b <= self.chars@.len(),
        ensures
            r@ == self.chars@.subrange(a as int, b as int),
    {
        String::from_str(self.text.substring_char(a, b))
    }

    /// After blanks, the keyword `kw` then an identifier.
    fn keyword_then_ident(&self, i: usize, kw: &[char], first: Token) -> (r: Option<(Vec<Token>, usize)>)
        requires
            self.wf(),
            i <= self.chars@.len(),
        ensures
            batch_view(r) == keyword_then_ident(self.chars@, i as int, kw@, first@),
            r matches Some((_, p)) ==> i < p <= self.chars@.len(),
    {
        let j = self.skip_blank(i);
        if !self.has_text(j, kw) {
            return None;
        }
        let k = self.skip_blank(j + kw.len());
        let e = self.ident_from(k);
        if k < e {
            let mut v: Vec<Token> = Vec::new();
            v.push(first);
            v.push(Token::Ident(self.text_between(k, e)));
            assert(tokens_view(v@) =~= seq![first@, SpecToken::Ident(self.chars@.subrange(k as int, e as int))]);
            Some((v, e))
        } else {
            None
        }
    }

    fn parse_fn_def(&self, i: usize) -> (r: Option<(Vec<Token>, usize)>)
        requires
            self.wf(),
            i <= self.chars@.len(),
        ensures
            batch_view(r) == lex_fn_def(self.chars@, i as int),
            r matches Some((_, p)) ==> i < p <= self.chars@.len(),
    {
        assert(['f', 'n']@ =~= kw_fn());
        self.keyword_then_ident(i, &['f', 'n'], Token::Fn)
    }

    fn parse_fn(&self, i: usize) -> (r: Option<(Vec<Token>, usize)>)
        requires
            self.wf(),
            i <= self.chars@.len(),
        ensures
            batch_view(r) == lex_fn(self.chars@, i as int),
            r matches Some((_, p)) ==> i < p <= self.chars@.len(),
    {
        assert(['f', 'n']@ =~= kw_fn());
        let j = self.skip_blank(i);
        if self.has_text(j, &['f', 'n']) {
            let mut v: Vec<Token> = Vec::new();
            v.push(Token::Fn);
            assert(tokens_view(v@) =~= seq![SpecToken::Fn]);
            Some((v, j + 2))
        } else {
            None
        }
    }

    fn parse_enum_def(&self, i: usize) -> (r: Option<(Vec<Token>, usize)>)
        requires
            self.wf(),
            i <= self.chars@.len(),
        ensures
            batch_view(r) == lex_enum_def(self.chars@, i as int),
            r matches Some((_, p)) ==> i < p <= self.chars@.len(),
    {
        assert(['e', 'n', 'u', 'm']@ =~= kw_enum());
        self.keyword_then_ident(i, &['e', 'n', 'u', 'm'], Token::EnumDefinition)
    }

    fn parse_struct_def(&self, i: usize) -> (r: Option<(Vec<Token>, usize)>)
        requires
            self.wf(),
            i <= self.chars@.len(),
        ensures
            batch_view(r) == lex_struct_def(self.chars@, i as int),
            r matches Some((_, p)) ==> i < p <= self.chars@.len(),
    {
        assert(['s', 't', 'r', 'u', 'c', 't']@ =~= kw_struct());
        self.keyword_then_ident(i, &['s', 't', 'r', 'u', 'c', 't'], Token::StructDefinition)
    }

    fn parse_let(&self, i: usize) -> (r: Option<(Vec<Token>, usize)>)
        requires
            self.wf(),
            i <= self.chars@.len(),
        ensures
            batch_view(r) == lex_let(self.chars@, i as int),
            r matches Some((_, p)) ==> i < p <= self.chars@.len(),
    {
        assert(['l', 'e', 't']@ =~= kw_let());
        let j = self.skip_blank(i);
        if !self.has_text(j, &['l', 'e', 't']) {
            return None;
        }
        let k = self.skip_blank(j + 3);
        let e = self.ident_from(k);
        let m = self.skip_blank(e);
        if k < e && self.has_char(m, '=') {
            let mut v: Vec<Token> = Vec::new();
            v.push(Token::Let);
            v.push(Token::Ident(self.text_between(k, e)));
            v.push(Token::Equals);
            assert(tokens_view(v@) =~= seq![SpecToken::Let, SpecToken::Ident(self.chars@.subrange(k as int, e as int)), SpecToken::Equals]);
            Some((v, m + 1))
        } else {
            None
        }
    }

    fn parse_float(&self, i: usize) -> (r: Option<(Token, usize)>)
        requires
            self.wf(),
            i <= self.chars@.len(),
        ensures
            single_view(r) == lex_float(self.chars@, i as int),
            r matches Some((_, p)) ==> i < p <= self.chars@.len(),
    {
        let j = self.skip_blank(i);
        let d1 = self.digits_from(j);
        if j < d1 && self.has_char(d1, '.') {
            let d2 = self.digits_from(d1 + 1);
            if d1 + 1 < d2 {
                return Some((Token::Float(self.text_between(j, d2)), d2));
            }
        }
        None
    }

    /// The value of the digits between `a` and `b`, if it fits in an `i128`.
    fn decimal(&self, a: usize, b: usize) -> (r: Option<i128>)
        requires
            a <= b <= self.chars@.len(),
            forall|k: int| a <= k < b ==> is_digit(#[trigger] self.chars@[k]),
        ensures
            match r {
                Some(v) => v == decimal_value(self.chars@.subrange(a as int, b as int)),
                None => decimal_value(self.chars@.subrange(a as int, b as int)) > i128::MAX,
            },
    {
        let mut v: i128 = 0;
        let mut k = a;
        let mut overflow = false;
        assert(self.chars@.subrange(a as int, a as int) =~= Seq::<char>::empty());
        while k < b
            invariant
                a <= k <= b <= self.chars@.len(),
                forall|m: int| a <= m < b ==> is_digit(#[trigger] self.chars@[m]),
                !overflow ==> 0 <= v && v == decimal_value(self.chars@.subrange(a as int, k as int)),
                overflow ==> decimal_value(self.chars@.subrange(a as int, k as int)) > i128::MAX,
            decreases b - k,
        {
            let c = self.chars[k];
            let d = (c as u32 - '0' as u32) as i128;
            let ghost prev = self.chars@.subrange(a as int, k as int);
            let ghost next = self.chars@.subrange(a as int, k + 1);
            assert(next.drop_last() =~= prev);
            assert(next.last() == c);
            assert(0 <= d <= 9 && d == digit_value(c));
            assert(decimal_value(next) == decimal_value(prev) * 10 + d);
            if !overflow {
                if v > (i128::MAX - d) / 10 {
                    assert(v * 10 + d > i128::MAX) by (nonlinear_arith)
                        requires
                            v > (i128::MAX - d) / 10,
                            0 <= d <= 9,
                    ;
                    overflow = true;
                } else {
                    assert(v * 10 + d <= i128::MAX) by (nonlinear_arith)
                        requires
                            v <= (i128::MAX - d) / 10,
                            0 <= d <= 9,
                            0 <= v,
                    ;
                    v = v * 10 + d;
                }
            } else {
                assert(decimal_value(prev) * 10 + d > i128::MAX) by (nonlinear_arith)
                    requires
                        decimal_value(prev) > i128::MAX,
                        0 <= d <= 9,
                ;
            }
            k = k + 1;
        }
        if overflow {
            None
        } else {
            Some(v)
        }
    }

    fn parse_integer(&self, i: usize) -> (r: Option<(Token, usize)>)
        requires
            self.wf(),
            i <= self.chars@.len(),
        ensures
            single_view(r) == lex_integer(self.chars@, i as int),
            r matches Some((_, p)) ==> i < p <= self.chars@.len(),
    {
        let j = self.skip_blank(i);
        let e = self.digits_from(j);
        if j < e {
            proof {
                self.lemma_digit_run(j as int);
            }
            match self.decimal(j, e) {
                Some(v) => Some((Token::Integer(v), e)),
                None => None,
            }
        } else {
            None
        }
    }

    proof fn lemma_digit_run(&self, j: int)
        requires
            0 <= j <= self.chars@.len(),
        ensures
            j <= digit_end(self.chars@, j) <= self.chars@.len(),
            forall|k: int| j <= k < digit_end(self.chars@, j) ==> is_digit(#[trigger] self.chars@[k]),
        decreases self.chars@.len() - j,
    {
        if j < self.chars@.len() && is_digit(self.chars@[j]) {
            self.lemma_digit_run(j + 1);
        }
    }

    fn parse_string(&self, i: usize, table: &mut Vec<String>) -> (r: Option<(Token, usize)>)
        requires
            self.wf(),
            i <= self.chars@.len(),
        ensures
            match r {
                Some((t, p)) => lex_string(self.chars@, i as int, strings_view(old(table)@))
                    == Some((t@, p as int, strings_view(final(table)@))),
                None => lex_string(self.chars@, i as int, strings_view(old(table)@)) is None
                    && final(table)@ == old(table)@,
            },
            r matches Some((_, p)) ==> i < p <= self.chars@.len(),
    {
        let j = self.skip_blank(i);
        if !self.has_char(j, '"') {
            return None;
        }
        let k = self.quote_from(j + 1);
        if k >= self.len() {
            return None;
        }
        let text = self.text_between(j + 1, k);
        let idx = intern(table, text.as_str());
        Some((Token::StringIndex(idx), k + 1))
    }

    fn parse_punctuation(&self, i: usize) -> (r: Option<(Token, usize)>)
        requires
            self.wf(),
            i <= self.chars@.len(),
        ensures
            single_view(r) == lex_punctuation(self.chars@, i as int),
            r matches Some((_, p)) ==> i < p <= self.chars@.len(),
    {
        let j = self.skip_blank(i);
        if j >= self.len() {
            return None;
        }
        if self.has_char(j, ',') {
            Some((Token::Comma, j + 1))
        } else if self.has_char(j, ':') {
            Some((Token::Colon, j + 1))
        } else if self.has_char(j, ';') {
            Some((Token::SemiColon, j + 1))
        } else if self.has_char(j, '\'') {
            Some((Token::Apostrophe, j + 1))
        } else if self.has_char(j, ':') && self.has_char(j + 1, ':') {
            Some((Token::Namespace, j + 2))
        } else if self.has_char(j, '-') && self.has_char(j + 1, '>') {
            Some((Token::Arrow, j + 2))
        } else if self.has_char(j, '=') && self.has_char(j + 1, '>') {
            Some((Token::FatArrow, j + 2))
        } else {
            None
        }
    }

    fn parse_delimiters(&self, i: usize) -> (r: Option<(Token, usize)>)
        requires
            self.wf(),
            i <= self.chars@.len(),
        ensures
            single_view(r) == lex_delimiter(self.chars@, i as int),
            r matches Some((_, p)) ==> i < p <= self.chars@.len(),
    {
        let j = self.skip_blank(i);
        if j >= self.len() {
            return None;
        }
        if self.has_char(j, '(') {
            Some((Token::LParen, j + 1))
        } else if self.has_char(j, ')') {
            Some((Token::RParen, j + 1))
        } else if self.has_char(j, '{') {
            Some((Token::LBrace, j + 1))
        } else if self.has_char(j, '}') {
            Some((Token::RBrace, j + 1))
        } else if self.has_char(j, '[') {
            Some((Token::LBracket, j + 1))
        } else if self.has_char(j, ']') {
            Some((Token::RBracket, j + 1))
        } else {
            None
        }
    }

    fn parse_operators(&self, i: usize) -> (r: Option<(Token, usize)>)
        requires
            self.wf(),
            i <= self.chars@.len(),
        ensures
            single_view(r) == lex_operator(self.chars@, i as int),
            r matches Some((_, p)) ==> i < p <= self.chars@.len(),
    {
        let j = self.skip_blank(i);
        if j >= self.len() {
            return None;
        }
        if self.has_char(j, '!') {
            Some((Token::Not, j + 1))
        } else if self.has_char(j, '&') && self.has_char(j + 1, '&') {
            Some((Token::AndCmp, j + 2))
        } else if self.has_char(j, '|') && self.has_char(j + 1, '|') {
            Some((Token::OrCmp, j + 2))
        } else if self.has_char(j, '+') {
            Some((Token::Plus, j + 1))
        } else if self.has_char(j, '-') {
            Some((Token::Minus, j + 1))
        } else if self.has_char(j, '*') {
            Some((Token::Multiply, j + 1))
        } else if self.has_char(j, '/') {
            Some((Token::Divide, j + 1))
        } else if self.has_char(j, '%') {
            Some((Token::Modulo, j + 1))
        } else if self.has_char(j, '<') {
            Some((Token::Less, j + 1))
        } else if self.has_char(j, '>') {
            Some((Token::Greater, j + 1))
        } else if self.has_char(j, '?') {
            Some((Token::QuestionMark, j + 1))
        } else {
            None
        }
    }

    fn parse_fn_call(&self, i: usize) -> (r: Option<(Token, usize)>)
        requires
            self.wf(),
            i <= self.chars@.len(),
        ensures
            single_view(r) == lex_fn_call(self.chars@, i as int),
            r matches Some((_, p)) ==> i < p <= self.chars@.len(),
    {
        let j = self.skip_blank(i);
        let e = self.ident_from(j);
        if j < e && self.has_char(self.skip_blank(e), '(') {
            Some((Token::Ident(self.text_between(j, e)), e))
        } else {
            None
        }
    }

    fn parse_variable(&self, i: usize) -> (r: Option<(Token, usize)>)
        requires
            self.wf(),
            i <= self.chars@.len(),
        ensures
            single_view(r) == lex_variable(self.chars@, i as int),
            r matches Some((_, p)) ==> i < p <= self.chars@.len(),
    {
        let j = self.skip_blank(i);
        let e = self.ident_from(j);
        if j < e {
            Some((Token::Ident(self.text_between(j, e)), e))
        } else {
            None
        }
    }

    fn parse_return(&self, i: usize) -> (r: Option<(Token, usize)>)
        requires
            self.wf(),
            i <= self.chars@.len(),
        ensures
            single_view(r) == lex_return(self.chars@, i as int),
            r matches Some((_, p)) ==> i < p <= self.chars@.len(),
    {
        assert(['r', 'e', 't', 'u', 'r', 'n']@ =~= kw_return());
        let j = self.skip_blank(i);
        if self.has_text(j, &['r', 'e', 't', 'u', 'r', 'n']) {
            Some((Token::Return, j + 6))
        } else {
            None
        }
    }

    fn parse_single(&self, i: usize, table: &mut Vec<String>) -> (r: Option<(Token, usize)>)
        requires
            self.wf(),
            i <= self.chars@.len(),
        ensures
            match r {
                Some((t, p)) => lex_single(self.chars@, i as int, strings_view(old(table)@))
                    == Some((t@, p as int, strings_view(final(table)@))),
                None => lex_single(self.chars@, i as int, strings_view(old(table)@)) is None
                    && final(table)@ == old(table)@,
            },
            r matches Some((_, p)) ==> i < p <= self.chars@.len(),
    {
        let r = self.parse_float(i);
        if r.is_some() {
            return r;
        }
        let r = self.parse_integer(i);
        if r.is_some() {
            return r;
        }
        let r = self.parse_string(i, table);
        if r.is_some() {
            return r;
        }
        let r = self.parse_punctuation(i);
        if r.is_some() {
            return r;
        }
        let r = self.parse_delimiters(i);
        if r.is_some() {
            return r;
        }
        let r = self.parse_operators(i);
        if r.is_some() {
            return r;
        }
        let r = self.parse_fn_call(i);
        if r.is_some() {
            return r;
        }
        let r = self.parse_variable(i);
        if r.is_some() {
            return r;
        }
        self.parse_return(i)
    }

    /// The tokens that start at `i`.
    fn parse_token(&self, i: usize, table: &mut Vec<String>) -> (r: Option<(Vec<Token>, usize)>)
        requires
            self.wf(),
            i <= self.chars@.len(),
        ensures
            match r {
                Some((ts, p)) => lex_token(self.chars@, i as int, strings_view(old(table)@))
                    == Some((tokens_view(ts@), p as int, strings_view(final(table)@))),
                None => lex_token(self.chars@, i as int, strings_view(old(table)@)) is None
                    && final(table)@ == old(table)@,
            },
            r matches Some((_, p)) ==> i < p <= self.chars@.len(),
    {
        let r = self.parse_fn_def(i);
        if r.is_some() {
            return r;
        }
        let r = self.parse_fn(i);
        if r.is_some() {
            return r;
        }
        let r = self.parse_enum_def(i);
        if r.is_some() {
            return r;
        }
        let r = self.parse_struct_def(i);
        if r.is_some() {
            return r;
        }
        let r = self.parse_let(i);
        if r.is_some() {
            return r;
        }
        match self.parse_single(i, table) {
            Some((t, p)) => {
                let mut v: Vec<Token> = Vec::new();
                v.push(t);
                assert(tokens_view(v@) =~= seq![v@[0]@]);
                Some((v, p))
            },
            None => None,
        }
    }
}

/// Lexes `input`, interning string literals into `table`: the tokens, or the
/// position (in characters) of the first text that starts no token.
pub fn try_tokenize(input: &str, table: &mut Vec<String>) -> (r: Result<Vec<Token>, usize>)
    ensures
        strings_view(final(table)@) == lex(input@, strings_view(old(table)@)).table,
        match r {
            Ok(v) => lex(input@, strings_view(old(table)@)).error_at is None
                && tokens_view(v@) == lex(input@, strings_view(old(table)@)).tokens,
            Err(p) => lex(input@, strings_view(old(table)@)).error_at == Some(p as int),
        },
{
    let ghost full = lex(input@, strings_view(table@));
    let sc = Scanner::new(input);
    let mut out: Vec<Token> = Vec::new();
    let mut i: usize = 0;
    loop
        invariant
            sc.wf(),
            sc.chars@ == input@,
            full == lex(input@, strings_view(old(table)@)),
            i <= sc.chars@.len(),
            full.table == lex_from(input@, i as int, strings_view(table@)).table,
            full.error_at == lex_from(input@, i as int, strings_view(table@)).error_at,
            full.tokens == tokens_view(out@) + lex_from(input@, i as int, strings_view(table@)).tokens,
        decreases sc.chars@.len() - i,
    {
        let j = sc.skip_blank(i);
        if j >= sc.len() {
            assert(tokens_view(out@) + Seq::<SpecToken>::empty() =~= tokens_view(out@));
            return Ok(out);
        }
        let ghost t = strings_view(table@);
        match sc.parse_token(j, table) {
            Some((ts, p)) => {
                let ghost before = out@;
                let ghost batch = ts@;
                let mut ts = ts;
                out.append(&mut ts);
                assert(tokens_view(out@) =~= tokens_view(before) + tokens_view(batch));
                assert(tokens_view(out@) + lex_from(input@, p as int, strings_view(table@)).tokens =~= tokens_view(before) + (tokens_view(batch) + lex_from(input@, p as int, strings_view(table@)).tokens));
                i = p;
            },
            None => {
                return Err(j);
            },
        }
    }
}

/// Lexes `input`, interning string literals into `table`.
///
/// The whole text must consist of tokens and blanks.
pub fn tokenize(input: &str, table: &mut Vec<String>) -> (r: Vec<Token>)
    requires
        lex(input@, strings_view(old(table)@)).error_at is None,
    ensures
        tokens_view(r@) == lex(input@, strings_view(old(table)@)).tokens,
        strings_view(final(table)@) == lex(input@, strings_view(old(table)@)).table,
{
    match try_tokenize(input, table) {
        Ok(v) => v,
        Err(_) => Vec::new(),
    }
}

/// Every string token in `toks` refers to an index below `n`.
pub open spec fn strings_below(toks: Seq<SpecToken>, n: int) -> bool {
    forall|j: int| 0 <= j < toks.len() ==> (#[trigger] toks[j] matches SpecToken::StringIndex(k) ==> k < n)
}

proof fn lemma_first_from(t: Seq<Seq<char>>, x: Seq<char>, k: int)
    requires
        0 <= k <= t.len(),
    ensures
        k <= first_from(t, x, k) <= t.len(),
        first_from(t, x, k) < t.len() ==> t[first_from(t, x, k)] == x,
        forall|j: int| k <= j < first_from(t, x, k) ==> t[j] != x,
    decreases t.len() - k,
{
    if k < t.len() && t[k] != x {
        lemma_first_from(t, x, k + 1);
    }
}

/// Interning gives the index of the string in the new table, which is the old
/// table, or the old table with the string appended when it was not there.
/// The index is that of the string's first occurrence.
pub proof fn intern_finds_or_appends(t: Seq<Seq<char>>, x: Seq<char>)
    ensures
        0 <= intern_spec(t, x).0 < intern_spec(t, x).1.len(),
        intern_spec(t, x).1[intern_spec(t, x).0] == x,
        forall|j: int| 0 <= j < intern_spec(t, x).0 ==> intern_spec(t, x).1[j] != x,
        t.contains(x) ==> intern_spec(t, x).1 == t,
        !t.contains(x) ==> intern_spec(t, x).1 == t.push(x) && intern_spec(t, x).0 == t.len(),
        t.is_prefix_of(intern_spec(t, x).1),
{
    lemma_first_from(t, x, 0);
    let k = first_from(t, x, 0);
    if k < t.len() {
        assert(t.contains(x));
    } else {
        assert forall|j: int| 0 <= j < t.len() implies t[j] != x by {}
        assert(!t.contains(x));
        assert(t.push(x)[t.len() as int] == x);
    }
    assert(t.is_prefix_of(intern_spec(t, x).1));
}

/// Interning the same string again gives the same index and leaves the table
/// as it is.
pub proof fn intern_idempotent(t: Seq<Seq<char>>, x: Seq<char>)
    ensures
        intern_spec(intern_spec(t, x).1, x) == intern_spec(t, x),
{
    intern_finds_or_appends(t, x);
    let (i, t2) = intern_spec(t, x);
    intern_finds_or_appends(t2, x);
    assert(t2.contains(x));
    let (i2, t3) = intern_spec(t2, x);
    assert(t3 == t2);
    if i2 < i {
        assert(t2[i2] != x);
    }
    if i < i2 {
        assert(t3[i] != x);
    }
}

/// Interning keeps the entries of a table distinct.
pub proof fn intern_keeps_entries_distinct(t: Seq<Seq<char>>, x: Seq<char>)
    requires
        t.no_duplicates(),
    ensures
        intern_spec(t, x).1.no_duplicates(),
{
    intern_finds_or_appends(t, x);
    if !t.contains(x) {
        let t2 = t.push(x);
        assert forall|a: int, b: int| 0 <= a < t2.len() && 0 <= b < t2.len() && a != b implies t2[a] != t2[b] by {
            if a == t.len() {
                assert(t[b] == t2[b]);
            } else if b == t.len() {
                assert(t[a] == t2[a]);
            }
        }
    }
}

proof fn lemma_lex_token_table(s: Seq<char>, i: int, t: Seq<Seq<char>>)
    requires
        lex_token(s, i, t) is Some,
    ensures
        ({
            let (ts, p, t2) = lex_token(s, i, t)->0;
            &&& t.is_prefix_of(t2)
            &&& strings_below(ts, t2.len() as int)
            &&& t.no_duplicates() ==> t2.no_duplicates()
        }),
{
    let r = lex_token(s, i, t)->0;
    if lex_fn_def(s, i) is Some || lex_fn(s, i) is Some || lex_enum_def(s, i) is Some || lex_struct_def(s, i) is Some || lex_let(s, i) is Some {
        assert(t.is_prefix_of(t));
        assert forall|j: int| 0 <= j < r.0.len() implies !(#[trigger] r.0[j] is StringIndex) by {}
    } else {
        let (tok, p, t2) = lex_single(s, i, t)->0;
        if lex_float(s, i) is None && lex_integer(s, i) is None && lex_string(s, i, t) is Some {
            let j = blank_end(s, i);
            let k = quote_at_or_after(s, j + 1);
            intern_finds_or_appends(t, s.subrange(j + 1, k));
            if t.no_duplicates() {
                intern_keeps_entries_distinct(t, s.subrange(j + 1, k));
            }
        } else {
            assert(t.is_prefix_of(t));
        }
        assert(r.0 == seq![tok]);
    }
}

proof fn lemma_lex_from_table(s: Seq<char>, i: int, t: Seq<Seq<char>>)
    requires
        0 <= i,
    ensures
        t.is_prefix_of(lex_from(s, i, t).table),
        strings_below(lex_from(s, i, t).tokens, lex_from(s, i, t).table.len() as int),
        t.no_duplicates() ==> lex_from(s, i, t).table.no_duplicates(),
    decreases s.len() - i,
{
    let j = blank_end(s, i);
    if j >= s.len() {
        assert(t.is_prefix_of(t));
    } else {
        match lex_token(s, j, t) {
            Some((ts, p, t2)) => {
                if i < p <= s.len() {
                    lemma_lex_token_table(s, j, t);
                    lemma_lex_from_table(s, p, t2);
                    let rest = lex_from(s, p, t2);
                    let all = ts + rest.tokens;
                    assert forall|m: int| 0 <= m < all.len() implies (#[trigger] all[m] matches SpecToken::StringIndex(k) ==> k < rest.table.len()) by {
                        if m < ts.len() {
                            assert(all[m] == ts[m]);
                        } else {
                            assert(all[m] == rest.tokens[m - ts.len()]);
                        }
                    }
                } else {
                    assert(t.is_prefix_of(t));
                }
            },
            None => {
                assert(t.is_prefix_of(t));
            },
        }
    }
}

/// Lexing only appends to the string table, keeps its entries distinct, and
/// every string token it gives refers to an entry of the table it leaves.
pub proof fn lexing_extends_table(s: Seq<char>, t: Seq<Seq<char>>)
    ensures
        t.is_prefix_of(lex(s, t).table),
        strings_below(lex(s, t).tokens, lex(s, t).table.len() as int),
        t.no_duplicates() ==> lex(s, t).table.no_duplicates(),
{
    lemma_lex_from_table(s, 0, t);
}


proof fn lemma_digit_span(s: Seq<char>, i: int)
    requires
        0 <= i <= s.len(),
        forall|k: int| 0 <= k < s.len() ==> '0' <= #[trigger] s[k] <= '9',
    ensures
        digit_end(s, i) == s.len(),
    decreases s.len() - i,
{
    if i < s.len() {
        lemma_digit_span(s, i + 1);
    }
}

/// The keyword-led forms do not apply to a text that starts with a digit.
proof fn lemma_no_keyword_at_digit(s: Seq<char>)
    requires
        s.len() > 0,
        '0' <= s[0] <= '9',
    ensures
        lex_fn_def(s, 0) is None,
        lex_fn(s, 0) is None,
        lex_enum_def(s, 0) is None,
        lex_struct_def(s, 0) is None,
        lex_let(s, 0) is None,
        lex_string(s, 0, Seq::empty()) is None,
{
    assert(blank_end(s, 0) == 0);
    assert(kw_fn()[0] == 'f' && kw_enum()[0] == 'e' && kw_struct()[0] == 's' && kw_let()[0] == 'l');
    assert(kw_fn().len() == 2 && kw_enum().len() == 4 && kw_struct().len() == 6 && kw_let().len() == 3);
    assert forall|kw: Seq<char>| kw.len() > 0 && !('0' <= kw[0] <= '9') implies !text_at(s, 0, kw) by {
        if text_at(s, 0, kw) {
            assert(s.subrange(0, kw.len() as int)[0] == s[0]);
        }
    }
}

proof fn lemma_digits_lex(s: Seq<char>, t: Seq<Seq<char>>)
    requires
        s.len() > 0,
        forall|k: int| 0 <= k < s.len() ==> '0' <= #[trigger] s[k] <= '9',
        decimal_value(s) <= i128::MAX,
    ensures
        lex(s, t) == (Lexed { tokens: seq![SpecToken::Integer(decimal_value(s) as i128)], table: t, error_at: None }),
{
    lemma_no_keyword_at_digit(s);
    lemma_digit_span(s, 0);
    assert(s.subrange(0, s.len() as int) =~= s);
    assert(!char_at(s, s.len() as int, '.'));
    assert(lex_float(s, 0) is None);
    assert(lex_integer(s, 0) == Some((SpecToken::Integer(decimal_value(s) as i128), s.len() as int)));
    assert(lex_fn_def(s, 0) is None);
    assert(lex_token(s, 0, t) == Some((seq![SpecToken::Integer(decimal_value(s) as i128)], s.len() as int, t)));
    assert(blank_end(s, s.len() as int) == s.len());
    assert(lex_from(s, s.len() as int, t) == (Lexed { tokens: Seq::<SpecToken>::empty(), table: t, error_at: None }));
    assert(seq![SpecToken::Integer(decimal_value(s) as i128)] + Seq::<SpecToken>::empty() =~= seq![SpecToken::Integer(decimal_value(s) as i128)]);
    assert(lex_from(s, 0, t) == (Lexed { tokens: seq![SpecToken::Integer(decimal_value(s) as i128)], table: t, error_at: None }));
}

/// A single digit lexes to its value.
pub proof fn a_digit_lexes_to_its_value(d: char, t: Seq<Seq<char>>)
    requires
        '0' <= d <= '9',
    ensures
        lex(seq![d], t) == (Lexed { tokens: seq![SpecToken::Integer(((d as int) - ('0' as int)) as i128)], table: t, error_at: None }),
{
    let s = seq![d];
    assert(s.drop_last() =~= Seq::<char>::empty());
    assert(s.last() == d);
    assert(decimal_value(Seq::<char>::empty()) == 0);
    assert(decimal_value(s) == (d as int) - ('0' as int));
    lemma_digits_lex(s, t);
}

/// A digit after a number makes it ten times larger plus the digit's value:
/// when the digits `s` lex to the integer `v`, the digits `s` and `d` lex to
/// `10 v + d` (when that fits in an `i128`).
pub proof fn a_further_digit_scales_the_number(s: Seq<char>, d: char, v: i128, t: Seq<Seq<char>>)
    requires
        s.len() > 0,
        forall|k: int| 0 <= k < s.len() ==> '0' <= #[trigger] s[k] <= '9',
        '0' <= d <= '9',
        lex(s, t).tokens == seq![SpecToken::Integer(v)],
        10 * v + ((d as int) - ('0' as int)) <= i128::MAX,
    ensures
        lex(s.push(d), t) == (Lexed {
            tokens: seq![SpecToken::Integer((10 * v + ((d as int) - ('0' as int))) as i128)],
            table: t,
            error_at: None,
        }),
{
    let s2 = s.push(d);
    assert forall|k: int| 0 <= k < s2.len() implies '0' <= #[trigger] s2[k] <= '9' by {
        if k < s.len() {
            assert(s2[k] == s[k]);
        }
    }
    assert(s2.drop_last() =~= s);
    lemma_decimal_nonneg(s);
    if decimal_value(s) <= i128::MAX {
        lemma_digits_lex(s, t);
        assert(seq![SpecToken::Integer(decimal_value(s) as i128)][0] == seq![SpecToken::Integer(v)][0]);
        assert(decimal_value(s) == v);
    } else {
        lemma_decimal_too_large(s, t);
    }
    assert(decimal_value(s2) == decimal_value(s) * 10 + digit_value(d));
    lemma_digits_lex(s2, t);
}

proof fn lemma_decimal_nonneg(s: Seq<char>)
    requires
        forall|k: int| 0 <= k < s.len() ==> '0' <= #[trigger] s[k] <= '9',
    ensures
        decimal_value(s) >= 0,
    decreases s.len(),
{
    if s.len() > 0 {
        assert forall|k: int| 0 <= k < s.drop_last().len() implies '0' <= #[trigger] s.drop_last()[k] <= '9' by {
            assert(s.drop_last()[k] == s[k]);
        }
        lemma_decimal_nonneg(s.drop_last());
        assert('0' <= s.last() <= '9');
    }
}

/// Digits too large for an `i128` do not lex to one integer.
proof fn lemma_decimal_too_large(s: Seq<char>, t: Seq<Seq<char>>)
    requires
        s.len() > 0,
        forall|k: int| 0 <= k < s.len() ==> '0' <= #[trigger] s[k] <= '9',
        decimal_value(s) > i128::MAX,
    ensures
        !(lex(s, t).tokens.len() == 1 && lex(s, t).tokens[0] is Integer),
{
    lemma_no_keyword_at_digit(s);
    lemma_digit_span(s, 0);
    assert(s.subrange(0, s.len() as int) =~= s);
    assert(!char_at(s, s.len() as int, '.'));
    assert(lex_float(s, 0) is None);
    assert(lex_integer(s, 0) is None);
    let j = blank_end(s, 0);
    assert(j == 0);
    match lex_token(s, 0, t) {
        Some((ts, p, t2)) => {
            assert(ts.len() == 1);
            assert(!(ts[0] is Integer));
            lemma_lex_from_first(s, t);
        },
        None => {},
    }
}

proof fn lemma_lex_from_first(s: Seq<char>, t: Seq<Seq<char>>)
    requires
        s.len() > 0,
        blank_end(s, 0) == 0,
        lex_token(s, 0, t) matches Some((ts, p, _)) && ts.len() == 1 && !(ts[0] is Integer),
    ensures
        !(lex(s, t).tokens.len() == 1 && lex(s, t).tokens[0] is Integer),
{
    let (ts, p, t2) = lex_token(s, 0, t)->0;
    if 0 < p <= s.len() {
        let rest = lex_from(s, p, t2);
        assert(lex(s, t).tokens == ts + rest.tokens);
        assert((ts + rest.tokens)[0] == ts[0]);
    }
}

/// Digits, a dot and digits lex to one floating-point literal holding that
/// text.
pub proof fn a_decimal_fraction_lexes_whole(a: Seq<char>, b: Seq<char>, t: Seq<Seq<char>>)
    requires
        a.len() > 0,
        b.len() > 0,
        forall|k: int| 0 <= k < a.len() ==> '0' <= #[trigger] a[k] <= '9',
        forall|k: int| 0 <= k < b.len() ==> '0' <= #[trigger] b[k] <= '9',
    ensures
        lex(a + seq!['.'] + b, t) == (Lexed { tokens: seq![SpecToken::Float(a + seq!['.'] + b)], table: t, error_at: None }),
{
    let s = a + seq!['.'] + b;
    let n = a.len() as int;
    assert(s[0] == a[0]);
    lemma_no_keyword_at_digit(s);
    assert forall|k: int| 0 <= k < a.len() implies '0' <= #[trigger] s[k] <= '9' by {
        assert(s[k] == a[k]);
    }
    assert(s[n] == '.');
    lemma_digit_run_to(s, 0, n);
    assert forall|k: int| n + 1 <= k < s.len() implies '0' <= #[trigger] s[k] <= '9' by {
        assert(s[k] == b[k - n - 1]);
    }
    lemma_digit_run_to(s, n + 1, s.len() as int);
    assert(s.subrange(0, s.len() as int) =~= s);
    assert(lex_float(s, 0) == Some((SpecToken::Float(s), s.len() as int)));
    assert(lex_token(s, 0, t) == Some((seq![SpecToken::Float(s)], s.len() as int, t)));
    assert(blank_end(s, s.len() as int) == s.len());
    assert(lex_from(s, s.len() as int, t) == (Lexed { tokens: Seq::<SpecToken>::empty(), table: t, error_at: None }));
    assert(seq![SpecToken::Float(s)] + Seq::<SpecToken>::empty() =~= seq![SpecToken::Float(s)]);
    assert(lex_from(s, 0, t) == (Lexed { tokens: seq![SpecToken::Float(s)], table: t, error_at: None }));
}

proof fn lemma_digit_run_to(s: Seq<char>, i: int, e: int)
    requires
        0 <= i <= e <= s.len(),
        forall|k: int| i <= k < e ==> '0' <= #[trigger] s[k] <= '9',
        e == s.len() || !('0' <= s[e] <= '9'),
    ensures
        digit_end(s, i) == e,
    decreases e - i,
{
    if i < e {
        lemma_digit_run_to(s, i + 1, e);
    }
}

} // verus!

//! A second tokenizer, working in passes over partly tokenized text: string
//! literals are cut out first, then the rest is split into words and symbols.
use crate::lexer::{quote_at_or_after, Scanner};
use crate::token::{strings_view, SpecToken, Token};
use vstd::prelude::*;

verus! {

/// Text that is either already a token or still a string to split.
#[derive(Clone, Debug, PartialEq)]
pub enum IntermediateToken {
    Token(Token),
    String(String),
}

/// The value of an [`IntermediateToken`].
pub enum SpecIntermediateToken {
    Token(SpecToken),
    String(Seq<char>),
}

impl View for IntermediateToken {
    type V = SpecIntermediateToken;

    open spec fn view(&self) -> SpecIntermediateToken {
        match self {
            IntermediateToken::Token(t) => SpecIntermediateToken::Token(t@),
            IntermediateToken::String(s) => SpecIntermediateToken::String(s@),
        }
    }
}

pub open spec fn intermediates_view(s: Seq<IntermediateToken>) -> Seq<SpecIntermediateToken> {
    s.map_values(|t: IntermediateToken| t@)
}

/// The pieces of text and tokens, and the store of string literals.
#[derive(Clone, Debug)]
pub struct Tokenizer {
    pub tokens: Vec<IntermediateToken>,
    pub string_interning_store: Vec<String>,
    pub complete: bool,
}

/// Whether `c` has the Unicode White_Space property, the test of
/// `char::is_whitespace` and the one by which `str::split_whitespace` splits:
/// U+0009 to U+000D, U+0020, U+0085, U+00A0, U+1680, U+2000 to U+200A, U+2028,
/// U+2029, U+202F, U+205F and U+3000.
pub open spec fn whitespace(c: char) -> bool {
    ('\u{9}' <= c <= '\u{d}') || c == ' ' || c == '\u{85}' || c == '\u{a0}' || c == '\u{1680}'
        || ('\u{2000}' <= c <= '\u{200a}') || c == '\u{2028}' || c == '\u{2029}' || c == '\u{202f}'
        || c == '\u{205f}' || c == '\u{3000}'
}

/// Whether `c` is Unicode white space.
pub fn is_whitespace(c: char) -> (r: bool)
    ensures
        r == whitespace(c),
{
    ('\u{9}' <= c && c <= '\u{d}') || c == ' ' || c == '\u{85}' || c == '\u{a0}' || c == '\u{1680}'
        || ('\u{2000}' <= c && c <= '\u{200a}') || c == '\u{2028}' || c == '\u{2029}' || c == '\u{202f}'
        || c == '\u{205f}' || c == '\u{3000}'
}

pub open spec fn ascii_alphanumeric(c: char) -> bool {
    ('0' <= c <= '9') || ('a' <= c <= 'z') || ('A' <= c <= 'Z')
}

fn is_ascii_alphanumeric(c: char) -> (r: bool)
    ensures
        r == ascii_alphanumeric(c),
{
    ('0' <= c && c <= '9') || ('a' <= c && c <= 'z') || ('A' <= c && c <= 'Z')
}

/// The end of the run of ASCII letters and digits that starts at `i`.
pub open spec fn alphanumeric_end(s: Seq<char>, i: int) -> int
    decreases s.len() - i,
{
    if 0 <= i < s.len() && ascii_alphanumeric(s[i]) {
        alphanumeric_end(s, i + 1)
    } else {
        i
    }
}

/// A word or symbol: the token it names, or the text itself.
pub open spec fn word_token(w: Seq<char>) -> SpecIntermediateToken {
    if w == seq!['f', 'n'] {
        SpecIntermediateToken::Token(SpecToken::Fn)
    } else if w == seq!['('] {
        SpecIntermediateToken::Token(SpecToken::LParen)
    } else if w == seq![')'] {
        SpecIntermediateToken::Token(SpecToken::RParen)
    } else if w == seq!['{'] {
        SpecIntermediateToken::Token(SpecToken::LBrace)
    } else if w == seq!['}'] {
        SpecIntermediateToken::Token(SpecToken::RBrace)
    } else if w == seq![','] {
        SpecIntermediateToken::Token(SpecToken::Comma)
    } else if w == seq![';'] {
        SpecIntermediateToken::Token(SpecToken::SemiColon)
    } else {
        SpecIntermediateToken::String(w)
    }
}

/// The words and symbols of `s` from `i` on: runs of ASCII letters and digits,
/// and every other character but whitespace on its own.
pub open spec fn pieces_from(s: Seq<char>, i: int) -> Seq<SpecIntermediateToken>
    decreases s.len() - i,
{
    if i < 0 || i >= s.len() {
        Seq::empty()
    } else if whitespace(s[i]) {
        pieces_from(s, i + 1)
    } else if ascii_alphanumeric(s[i]) {
        let e = alphanumeric_end(s, i);
        if i < e <= s.len() {
            seq![word_token(s.subrange(i, e))] + pieces_from(s, e)
        } else {
            Seq::empty()
        }
    } else {
        seq![word_token(s.subrange(i, i + 1))] + pieces_from(s, i + 1)
    }
}

/// Splitting every string of `items` into words and symbols.
pub open spec fn split_up_spec(items: Seq<SpecIntermediateToken>) -> Seq<SpecIntermediateToken>
    decreases items.len(),
{
    if items.len() == 0 {
        Seq::empty()
    } else {
        split_up_spec(items.drop_last()) + match items.last() {
            SpecIntermediateToken::String(s) => pieces_from(s, 0),
            SpecIntermediateToken::Token(t) => seq![SpecIntermediateToken::Token(t)],
        }
    }
}

/// The parts of `s` from `i` on between double quotes.
pub open spec fn quote_segments(s: Seq<char>, i: int) -> Seq<Seq<char>>
    decreases s.len() - i,
{
    let k = quote_at_or_after(s, i);
    if 0 <= i <= k < s.len() {
        seq![s.subrange(i, k)] + quote_segments(s, k + 1)
    } else {
        seq![s.subrange(i, s.len() as int)]
    }
}

/// Adding the parts `segs[k..]` of one string: parts at even positions stay
/// text, parts at odd positions (inside quotes) go to the store and become
/// string tokens.
pub open spec fn add_segments(toks: Seq<SpecIntermediateToken>, store: Seq<Seq<char>>, segs: Seq<Seq<char>>, k: int) -> (Seq<SpecIntermediateToken>, Seq<Seq<char>>)
    decreases segs.len() - k,
{
    if k < 0 || k >= segs.len() {
        (toks, store)
    } else if k % 2 == 0 {
        add_segments(toks.push(SpecIntermediateToken::String(segs[k])), store, segs, k + 1)
    } else {
        add_segments(toks.push(SpecIntermediateToken::Token(SpecToken::StringIndex(store.len() as usize))), store.push(segs[k]), segs, k + 1)
    }
}

/// Cutting the string literals out of the strings of `items` (tokens are
/// dropped): the pieces and a new store.
pub open spec fn interning_spec(items: Seq<SpecIntermediateToken>) -> (Seq<SpecIntermediateToken>, Seq<Seq<char>>)
    decreases items.len(),
{
    if items.len() == 0 {
        (Seq::empty(), Seq::empty())
    } else {
        let (toks, store) = interning_spec(items.drop_last());
        match items.last() {
            SpecIntermediateToken::String(s) => add_segments(toks, store, quote_segments(s, 0), 0),
            SpecIntermediateToken::Token(_) => (toks, store),
        }
    }
}

/// Whether the piece at `i` is the token `t`.
pub open spec fn token_at(items: Seq<SpecIntermediateToken>, i: int, t: SpecToken) -> bool {
    0 <= i < items.len() && items[i] == SpecIntermediateToken::Token(t)
}

/// The piece at `i` after telling functions apart: a name followed by `(` is a
/// function definition when `fn` comes before it, a call otherwise.
pub open spec fn determined(items: Seq<SpecIntermediateToken>, i: int) -> SpecIntermediateToken {
    match items[i] {
        SpecIntermediateToken::String(name) => if token_at(items, i + 1, SpecToken::LParen) {
            if token_at(items, i - 1, SpecToken::Fn) {
                SpecIntermediateToken::Token(SpecToken::FnDefinition(name))
            } else {
                SpecIntermediateToken::Token(SpecToken::FnCall(name))
            }
        } else {
            SpecIntermediateToken::String(name)
        },
        SpecIntermediateToken::Token(t) => SpecIntermediateToken::Token(t),
    }
}

/// Telling functions apart in every piece.
pub open spec fn determination_spec(items: Seq<SpecIntermediateToken>) -> Seq<SpecIntermediateToken> {
    Seq::new(items.len(), |i: int| determined(items, i))
}

impl IntermediateToken {
    /// The text, when this is still text.
    pub fn as_str(&self) -> (r: Option<&String>)
        ensures
            match self {
                IntermediateToken::String(s) => r == Some(s),
                IntermediateToken::Token(_) => r is None,
            },
    {
        match self {
            IntermediateToken::Token(_) => None,
            IntermediateToken::String(s) => Some(s),
        }
    }

    /// The token, when this is a token.
    pub fn as_token(&self) -> (r: Option<&Token>)
        ensures
            match self {
                IntermediateToken::Token(t) => r == Some(t),
                IntermediateToken::String(_) => r is None,
            },
    {
        match self {
            IntermediateToken::Token(t) => Some(t),
            IntermediateToken::String(_) => None,
        }
    }

    fn copy(&self) -> (r: IntermediateToken)
        ensures
            r@ == self@,
    {
        match self {
            IntermediateToken::Token(t) => IntermediateToken::Token(t.copy()),
            IntermediateToken::String(s) => IntermediateToken::String(s.clone()),
        }
    }
}

impl<'a> Scanner<'a> {
    fn alphanumeric_from(&self, i: usize) -> (r: usize)
        requires
            i <= self.chars@.len(),
        ensures
            r == alphanumeric_end(self.chars@, i as int),
            i <= r <= self.chars@.len(),
    {
        let mut k = i;
        while k < self.chars.len() && is_ascii_alphanumeric(self.chars[k])
            invariant
                i <= k <= self.chars@.len(),
                alphanumeric_end(self.chars@, k as int) == alphanumeric_end(self.chars@, i as int),
            decreases self.chars@.len() - k,
        {
            k = k + 1;
        }
        k
    }

    /// The word or symbol between `a` and `b`.
    fn word(&self, a: usize, b: usize) -> (r: IntermediateToken)
        requires
            self.wf(),
            a < b <= self.chars@.len(),
        ensures
            r@ == word_token(self.chars@.subrange(a as int, b as int)),
    {
        let ghost w = self.chars@.subrange(a as int, b as int);
        let c = self.chars[a];
        assert(w[0] == c);
        if b - a == 2 && c == 'f' && self.chars[a + 1] == 'n' {
            assert(w =~= seq!['f', 'n']);
            return IntermediateToken::Token(Token::Fn);
        }
        if b - a == 2 {
            assert(w[1] == self.chars@[a + 1]);
            assert(seq!['f', 'n'][0] == 'f' && seq!['f', 'n'][1] == 'n');
            assert(w != seq!['f', 'n']);
        }
        if b - a == 1 {
            assert(w =~= seq![c]);
            assert(seq!['('][0] == '(' && seq![')'][0] == ')' && seq!['{'][0] == '{' && seq!['}'][0] == '}');
            assert(seq![','][0] == ',' && seq![';'][0] == ';');
            if c == '(' {
                return IntermediateToken::Token(Token::LParen);
            } else if c == ')' {
                return IntermediateToken::Token(Token::RParen);
            } else if c == '{' {
                return IntermediateToken::Token(Token::LBrace);
            } else if c == '}' {
                return IntermediateToken::Token(Token::RBrace);
            } else if c == ',' {
                return IntermediateToken::Token(Token::Comma);
            } else if c == ';' {
                return IntermediateToken::Token(Token::SemiColon);
            }
        }
        assert(w.len() == b - a);
        assert(w != seq!['f', 'n']) by {
            if w == seq!['f', 'n'] {
                assert(seq!['f', 'n'].len() == 2 && seq!['f', 'n'][0] == 'f' && seq!['f', 'n'][1] == 'n');
                assert(w[1] == self.chars@[a + 1]);
            }
        }
        assert(w != seq!['('] && w != seq![')'] && w != seq!['{'] && w != seq!['}'] && w != seq![','] && w != seq![';']) by {
            assert(seq!['('].len() == 1 && seq![')'].len() == 1 && seq!['{'].len() == 1);
            assert(seq!['}'].len() == 1 && seq![','].len() == 1 && seq![';'].len() == 1);
            if w.len() == 1 {
                assert(w =~= seq![c]);
            }
        }
        IntermediateToken::String(self.text_between(a, b))
    }
}

proof fn lemma_alphanumeric_end(s: Seq<char>, i: int)
    requires
        0 <= i <= s.len(),
    ensures
        i <= alphanumeric_end(s, i) <= s.len(),
    decreases s.len() - i,
{
    if i < s.len() && ascii_alphanumeric(s[i]) {
        lemma_alphanumeric_end(s, i + 1);
    }
}

/// Appends the words and symbols of `text` to `out`.
fn split_string(text: &String, out: &mut Vec<IntermediateToken>)
    ensures
        intermediates_view(final(out)@) == intermediates_view(old(out)@) + pieces_from(text@, 0),
{
    let sc = Scanner::new(text.as_str());
    let ghost s = text@;
    let ghost start = intermediates_view(out@);
    let mut i: usize = 0;
    while i < sc.len()
        invariant
            sc.wf(),
            sc.chars@ == s,
            i <= s.len(),
            intermediates_view(out@) + pieces_from(s, i as int) == start + pieces_from(s, 0),
        decreases s.len() - i,
    {
        let c = sc.chars[i];
        let ghost before = intermediates_view(out@);
        if is_whitespace(c) {
            i = i + 1;
        } else if is_ascii_alphanumeric(c) {
            proof {
                lemma_alphanumeric_end(s, i + 1);
            }
            let e = sc.alphanumeric_from(i);
            assert(e > i);
            let w = sc.word(i, e);
            let ghost wv = w@;
            out.push(w);
            assert(intermediates_view(out@) =~= before.push(wv));
            assert(before.push(wv) + pieces_from(s, e as int) =~= before + (seq![wv] + pieces_from(s, e as int)));
            i = e;
        } else {
            let w = sc.word(i, i + 1);
            let ghost wv = w@;
            out.push(w);
            assert(intermediates_view(out@) =~= before.push(wv));
            assert(before.push(wv) + pieces_from(s, i + 1) =~= before + (seq![wv] + pieces_from(s, i + 1)));
            i = i + 1;
        }
    }
    assert(pieces_from(s, i as int) =~= Seq::<SpecIntermediateToken>::empty());
    assert(intermediates_view(out@) + Seq::<SpecIntermediateToken>::empty() =~= intermediates_view(out@));
}

/// The parts of `text` between double quotes.
fn split_quotes(text: &String) -> (r: Vec<String>)
    ensures
        strings_view(r@) == quote_segments(text@, 0),
{
    let sc = Scanner::new(text.as_str());
    let ghost s = text@;
    let mut out: Vec<String> = Vec::new();
    let mut i: usize = 0;
    loop
        invariant
            sc.wf(),
            sc.chars@ == s,
            s == text@,
            i <= s.len(),
            strings_view(out@) + quote_segments(s, i as int) == quote_segments(s, 0),
        decreases s.len() - i,
    {
        let k = sc.quote_from(i);
        let ghost before = strings_view(out@);
        if k < sc.len() {
            let part = sc.text_between(i, k);
            out.push(part);
            assert(strings_view(out@) =~= before.push(part@));
            assert(before.push(part@) + quote_segments(s, k + 1) =~= before + (seq![part@] + quote_segments(s, k + 1)));
            i = k + 1;
        } else {
            let part = sc.text_between(i, sc.len());
            let ghost pv = part@;
            assert(quote_segments(s, i as int) == seq![pv]);
            out.push(part);
            assert(strings_view(out@) =~= before.push(pv));
            assert(before + seq![pv] =~= before.push(pv));
            return out;
        }
    }
}

impl Tokenizer {
    /// Cuts the string literals out of the text: what lies between double
    /// quotes goes to a new store and becomes a string token; the text around
    /// it stays text. Tokens are dropped.
    pub fn string_interning(self) -> (r: Tokenizer)
        ensures
            (intermediates_view(r.tokens@), strings_view(r.string_interning_store@)) == interning_spec(intermediates_view(self.tokens@)),
            r.complete == self.complete,
    {
        let ghost items = intermediates_view(self.tokens@);
        let mut toks: Vec<IntermediateToken> = Vec::new();
        let mut store: Vec<String> = Vec::new();
        let n = self.tokens.len();
        let mut idx: usize = 0;
        assert(items.take(0) =~= Seq::<SpecIntermediateToken>::empty());
        assert(intermediates_view(toks@) =~= Seq::<SpecIntermediateToken>::empty());
        assert(strings_view(store@) =~= Seq::<Seq<char>>::empty());
        while idx < n
            invariant
                n == self.tokens@.len(),
                items == intermediates_view(self.tokens@),
                idx <= n,
                (intermediates_view(toks@), strings_view(store@)) == interning_spec(items.take(idx as int)),
            decreases n - idx,
        {
            assert(items.take(idx + 1).drop_last() =~= items.take(idx as int));
            assert(items.take(idx + 1).last() == self.tokens@[idx as int]@);
            match &self.tokens[idx] {
                IntermediateToken::String(s) => {
                    let segs = split_quotes(s);
                    let ghost sv = strings_view(segs@);
                    let ghost t0 = intermediates_view(toks@);
                    let ghost s0 = strings_view(store@);
                    let mut k: usize = 0;
                    while k < segs.len()
                        invariant
                            sv == strings_view(segs@),
                            k <= segs@.len(),
                            add_segments(t0, s0, sv, 0) == add_segments(intermediates_view(toks@), strings_view(store@), sv, k as int),
                        decreases segs@.len() - k,
                    {
                        let ghost tb = intermediates_view(toks@);
                        let ghost sb = strings_view(store@);
                        if k % 2 == 0 {
                            toks.push(IntermediateToken::String(segs[k].clone()));
                            assert(intermediates_view(toks@) =~= tb.push(SpecIntermediateToken::String(sv[k as int])));
                        } else {
                            toks.push(IntermediateToken::Token(Token::StringIndex(store.len())));
                            store.push(segs[k].clone());
                            assert(intermediates_view(toks@) =~= tb.push(SpecIntermediateToken::Token(SpecToken::StringIndex(sb.len() as usize))));
                            assert(strings_view(store@) =~= sb.push(sv[k as int]));
                        }
                        k = k + 1;
                    }
                },
                IntermediateToken::Token(_) => {},
            }
            idx = idx + 1;
        }
        assert(items.take(n as int) =~= items);
        Tokenizer { tokens: toks, string_interning_store: store, complete: self.complete }
    }

    /// Splits the text into words (runs of ASCII letters and digits) and
    /// symbols (every other character but whitespace); `fn`, parentheses,
    /// braces, commas and semicolons become tokens. Tokens stay as they are.
    pub fn split_up(self) -> (r: Tokenizer)
        ensures
            intermediates_view(r.tokens@) == split_up_spec(intermediates_view(self.tokens@)),
            r.string_interning_store == self.string_interning_store,
            r.complete == self.complete,
    {
        let ghost items = intermediates_view(self.tokens@);
        let mut out: Vec<IntermediateToken> = Vec::new();
        let n = self.tokens.len();
        let mut idx: usize = 0;
        assert(items.take(0) =~= Seq::<SpecIntermediateToken>::empty());
        assert(intermediates_view(out@) =~= Seq::<SpecIntermediateToken>::empty());
        while idx < n
            invariant
                n == self.tokens@.len(),
                items == intermediates_view(self.tokens@),
                idx <= n,
                intermediates_view(out@) == split_up_spec(items.take(idx as int)),
            decreases n - idx,
        {
            assert(items.take(idx + 1).drop_last() =~= items.take(idx as int));
            assert(items.take(idx + 1).last() == self.tokens@[idx as int]@);
            let ghost before = intermediates_view(out@);
            match &self.tokens[idx] {
                IntermediateToken::String(s) => {
                    split_string(s, &mut out);
                },
                IntermediateToken::Token(t) => {
                    let it = IntermediateToken::Token(t.copy());
                    let ghost iv = it@;
                    out.push(it);
                    assert(intermediates_view(out@) =~= before + seq![iv]);
                },
            }
            idx = idx + 1;
        }
        assert(items.take(n as int) =~= items);
        Tokenizer { tokens: out, string_interning_store: self.string_interning_store, complete: self.complete }
    }

    /// Tells functions apart: a text piece followed by `(` becomes a function
    /// definition when `fn` comes before it, and a function call otherwise
    /// (also when it is the first piece).
    pub fn funcion_determination(self) -> (r: Tokenizer)
        ensures
            intermediates_view(r.tokens@) == determination_spec(intermediates_view(self.tokens@)),
            r.string_interning_store == self.string_interning_store,
            r.complete == self.complete,
    {
        let ghost items = intermediates_view(self.tokens@);
        let n = self.tokens.len();
        let mut out: Vec<IntermediateToken> = Vec::new();
        let mut i: usize = 0;
        while i < n
            invariant
                n == self.tokens@.len(),
                items == intermediates_view(self.tokens@),
                i <= n,
                intermediates_view(out@) == determination_spec(items).take(i as int),
            decreases n - i,
        {
            let ghost before = intermediates_view(out@);
            let piece = match &self.tokens[i] {
                IntermediateToken::Token(t) => IntermediateToken::Token(t.copy()),
                IntermediateToken::String(name) => {
                    let paren_next = i + 1 < n && match &self.tokens[i + 1] {
                        IntermediateToken::Token(Token::LParen) => true,
                        _ => false,
                    };
                    if paren_next {
                        let fn_before = i > 0 && match &self.tokens[i - 1] {
                            IntermediateToken::Token(Token::Fn) => true,
                            _ => false,
                        };
                        if fn_before {
                            IntermediateToken::Token(Token::FnDefinition(name.clone()))
                        } else {
                            IntermediateToken::Token(Token::FnCall(name.clone()))
                        }
                    } else {
                        IntermediateToken::String(name.clone())
                    }
                },
            };
            assert(piece@ == determined(items, i as int));
            let ghost pv = piece@;
            out.push(piece);
            assert(intermediates_view(out@) =~= before.push(pv));
            assert(intermediates_view(out@) =~= determination_spec(items).take(i + 1));
            i = i + 1;
        }
        assert(determination_spec(items).take(n as int) =~= determination_spec(items));
        Tokenizer { tokens: out, string_interning_store: self.string_interning_store, complete: self.complete }
    }
}

/// Every string token among `toks` refers to an index below `n`.
pub open spec fn string_tokens_below(toks: Seq<SpecIntermediateToken>, n: int) -> bool {
    forall|j: int| 0 <= j < toks.len() ==> (#[trigger] toks[j] matches SpecIntermediateToken::Token(SpecToken::StringIndex(k)) ==> k < n)
}

proof fn lemma_add_segments_prefix(toks: Seq<SpecIntermediateToken>, store: Seq<Seq<char>>, segs: Seq<Seq<char>>, k: int)
    ensures
        store.is_prefix_of(add_segments(toks, store, segs, k).1),
    decreases segs.len() - k,
{
    if k < 0 || k >= segs.len() {
        assert(store.is_prefix_of(store));
    } else if k % 2 == 0 {
        lemma_add_segments_prefix(toks.push(SpecIntermediateToken::String(segs[k])), store, segs, k + 1);
    } else {
        let s2 = store.push(segs[k]);
        lemma_add_segments_prefix(toks.push(SpecIntermediateToken::Token(SpecToken::StringIndex(store.len() as usize))), s2, segs, k + 1);
        let fin = add_segments(toks.push(SpecIntermediateToken::Token(SpecToken::StringIndex(store.len() as usize))), s2, segs, k + 1).1;
        assert forall|j: int| 0 <= j < store.len() implies store[j] == fin[j] by {
            assert(s2[j] == store[j]);
        }
    }
}

proof fn lemma_add_segments(toks: Seq<SpecIntermediateToken>, store: Seq<Seq<char>>, segs: Seq<Seq<char>>, k: int)
    requires
        string_tokens_below(toks, store.len() as int),
        add_segments(toks, store, segs, k).1.len() <= usize::MAX,
    ensures
        string_tokens_below(add_segments(toks, store, segs, k).0, add_segments(toks, store, segs, k).1.len() as int),
    decreases segs.len() - k,
{
    lemma_add_segments_prefix(toks, store, segs, k);
    if k < 0 || k >= segs.len() {
    } else if k % 2 == 0 {
        let t2 = toks.push(SpecIntermediateToken::String(segs[k]));
        assert forall|j: int| 0 <= j < t2.len() implies (#[trigger] t2[j] matches SpecIntermediateToken::Token(SpecToken::StringIndex(i)) ==> i < store.len()) by {
            if j < toks.len() {
                assert(t2[j] == toks[j]);
            }
        }
        lemma_add_segments(t2, store, segs, k + 1);
    } else {
        let t2 = toks.push(SpecIntermediateToken::Token(SpecToken::StringIndex(store.len() as usize)));
        let s2 = store.push(segs[k]);
        lemma_add_segments_prefix(t2, s2, segs, k + 1);
        assert(store.len() < usize::MAX);
        assert forall|j: int| 0 <= j < t2.len() implies (#[trigger] t2[j] matches SpecIntermediateToken::Token(SpecToken::StringIndex(i)) ==> i < s2.len()) by {
            if j < toks.len() {
                assert(t2[j] == toks[j]);
            }
        }
        lemma_add_segments(t2, s2, segs, k + 1);
    }
}

proof fn lemma_interning(items: Seq<SpecIntermediateToken>)
    requires
        interning_spec(items).1.len() <= usize::MAX,
    ensures
        string_tokens_below(interning_spec(items).0, interning_spec(items).1.len() as int),
    decreases items.len(),
{
    if items.len() > 0 {
        let (toks, store) = interning_spec(items.drop_last());
        match items.last() {
            SpecIntermediateToken::String(s) => {
                lemma_add_segments_prefix(toks, store, quote_segments(s, 0), 0);
                lemma_interning(items.drop_last());
                lemma_add_segments(toks, store, quote_segments(s, 0), 0);
            },
            SpecIntermediateToken::Token(_) => {
                lemma_interning(items.drop_last());
            },
        }
    }
}

/// Cutting out string literals numbers them in order: every string token it
/// gives refers to an entry of the new store (which, held in memory, has at
/// most `usize::MAX` entries).
pub proof fn interned_strings_are_in_store(items: Seq<SpecIntermediateToken>)
    requires
        interning_spec(items).1.len() <= usize::MAX,
    ensures
        string_tokens_below(interning_spec(items).0, interning_spec(items).1.len() as int),
{
    lemma_interning(items);
}


/// The text that a token of the splitting pass stands for.
pub open spec fn token_text(t: SpecToken) -> Seq<char> {
    match t {
        SpecToken::Fn => seq!['f', 'n'],
        SpecToken::LParen => seq!['('],
        SpecToken::RParen => seq![')'],
        SpecToken::LBrace => seq!['{'],
        SpecToken::RBrace => seq!['}'],
        SpecToken::Comma => seq![','],
        SpecToken::SemiColon => seq![';'],
        _ => Seq::empty(),
    }
}

/// The text of a piece.
pub open spec fn piece_text(p: SpecIntermediateToken) -> Seq<char> {
    match p {
        SpecIntermediateToken::String(x) => x,
        SpecIntermediateToken::Token(t) => token_text(t),
    }
}

/// The texts of the pieces, one after the other.
pub open spec fn joined_text(ps: Seq<SpecIntermediateToken>) -> Seq<char>
    decreases ps.len(),
{
    if ps.len() == 0 {
        Seq::empty()
    } else {
        piece_text(ps[0]) + joined_text(ps.drop_first())
    }
}

/// `s` with its white space taken out.
pub open spec fn without_whitespace(s: Seq<char>) -> Seq<char>
    decreases s.len(),
{
    if s.len() == 0 {
        Seq::empty()
    } else {
        (if whitespace(s[0]) { Seq::empty() } else { seq![s[0]] }) + without_whitespace(s.drop_first())
    }
}

proof fn lemma_alphanumeric_run(s: Seq<char>, i: int)
    requires
        0 <= i <= s.len(),
    ensures
        forall|k: int| i <= k < alphanumeric_end(s, i) ==> ascii_alphanumeric(#[trigger] s[k]),
    decreases s.len() - i,
{
    if i < s.len() && ascii_alphanumeric(s[i]) {
        lemma_alphanumeric_run(s, i + 1);
    }
}

proof fn lemma_joined_cons(p: SpecIntermediateToken, rest: Seq<SpecIntermediateToken>)
    ensures
        joined_text(seq![p] + rest) == piece_text(p) + joined_text(rest),
{
    assert((seq![p] + rest).drop_first() =~= rest);
    assert((seq![p] + rest)[0] == p);
}

proof fn lemma_without_whitespace_cons(s: Seq<char>, i: int)
    requires
        0 <= i < s.len(),
    ensures
        without_whitespace(s.subrange(i, s.len() as int))
            == (if whitespace(s[i]) { Seq::empty() } else { seq![s[i]] }) + without_whitespace(s.subrange(i + 1, s.len() as int)),
{
    let t = s.subrange(i, s.len() as int);
    assert(t[0] == s[i]);
    assert(t.drop_first() =~= s.subrange(i + 1, s.len() as int));
}

proof fn lemma_without_whitespace_run(s: Seq<char>, i: int, e: int)
    requires
        0 <= i <= e <= s.len(),
        forall|k: int| i <= k < e ==> !whitespace(#[trigger] s[k]),
    ensures
        without_whitespace(s.subrange(i, s.len() as int)) == s.subrange(i, e) + without_whitespace(s.subrange(e, s.len() as int)),
    decreases e - i,
{
    if i == e {
        assert(s.subrange(i, e) + without_whitespace(s.subrange(e, s.len() as int)) =~= without_whitespace(s.subrange(e, s.len() as int)));
    } else {
        lemma_without_whitespace_cons(s, i);
        lemma_without_whitespace_run(s, i + 1, e);
        assert(!whitespace(s[i]));
        assert(seq![s[i]] + (s.subrange(i + 1, e) + without_whitespace(s.subrange(e, s.len() as int)))
            =~= s.subrange(i, e) + without_whitespace(s.subrange(e, s.len() as int)));
    }
}

proof fn lemma_word_text(w: Seq<char>)
    ensures
        piece_text(word_token(w)) == w,
{
}

proof fn lemma_pieces_text(s: Seq<char>, i: int)
    requires
        0 <= i <= s.len(),
    ensures
        joined_text(pieces_from(s, i)) == without_whitespace(s.subrange(i, s.len() as int)),
    decreases s.len() - i,
{
    let n = s.len() as int;
    if i == n {
        assert(s.subrange(i, n) =~= Seq::<char>::empty());
    } else if whitespace(s[i]) {
        lemma_without_whitespace_cons(s, i);
        lemma_pieces_text(s, i + 1);
        assert(Seq::<char>::empty() + without_whitespace(s.subrange(i + 1, n)) =~= without_whitespace(s.subrange(i + 1, n)));
    } else if ascii_alphanumeric(s[i]) {
        let e = alphanumeric_end(s, i);
        lemma_alphanumeric_end(s, i + 1);
        lemma_alphanumeric_run(s, i);
        assert(i < e <= n);
        assert forall|k: int| i <= k < e implies !whitespace(#[trigger] s[k]) by {
            assert(ascii_alphanumeric(s[k]));
        }
        lemma_without_whitespace_run(s, i, e);
        lemma_pieces_text(s, e);
        lemma_joined_cons(word_token(s.subrange(i, e)), pieces_from(s, e));
        lemma_word_text(s.subrange(i, e));
    } else {
        lemma_without_whitespace_cons(s, i);
        lemma_pieces_text(s, i + 1);
        lemma_joined_cons(word_token(s.subrange(i, i + 1)), pieces_from(s, i + 1));
        lemma_word_text(s.subrange(i, i + 1));
        assert(s.subrange(i, i + 1) =~= seq![s[i]]);
    }
}

/// Splitting a text keeps its characters: the pieces that `split_up` makes of
/// one text, put back together (a token as the text it stands for), give the
/// text with its white space taken out.
pub proof fn split_up_keeps_text(s: Seq<char>)
    ensures
        joined_text(split_up_spec(seq![SpecIntermediateToken::String(s)])) == without_whitespace(s),
{
    let items = seq![SpecIntermediateToken::String(s)];
    assert(items.drop_last() =~= Seq::<SpecIntermediateToken>::empty());
    assert(items.last() == SpecIntermediateToken::String(s));
    assert(split_up_spec(Seq::<SpecIntermediateToken>::empty()) == Seq::<SpecIntermediateToken>::empty());
    assert(split_up_spec(items) == split_up_spec(items.drop_last()) + pieces_from(s, 0));
    assert(split_up_spec(items) =~= pieces_from(s, 0));
    lemma_pieces_text(s, 0);
    assert(s.subrange(0, s.len() as int) =~= s);
}


/// The indices carried by the string tokens among `toks`, in order.
pub open spec fn string_indices(toks: Seq<SpecIntermediateToken>) -> Seq<int>
    decreases toks.len(),
{
    if toks.len() == 0 {
        Seq::empty()
    } else {
        string_indices(toks.drop_last()) + match toks.last() {
            SpecIntermediateToken::Token(SpecToken::StringIndex(i)) => seq![i as int],
            _ => Seq::empty(),
        }
    }
}

/// The numbers `0, 1, ..., n - 1`.
pub open spec fn first_numbers(n: nat) -> Seq<int> {
    Seq::new(n, |m: int| m)
}

proof fn lemma_add_segments_indices(toks: Seq<SpecIntermediateToken>, store: Seq<Seq<char>>, segs: Seq<Seq<char>>, k: int)
    requires
        string_indices(toks) == first_numbers(store.len()),
        add_segments(toks, store, segs, k).1.len() <= usize::MAX,
    ensures
        string_indices(add_segments(toks, store, segs, k).0) == first_numbers(add_segments(toks, store, segs, k).1.len()),
    decreases segs.len() - k,
{
    if k < 0 || k >= segs.len() {
    } else if k % 2 == 0 {
        let t2 = toks.push(SpecIntermediateToken::String(segs[k]));
        assert(t2.drop_last() =~= toks);
        assert(string_indices(t2) =~= string_indices(toks));
        lemma_add_segments_indices(t2, store, segs, k + 1);
    } else {
        let x = SpecIntermediateToken::Token(SpecToken::StringIndex(store.len() as usize));
        let t2 = toks.push(x);
        let s2 = store.push(segs[k]);
        lemma_add_segments_prefix(t2, s2, segs, k + 1);
        assert(store.len() < usize::MAX);
        assert(t2.drop_last() =~= toks);
        assert(t2.last() == x);
        assert(string_indices(t2) =~= first_numbers(s2.len()));
        lemma_add_segments_indices(t2, s2, segs, k + 1);
    }
}

proof fn lemma_interning_indices(items: Seq<SpecIntermediateToken>)
    requires
        interning_spec(items).1.len() <= usize::MAX,
    ensures
        string_indices(interning_spec(items).0) == first_numbers(interning_spec(items).1.len()),
    decreases items.len(),
{
    if items.len() == 0 {
        assert(first_numbers(0) =~= Seq::<int>::empty());
    } else {
        let (toks, store) = interning_spec(items.drop_last());
        match items.last() {
            SpecIntermediateToken::String(s) => {
                lemma_add_segments_prefix(toks, store, quote_segments(s, 0), 0);
                lemma_interning_indices(items.drop_last());
                lemma_add_segments_indices(toks, store, quote_segments(s, 0), 0);
            },
            SpecIntermediateToken::Token(_) => {
                lemma_interning_indices(items.drop_last());
            },
        }
    }
}

/// Cutting out string literals numbers them in order: the string tokens it
/// gives carry the indices 0, 1, ... up to the new store's last entry, in
/// this order (the store, held in memory, has at most `usize::MAX` entries).
pub proof fn interning_numbers_in_order(items: Seq<SpecIntermediateToken>)
    requires
        interning_spec(items).1.len() <= usize::MAX,
    ensures
        string_indices(interning_spec(items).0) == first_numbers(interning_spec(items).1.len()),
{
    lemma_interning_indices(items);
}

/// The text that a piece stands for, string tokens read from `store`.
pub open spec fn piece_value(p: SpecIntermediateToken, store: Seq<Seq<char>>) -> Seq<char> {
    match p {
        SpecIntermediateToken::String(x) => x,
        SpecIntermediateToken::Token(SpecToken::StringIndex(i)) => store[i as int],
        SpecIntermediateToken::Token(_) => Seq::empty(),
    }
}

/// The parts joined with a double quote between each two.
pub open spec fn join_quoted(parts: Seq<Seq<char>>) -> Seq<char>
    decreases parts.len(),
{
    if parts.len() == 0 {
        Seq::empty()
    } else if parts.len() == 1 {
        parts[0]
    } else {
        parts[0] + seq!['"'] + join_quoted(parts.drop_first())
    }
}

proof fn lemma_quote_at(s: Seq<char>, i: int)
    requires
        0 <= i <= s.len(),
    ensures
        i <= quote_at_or_after(s, i) <= s.len(),
        quote_at_or_after(s, i) < s.len() ==> s[quote_at_or_after(s, i)] == '"',
    decreases s.len() - i,
{
    if i < s.len() && s[i] != '"' {
        lemma_quote_at(s, i + 1);
    }
}

proof fn lemma_quote_segments(s: Seq<char>, i: int)
    requires
        0 <= i <= s.len(),
    ensures
        quote_segments(s, i).len() >= 1,
        join_quoted(quote_segments(s, i)) == s.subrange(i, s.len() as int),
    decreases s.len() - i,
{
    let n = s.len() as int;
    let k = quote_at_or_after(s, i);
    lemma_quote_at(s, i);
    if k < n {
        lemma_quote_segments(s, k + 1);
        let qs = quote_segments(s, i);
        let rest = quote_segments(s, k + 1);
        assert(qs == seq![s.subrange(i, k)] + rest);
        assert(qs.drop_first() =~= rest);
        assert(qs[0] == s.subrange(i, k));
        assert(s.subrange(i, k) + seq!['"'] + s.subrange(k + 1, n) =~= s.subrange(i, n));
    }
}

/// Whether the pieces `toks`, read with `store`, are the parts `segs` so far:
/// one piece per part, each text or a string token inside the store.
pub open spec fn pieces_read(toks: Seq<SpecIntermediateToken>, store: Seq<Seq<char>>, segs: Seq<Seq<char>>) -> bool {
    &&& toks.len() <= segs.len()
    &&& forall|j: int| 0 <= j < toks.len() ==> piece_value(#[trigger] toks[j], store) == segs[j]
    &&& forall|j: int| 0 <= j < toks.len() ==> match #[trigger] toks[j] {
        SpecIntermediateToken::String(_) => true,
        SpecIntermediateToken::Token(SpecToken::StringIndex(m)) => m < store.len(),
        SpecIntermediateToken::Token(_) => false,
    }
}

proof fn lemma_add_segments_read(toks: Seq<SpecIntermediateToken>, store: Seq<Seq<char>>, segs: Seq<Seq<char>>, k: int)
    requires
        0 <= k <= segs.len(),
        toks.len() == k,
        pieces_read(toks, store, segs),
        add_segments(toks, store, segs, k).1.len() <= usize::MAX,
    ensures
        add_segments(toks, store, segs, k).0.len() == segs.len(),
        pieces_read(add_segments(toks, store, segs, k).0, add_segments(toks, store, segs, k).1, segs),
    decreases segs.len() - k,
{
    if k == segs.len() {
    } else if k % 2 == 0 {
        let t2 = toks.push(SpecIntermediateToken::String(segs[k]));
        assert forall|j: int| 0 <= j < t2.len() implies piece_value(#[trigger] t2[j], store) == segs[j] by {
            if j < k {
                assert(t2[j] == toks[j]);
            }
        }
        assert forall|j: int| 0 <= j < t2.len() implies match #[trigger] t2[j] {
            SpecIntermediateToken::String(_) => true,
            SpecIntermediateToken::Token(SpecToken::StringIndex(m)) => m < store.len(),
            SpecIntermediateToken::Token(_) => false,
        } by {
            if j < k {
                assert(t2[j] == toks[j]);
            }
        }
        lemma_add_segments_read(t2, store, segs, k + 1);
    } else {
        let x = SpecIntermediateToken::Token(SpecToken::StringIndex(store.len() as usize));
        let t2 = toks.push(x);
        let s2 = store.push(segs[k]);
        lemma_add_segments_prefix(t2, s2, segs, k + 1);
        assert(store.len() < usize::MAX);
        assert forall|j: int| 0 <= j < t2.len() implies match #[trigger] t2[j] {
            SpecIntermediateToken::String(_) => true,
            SpecIntermediateToken::Token(SpecToken::StringIndex(m)) => m < s2.len(),
            SpecIntermediateToken::Token(_) => false,
        } by {
            if j < k {
                assert(t2[j] == toks[j]);
            }
        }
        assert forall|j: int| 0 <= j < t2.len() implies piece_value(#[trigger] t2[j], s2) == segs[j] by {
            if j < k {
                assert(t2[j] == toks[j]);
                assert(piece_value(toks[j], store) == segs[j]);
                match toks[j] {
                    SpecIntermediateToken::Token(SpecToken::StringIndex(m)) => {
                        assert(s2[m as int] == store[m as int]);
                    },
                    _ => {},
                }
            } else {
                assert(t2[j] == x);
                assert(s2[store.len() as int] == segs[k]);
            }
        }
        lemma_add_segments_read(t2, s2, segs, k + 1);
    }
}

/// Cutting the string literals out of one text loses nothing: reading each
/// string token back from the new store and joining the pieces with double
/// quotes gives the text again (the store, held in memory, has at most
/// `usize::MAX` entries).
pub proof fn interning_reads_back(s: Seq<char>)
    requires
        interning_spec(seq![SpecIntermediateToken::String(s)]).1.len() <= usize::MAX,
    ensures
        ({
            let (toks, store) = interning_spec(seq![SpecIntermediateToken::String(s)]);
            join_quoted(toks.map_values(|p: SpecIntermediateToken| piece_value(p, store))) == s
        }),
{
    let items = seq![SpecIntermediateToken::String(s)];
    let segs = quote_segments(s, 0);
    assert(items.drop_last() =~= Seq::<SpecIntermediateToken>::empty());
    assert(items.last() == SpecIntermediateToken::String(s));
    assert(interning_spec(Seq::<SpecIntermediateToken>::empty()) == (Seq::<SpecIntermediateToken>::empty(), Seq::<Seq<char>>::empty()));
    assert(interning_spec(items) == add_segments(Seq::empty(), Seq::empty(), segs, 0));
    let (toks, store) = interning_spec(items);
    lemma_add_segments_read(Seq::empty(), Seq::empty(), segs, 0);
    assert(toks.map_values(|p: SpecIntermediateToken| piece_value(p, store)) =~= segs);
    lemma_quote_segments(s, 0);
    assert(s.subrange(0, s.len() as int) =~= s);
}


/// A run of ASCII letters and digits is one piece: splitting a text made only
/// of ASCII letters and digits gives that text as a single word (the token
/// `fn` when the text is `fn`).
pub proof fn a_word_stays_whole(s: Seq<char>)
    requires
        s.len() > 0,
        forall|k: int| 0 <= k < s.len() ==> ('0' <= #[trigger] s[k] <= '9') || ('a' <= s[k] <= 'z') || ('A' <= s[k] <= 'Z'),
    ensures
        split_up_spec(seq![SpecIntermediateToken::String(s)]) == seq![
            if s == seq!['f', 'n'] { SpecIntermediateToken::Token(SpecToken::Fn) } else { SpecIntermediateToken::String(s) },
        ],
{
    let items = seq![SpecIntermediateToken::String(s)];
    assert(items.drop_last() =~= Seq::<SpecIntermediateToken>::empty());
    assert(items.last() == SpecIntermediateToken::String(s));
    assert(split_up_spec(Seq::<SpecIntermediateToken>::empty()) == Seq::<SpecIntermediateToken>::empty());
    assert(split_up_spec(items) == split_up_spec(items.drop_last()) + pieces_from(s, 0));
    lemma_alphanumeric_span(s, 0);
    assert(!whitespace(s[0]));
    assert(ascii_alphanumeric(s[0]));
    assert(pieces_from(s, s.len() as int) == Seq::<SpecIntermediateToken>::empty());
    assert(s.subrange(0, s.len() as int) =~= s);
    assert(pieces_from(s, 0) =~= seq![word_token(s)]);
    assert(s != seq!['('] && s != seq![')'] && s != seq!['{'] && s != seq!['}'] && s != seq![','] && s != seq![';']) by {
        assert(seq!['('][0] == '(' && seq![')'][0] == ')' && seq!['{'][0] == '{');
        assert(seq!['}'][0] == '}' && seq![','][0] == ',' && seq![';'][0] == ';');
    }
    assert(split_up_spec(items) =~= seq![word_token(s)]);
}

proof fn lemma_alphanumeric_span(s: Seq<char>, i: int)
    requires
        0 <= i <= s.len(),
        forall|k: int| 0 <= k < s.len() ==> ('0' <= #[trigger] s[k] <= '9') || ('a' <= s[k] <= 'z') || ('A' <= s[k] <= 'Z'),
    ensures
        alphanumeric_end(s, i) == s.len(),
    decreases s.len() - i,
{
    if i < s.len() {
        assert(ascii_alphanumeric(s[i]));
        lemma_alphanumeric_span(s, i + 1);
    }
}


/// Telling functions apart changes only names followed by `(`: tokens stay, a
/// name not followed by `(` stays text, a name followed by `(` becomes a
/// function definition when `fn` comes right before it and a call otherwise.
pub proof fn function_names_are_told_apart(items: Seq<SpecIntermediateToken>)
    ensures
        determination_spec(items).len() == items.len(),
        forall|i: int| 0 <= i < items.len() && items[i] is Token ==> #[trigger] determination_spec(items)[i] == items[i],
        forall|i: int| 0 <= i < items.len() && items[i] is String
            && !(i + 1 < items.len() && items[i + 1] == SpecIntermediateToken::Token(SpecToken::LParen))
            ==> #[trigger] determination_spec(items)[i] == items[i],
        forall|i: int| #![trigger determination_spec(items)[i]] 0 <= i < items.len()
            && i + 1 < items.len() && items[i + 1] == SpecIntermediateToken::Token(SpecToken::LParen)
            && i >= 1 && items[i - 1] == SpecIntermediateToken::Token(SpecToken::Fn)
            ==> (items[i] matches SpecIntermediateToken::String(n)
                ==> determination_spec(items)[i] == SpecIntermediateToken::Token(SpecToken::FnDefinition(n))),
        forall|i: int| #![trigger determination_spec(items)[i]] 0 <= i < items.len()
            && i + 1 < items.len() && items[i + 1] == SpecIntermediateToken::Token(SpecToken::LParen)
            && !(i >= 1 && items[i - 1] == SpecIntermediateToken::Token(SpecToken::Fn))
            ==> (items[i] matches SpecIntermediateToken::String(n)
                ==> determination_spec(items)[i] == SpecIntermediateToken::Token(SpecToken::FnCall(n))),
{
}


/// Splitting works item by item: splitting two lists one after the other is
/// splitting each of them, the pieces of the first coming first.
pub proof fn split_up_goes_item_by_item(a: Seq<SpecIntermediateToken>, b: Seq<SpecIntermediateToken>)
    ensures
        split_up_spec(a + b) == split_up_spec(a) + split_up_spec(b),
    decreases b.len(),
{
    if b.len() == 0 {
        assert(a + b =~= a);
        assert(split_up_spec(b) == Seq::<SpecIntermediateToken>::empty());
        assert(split_up_spec(a) + Seq::<SpecIntermediateToken>::empty() =~= split_up_spec(a));
    } else {
        split_up_goes_item_by_item(a, b.drop_last());
        assert((a + b).drop_last() =~= a + b.drop_last());
        assert((a + b).last() == b.last());
        let tail = match b.last() {
            SpecIntermediateToken::String(x) => pieces_from(x, 0),
            SpecIntermediateToken::Token(t) => seq![SpecIntermediateToken::Token(t)],
        };
        assert(split_up_spec(a) + split_up_spec(b.drop_last()) + tail =~= split_up_spec(a) + (split_up_spec(b.drop_last()) + tail));
    }
}

/// Splitting keeps a token as it is.
pub proof fn split_up_keeps_tokens(t: SpecToken)
    ensures
        split_up_spec(seq![SpecIntermediateToken::Token(t)]) == seq![SpecIntermediateToken::Token(t)],
{
    let items = seq![SpecIntermediateToken::Token(t)];
    assert(items.drop_last() =~= Seq::<SpecIntermediateToken>::empty());
    assert(split_up_spec(Seq::<SpecIntermediateToken>::empty()) == Seq::<SpecIntermediateToken>::empty());
    assert(Seq::<SpecIntermediateToken>::empty() + items =~= items);
}

/// Cutting out string literals drops tokens: a token after the items changes
/// neither the pieces nor the store.
pub proof fn interning_drops_tokens(items: Seq<SpecIntermediateToken>, t: SpecToken)
    ensures
        interning_spec(items.push(SpecIntermediateToken::Token(t))) == interning_spec(items),
{
    assert(items.push(SpecIntermediateToken::Token(t)).drop_last() =~= items);
}

} // verus!

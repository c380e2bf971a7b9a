//! The lexer: source text to a token sequence.
use vstd::prelude::*;
use crate::token::{Token, TokenKind, TokenView, tokens_wf, token_fields_wf};

verus! {

/// Why the source text could not be split into tokens.
#[derive(PartialEq, Eq, Structural, Clone, Copy, Debug)]
pub enum LexErrorKind {
    /// A character that starts no token.
    InvalidToken,
    /// A numeric literal above `i32::MAX`.
    NumberOutOfRange,
}

/// A lexical error at a character offset of the source.
#[derive(PartialEq, Eq, Structural, Clone, Copy, Debug)]
pub struct LexError {
    pub location: usize,
    pub kind: LexErrorKind,
}

/// Unicode white space, as `char::is_whitespace` classifies it.
pub open spec fn spec_is_whitespace(c: char) -> bool {
    let u = c as u32;
    (0x09 <= u <= 0x0d) || u == 0x20 || u == 0x85 || u == 0xa0 || u == 0x1680
        || (0x2000 <= u <= 0x200a) || u == 0x2028 || u == 0x2029 || u == 0x202f
        || u == 0x205f || u == 0x3000
}

pub open spec fn spec_is_digit(c: char) -> bool {
    0x30 <= (c as u32) <= 0x39
}

/// The one-character punctuators of the language: `+ - * / ( ) < > ; = { }`.
pub open spec fn spec_is_punct(c: char) -> bool {
    c == '+' || c == '-' || c == '*' || c == '/' || c == '(' || c == ')' || c == '<' || c == '>'
        || c == ';' || c == '=' || c == '{' || c == '}'
}

pub open spec fn spec_is_ident1(c: char) -> bool {
    let u = c as u32;
    (0x61 <= u <= 0x7a) || (0x41 <= u <= 0x5a) || u == 0x5f
}

pub open spec fn spec_is_ident2(c: char) -> bool {
    spec_is_ident1(c) || spec_is_digit(c)
}

/// The end of the run of digits that starts at `i`.
pub open spec fn digit_end(s: Seq<char>, i: int) -> int
    decreases s.len() - i,
{
    if 0 <= i < s.len() && spec_is_digit(s[i]) {
        digit_end(s, i + 1)
    } else {
        i
    }
}

/// The end of the run of identifier characters that starts at `i`.
pub open spec fn ident_end(s: Seq<char>, i: int) -> int
    decreases s.len() - i,
{
    if 0 <= i < s.len() && spec_is_ident2(s[i]) {
        ident_end(s, i + 1)
    } else {
        i
    }
}

/// The value of a string of decimal digits.
pub open spec fn digits_value(d: Seq<char>) -> int
    decreases d.len(),
{
    if d.len() == 0 {
        0
    } else {
        digits_value(d.drop_last()) * 10 + (d.last() as u32 - 0x30)
    }
}

/// The length of the punctuator at `i`: two for `==`, `!=`, `<=`, `>=`,
/// one for a one-character punctuator, zero where there is none.
pub open spec fn punct_len(s: Seq<char>, i: int) -> int {
    if 0 <= i && i + 1 < s.len() && s[i + 1] == '=' && (s[i] == '=' || s[i] == '!' || s[i] == '<'
        || s[i] == '>') {
        2
    } else if 0 <= i < s.len() && spec_is_punct(s[i]) {
        1
    } else {
        0
    }
}

pub open spec fn is_keyword_text(t: Seq<char>) -> bool {
    t == "return"@ || t == "if"@ || t == "else"@ || t == "for"@ || t == "while"@
}

pub open spec fn text_token(kind: TokenKind, text: Seq<char>, location: int) -> TokenView {
    TokenView { kind, num: None, text: Some(text), location: location as usize }
}

pub open spec fn num_token(v: int, location: int) -> TokenView {
    TokenView { kind: TokenKind::Num, num: Some(v as i32), text: None, location: location as usize }
}

pub open spec fn eof_token(location: int) -> TokenView {
    TokenView { kind: TokenKind::Eof, num: None, text: None, location: location as usize }
}

pub open spec fn prepend(p: Seq<TokenView>, r: Result<Seq<TokenView>, LexError>) -> Result<
    Seq<TokenView>,
    LexError,
> {
    match r {
        Ok(t) => Ok(p + t),
        Err(e) => Err(e),
    }
}

/// The scan from offset `i` on, before keywords are told apart from identifiers.
pub open spec fn scan_from(s: Seq<char>, i: int) -> Result<Seq<TokenView>, LexError>
    decreases s.len() - i via scan_from_decreases
{
    if i < 0 || i >= s.len() {
        Ok(seq![eof_token(s.len() as int)])
    } else if spec_is_whitespace(s[i]) {
        scan_from(s, i + 1)
    } else if spec_is_digit(s[i]) {
        let e = digit_end(s, i);
        let v = digits_value(s.subrange(i, e));
        if v > i32::MAX {
            Err(LexError { location: i as usize, kind: LexErrorKind::NumberOutOfRange })
        } else {
            prepend(seq![num_token(v, i)], scan_from(s, e))
        }
    } else if spec_is_ident1(s[i]) {
        let e = ident_end(s, i + 1);
        prepend(seq![text_token(TokenKind::Ident, s.subrange(i, e), i)], scan_from(s, e))
    } else if punct_len(s, i) > 0 {
        let e = i + punct_len(s, i);
        prepend(seq![text_token(TokenKind::Punct, s.subrange(i, e), i)], scan_from(s, e))
    } else {
        Err(LexError { location: i as usize, kind: LexErrorKind::InvalidToken })
    }
}

#[via_fn]
proof fn scan_from_decreases(s: Seq<char>, i: int) {
    if 0 <= i < s.len() {
        lemma_digit_end(s, i);
        lemma_ident_end(s, i + 1);
    }
}

pub proof fn lemma_digit_end(s: Seq<char>, i: int)
    requires
        0 <= i <= s.len(),
    ensures
        i <= digit_end(s, i) <= s.len(),
        i < s.len() && spec_is_digit(s[i]) ==> digit_end(s, i) > i,
        forall|k: int| i <= k < digit_end(s, i) ==> spec_is_digit(#[trigger] s[k]),
        digit_end(s, i) < s.len() ==> !spec_is_digit(s[digit_end(s, i)]),
    decreases s.len() - i,
{
    if i < s.len() && spec_is_digit(s[i]) {
        lemma_digit_end(s, i + 1);
    }
}

pub proof fn lemma_ident_end(s: Seq<char>, i: int)
    requires
        0 <= i <= s.len(),
    ensures
        i <= ident_end(s, i) <= s.len(),
        forall|k: int| i <= k < ident_end(s, i) ==> spec_is_ident2(#[trigger] s[k]),
        ident_end(s, i) < s.len() ==> !spec_is_ident2(s[ident_end(s, i)]),
    decreases s.len() - i,
{
    if i < s.len() && spec_is_ident2(s[i]) {
        lemma_ident_end(s, i + 1);
    }
}

/// An identifier whose text is a reserved word becomes a keyword.
pub open spec fn promote(t: TokenView) -> TokenView {
    if t.kind == TokenKind::Ident && t.text.is_some() && is_keyword_text(t.text.unwrap()) {
        TokenView { kind: TokenKind::Keyword, ..t }
    } else {
        t
    }
}

/// The token sequence of a source text, or the first lexical error in it.
pub open spec fn lex(s: Seq<char>) -> Result<Seq<TokenView>, LexError> {
    match scan_from(s, 0) {
        Ok(t) => Ok(t.map_values(|v: TokenView| promote(v))),
        Err(e) => Err(e),
    }
}

/// The lexer's output is well formed and holds at most one token per character, plus the sentinel.
pub proof fn lemma_scan_wf(s: Seq<char>, i: int)
    requires
        0 <= i <= s.len(),
    ensures
        scan_from(s, i) matches Ok(ts) ==> tokens_wf(ts) && ts.len() <= s.len() - i + 1,
    decreases s.len() - i,
{
    if i < s.len() {
        lemma_digit_end(s, i);
        lemma_ident_end(s, i + 1);
        if spec_is_whitespace(s[i]) {
            lemma_scan_wf(s, i + 1);
        } else if spec_is_digit(s[i]) {
            let e = digit_end(s, i);
            lemma_scan_wf(s, e);
            lemma_cons_wf(num_token(digits_value(s.subrange(i, e)), i), scan_from(s, e));
        } else if spec_is_ident1(s[i]) {
            let e = ident_end(s, i + 1);
            lemma_scan_wf(s, e);
            lemma_cons_wf(text_token(TokenKind::Ident, s.subrange(i, e), i), scan_from(s, e));
        } else if punct_len(s, i) > 0 {
            let e = i + punct_len(s, i);
            lemma_scan_wf(s, e);
            lemma_cons_wf(text_token(TokenKind::Punct, s.subrange(i, e), i), scan_from(s, e));
        }
    } else {
        let ts = seq![eof_token(s.len() as int)];
        assert(ts.last().kind == TokenKind::Eof);
    }
}

proof fn lemma_cons_wf(t: TokenView, r: Result<Seq<TokenView>, LexError>)
    requires
        t.kind != TokenKind::Eof,
        token_fields_wf(t),
        r matches Ok(ts) ==> tokens_wf(ts),
    ensures
        prepend(seq![t], r) matches Ok(ts) ==> tokens_wf(ts),
{
    match r {
        Ok(ts) => {
            let n = seq![t] + ts;
            assert forall|i: int| 0 <= i < n.len() - 1 implies (#[trigger] n[i]).kind != TokenKind::Eof by {
                if i > 0 {
                    assert(n[i] == ts[i - 1]);
                }
            }
            assert forall|i: int| 0 <= i < n.len() implies token_fields_wf(#[trigger] n[i]) by {
                if i > 0 {
                    assert(n[i] == ts[i - 1]);
                }
            }
        },
        Err(_) => {},
    }
}

/// The token sequence of a text is well formed and holds at most one token per
/// character, plus the sentinel.
pub proof fn lemma_lex_wf(s: Seq<char>)
    ensures
        lex(s) matches Ok(ts) ==> tokens_wf(ts) && ts.len() <= s.len() + 1,
{
    lemma_scan_wf(s, 0);
    match scan_from(s, 0) {
        Ok(ts) => {
            let p = ts.map_values(|v: TokenView| promote(v));
            assert forall|i: int| 0 <= i < p.len() - 1 implies (#[trigger] p[i]).kind != TokenKind::Eof by {
                assert(ts[i].kind != TokenKind::Eof);
            }
            assert forall|i: int| 0 <= i < p.len() implies token_fields_wf(#[trigger] p[i]) by {
                assert(token_fields_wf(ts[i]));
            }
            assert(p.last() == promote(ts.last()));
        },
        Err(_) => {},
    }
}

/// Lexing depends on the text alone: two tokenizations of one text yield the
/// same kinds, values, texts and offsets.
pub proof fn lemma_relex_identical(s: Seq<char>, t: Seq<char>, a: Seq<TokenView>, b: Seq<TokenView>)
    requires
        s == t,
        lex(s) == Ok::<Seq<TokenView>, LexError>(a),
        lex(t) == Ok::<Seq<TokenView>, LexError>(b),
    ensures
        a == b,
{
}

pub open spec fn heads(v: Seq<Token>) -> Seq<TokenView> {
    v.map_values(|t: Token| t.head())
}

fn is_whitespace(c: char) -> (r: bool)
    ensures
        r == spec_is_whitespace(c),
{
    let u = c as u32;
    (0x09 <= u && u <= 0x0d) || u == 0x20 || u == 0x85 || u == 0xa0 || u == 0x1680 || (0x2000
        <= u && u <= 0x200a) || u == 0x2028 || u == 0x2029 || u == 0x202f || u == 0x205f || u
        == 0x3000
}

fn is_digit(c: char) -> (r: bool)
    ensures
        r == spec_is_digit(c),
{
    0x30 <= c as u32 && c as u32 <= 0x39
}

fn is_punct(c: char) -> (r: bool)
    ensures
        r == spec_is_punct(c),
{
    c == '+' || c == '-' || c == '*' || c == '/' || c == '(' || c == ')' || c == '<' || c == '>'
        || c == ';' || c == '=' || c == '{' || c == '}'
}

/// Returns true if `c` may start an identifier.
pub fn is_ident1(c: char) -> (r: bool)
    ensures
        r == spec_is_ident1(c),
{
    let u = c as u32;
    (0x61 <= u && u <= 0x7a) || (0x41 <= u && u <= 0x5a) || u == 0x5f
}

/// Returns true if `c` may continue an identifier.
pub fn is_ident2(c: char) -> (r: bool)
    ensures
        r == spec_is_ident2(c),
{
    is_ident1(c) || is_digit(c)
}

/// Returns true if `s` is a reserved word.
pub fn is_keyword(s: &String) -> (r: bool)
    ensures
        r == is_keyword_text(s@),
{
    *s == "return".to_owned() || *s == "if".to_owned() || *s == "else".to_owned() || *s
        == "for".to_owned() || *s == "while".to_owned()
}

proof fn lemma_digits_step(s: Seq<char>, a: int, k: int)
    requires
        0 <= a <= k < s.len(),
    ensures
        digits_value(s.subrange(a, k + 1)) == digits_value(s.subrange(a, k)) * 10 + (s[k] as u32
            - 0x30),
{
    assert(s.subrange(a, k + 1).drop_last() =~= s.subrange(a, k));
}

proof fn lemma_digits_monotone(s: Seq<char>, a: int, k: int, e: int)
    requires
        0 <= a <= k <= e <= s.len(),
        forall|j: int| a <= j < e ==> spec_is_digit(#[trigger] s[j]),
    ensures
        digits_value(s.subrange(a, e)) >= digits_value(s.subrange(a, k)),
        digits_value(s.subrange(a, k)) >= 0,
    decreases e - k,
{
    assert forall|j: int| 0 <= j < k - a implies spec_is_digit(#[trigger] s.subrange(a, k)[j]) by {
        assert(spec_is_digit(s[a + j]));
    }
    lemma_digits_nonneg(s.subrange(a, k));
    if k < e {
        lemma_digits_monotone(s, a, k + 1, e);
        lemma_digits_step(s, a, k);
        assert(spec_is_digit(s[k]));
    }
}

proof fn lemma_digits_nonneg(d: Seq<char>)
    requires
        forall|j: int| 0 <= j < d.len() ==> spec_is_digit(#[trigger] d[j]),
    ensures
        digits_value(d) >= 0,
    decreases d.len(),
{
    if d.len() > 0 {
        assert(spec_is_digit(d[d.len() - 1]));
        lemma_digits_nonneg(d.drop_last());
    }
}

/// Reads the run of decimal digits of `s` that starts at character `start`:
/// its value and its length, or `None` where the value exceeds `i32::MAX`.
/// A run of no digits reads as zero.
pub fn parse_number(s: &str, start: usize) -> (r: Option<(i32, usize)>)
    requires
        start <= s@.len(),
    ensures
        ({
            let e = digit_end(s@, start as int);
            let v = digits_value(s@.subrange(start as int, e));
            &&& v <= i32::MAX ==> r == Some((v as i32, (e - start) as usize))
            &&& v > i32::MAX ==> r.is_none()
        }),
{
    let n = s.unicode_len();
    let mut i: usize = start;
    let mut v: i32 = 0;
    proof {
        lemma_digit_end(s@, start as int);
        assert(s@.subrange(start as int, start as int).len() == 0);
    }
    while i < n && is_digit(s.get_char(i))
        invariant
            start <= i <= n,
            n == s@.len(),
            forall|j: int| start <= j < i ==> spec_is_digit(#[trigger] s@[j]),
            v == digits_value(s@.subrange(start as int, i as int)),
            digit_end(s@, start as int) == digit_end(s@, i as int),
            0 <= v,
        decreases n - i,
    {
        let d = (s.get_char(i) as u32 - 0x30) as i32;
        proof {
            lemma_digits_step(s@, start as int, i as int);
        }
        if v > (i32::MAX - d) / 10 {
            proof {
                let e = digit_end(s@, start as int);
                assert(v * 10 + d > i32::MAX) by (nonlinear_arith)
                    requires
                        v > (i32::MAX - d) / 10,
                        0 <= d <= 9,
                ;
                lemma_digit_end(s@, i as int);
                lemma_digits_monotone(s@, start as int, i as int + 1, e);
            }
            return None;
        }
        assert(v * 10 + d <= i32::MAX) by (nonlinear_arith)
            requires
                v <= (i32::MAX - d) / 10,
                0 <= d <= 9,
                0 <= v,
        ;
        v = v * 10 + d;
        i = i + 1;
    }
    Some((v, i - start))
}

/// The length of the punctuator at character `pos` of `s`, zero where there is none.
fn read_punct(s: &str, pos: usize, n: usize) -> (r: usize)
    requires
        pos < n,
        n == s@.len(),
    ensures
        r == punct_len(s@, pos as int),
{
    let c = s.get_char(pos);
    if pos + 1 < n {
        let d = s.get_char(pos + 1);
        if d == '=' && (c == '=' || c == '!' || c == '<' || c == '>') {
            return 2;
        }
    }
    if is_punct(c) {
        1
    } else {
        0
    }
}

/// Reclassifies an identifier whose text is a reserved word as a keyword.
pub fn convert_keyword(t: Token) -> (r: Token)
    ensures
        r.head() == promote(t.head()),
        r.next == t.next,
{
    let mut t = t;
    if t.kind == TokenKind::Ident {
        let kw = match &t.string {
            Some(s) => is_keyword(s),
            None => false,
        };
        if kw {
            t.kind = TokenKind::Keyword;
        }
    }
    t
}

proof fn lemma_prepend_assoc(h: Seq<TokenView>, p: Seq<TokenView>, r: Result<Seq<TokenView>, LexError>)
    ensures
        prepend(h, prepend(p, r)) == prepend(h + p, r),
{
    match r {
        Ok(t) => {
            assert(h + (p + t) =~= (h + p) + t);
        },
        Err(_) => {},
    }
}

/// Splits `input` into tokens, ending with one end-of-file sentinel.
pub fn tokenize(input: &str) -> (r: Result<Box<Token>, LexError>)
    ensures
        match r {
            Ok(t) => lex(input@) == Ok::<Seq<TokenView>, LexError>(t.seq()),
            Err(e) => lex(input@) == Err::<Seq<TokenView>, LexError>(e),
        },
{
    let n = input.unicode_len();
    let ghost s = input@;
    let mut toks: Vec<Token> = Vec::new();
    let mut pos: usize = 0;
    assert(heads(toks@) =~= Seq::<TokenView>::empty());
    assert(prepend(Seq::<TokenView>::empty(), scan_from(s, 0)) == scan_from(s, 0)) by {
        match scan_from(s, 0) {
            Ok(t) => { assert(Seq::<TokenView>::empty() + t =~= t); },
            Err(_) => {},
        }
    }
    while pos < n
        invariant
            n == s.len(),
            s == input@,
            pos <= n,
            scan_from(s, 0) == prepend(heads(toks@), scan_from(s, pos as int)),
        decreases n - pos,
    {
        let ghost before = heads(toks@);
        let c = input.get_char(pos);
        if is_whitespace(c) {
            pos = pos + 1;
            continue;
        }
        if is_digit(c) {
            proof {
                lemma_digit_end(s, pos as int);
            }
            match parse_number(input, pos) {
                None => {
                    return Err(LexError { location: pos, kind: LexErrorKind::NumberOutOfRange });
                },
                Some((v, len)) => {
                    let mut t = Token::new_token(TokenKind::Num, pos);
                    t.num = Some(v);
                    toks.push(*t);
                    proof {
                        lemma_prepend_assoc(before, seq![num_token(v as int, pos as int)], scan_from(s, pos + len));
                        assert(heads(toks@) =~= before + seq![num_token(v as int, pos as int)]);
                    }
                    pos = pos + len;
                    continue;
                },
            }
        }
        if is_ident1(c) {
            let mut e: usize = pos + 1;
            proof {
                lemma_ident_end(s, pos + 1);
            }
            while e < n && is_ident2(input.get_char(e))
                invariant
                    pos < e <= n,
                    n == s.len(),
                    s == input@,
                    ident_end(s, pos + 1) == ident_end(s, e as int),
                decreases n - e,
            {
                e = e + 1;
            }
            let text = input.substring_char(pos, e).to_owned();
            let mut t = Token::new_token(TokenKind::Ident, pos);
            t.string = Some(text);
            toks.push(*t);
            proof {
                let tv = text_token(TokenKind::Ident, s.subrange(pos as int, e as int), pos as int);
                lemma_prepend_assoc(before, seq![tv], scan_from(s, e as int));
                assert(heads(toks@) =~= before + seq![tv]);
            }
            pos = e;
            continue;
        }
        let len = read_punct(input, pos, n);
        if len > 0 {
            let text = input.substring_char(pos, pos + len).to_owned();
            let mut t = Token::new_token(TokenKind::Punct, pos);
            t.string = Some(text);
            toks.push(*t);
            proof {
                let tv = text_token(TokenKind::Punct, s.subrange(pos as int, pos + len), pos as int);
                lemma_prepend_assoc(before, seq![tv], scan_from(s, pos + len));
                assert(heads(toks@) =~= before + seq![tv]);
            }
            pos = pos + len;
            continue;
        }
        return Err(LexError { location: pos, kind: LexErrorKind::InvalidToken });
    }
    let ghost before = heads(toks@);
    let eof = Token::new_token(TokenKind::Eof, n);
    toks.push(*eof);
    assert(heads(toks@) =~= before + seq![eof_token(n as int)]);
    let ghost all = heads(toks@).map_values(|v: TokenView| promote(v));
    assert(lex(s) == Ok::<Seq<TokenView>, LexError>(all));
    let ghost total = toks.len();
    let ghost orig = toks@;
    let mut last = toks.pop().unwrap();
    last.next = None;
    let mut acc = Box::new(last);
    proof {
        assert(acc.seq() =~= all.subrange(total - 1, total as int));
    }
    while toks.len() > 0
        invariant
            toks@ == orig.subrange(0, toks.len() as int),
            toks.len() < total,
            total == orig.len(),
            all == heads(orig).map_values(|v: TokenView| promote(v)),
            acc.seq() == all.subrange(toks.len() as int, total as int),
        decreases toks.len(),
    {
        let ghost k = toks.len() - 1;
        let t = toks.pop().unwrap();
        let mut t = convert_keyword(t);
        t.next = Some(acc);
        acc = Box::new(t);
        proof {
            assert(t.head() == all[k]);
            assert(acc.seq() =~= all.subrange(k, total as int));
        }
    }
    assert(all.subrange(0, total as int) =~= all);
    Ok(acc)
}

} // verus!

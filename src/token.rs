//! Tokens: a singly linked, forward-only sequence ending in one end-of-file sentinel.
use vstd::prelude::*;
use crate::parse::{ParseError, ParseErrorKind};

verus! {

/// The class of a token.
#[derive(PartialEq, Eq, Structural, Clone, Copy, Debug)]
pub enum TokenKind {
    /// Identifiers such as `foo`.
    Ident,
    /// Reserved words: `return`, `if`, `else`, `for`, `while`.
    Keyword,
    /// Punctuators such as `+` or `<=`.
    Punct,
    /// Numeric literals.
    Num,
    /// The end-of-file sentinel.
    Eof,
}

/// What the parser reads of one token.
pub ghost struct TokenView {
    pub kind: TokenKind,
    pub num: Option<i32>,
    pub text: Option<Seq<char>>,
    pub location: usize,
}

/// A token whose text is `p`, whatever its kind; a number or the sentinel has no text.
pub open spec fn is_text(t: TokenView, p: Seq<char>) -> bool {
    t.text == Some(p)
}

/// What the lexer guarantees of a token sequence: one end-of-file sentinel, last;
/// a value on each number, a text on each identifier, keyword and punctuator.
pub open spec fn tokens_wf(ts: Seq<TokenView>) -> bool {
    &&& ts.len() >= 1
    &&& ts.last().kind == TokenKind::Eof
    &&& forall|i: int| 0 <= i < ts.len() - 1 ==> (#[trigger] ts[i]).kind != TokenKind::Eof
    &&& forall|i: int| 0 <= i < ts.len() ==> token_fields_wf(#[trigger] ts[i])
}

pub open spec fn token_fields_wf(t: TokenView) -> bool {
    match t.kind {
        TokenKind::Num => t.num.is_some() && t.text.is_none(),
        TokenKind::Eof => t.num.is_none() && t.text.is_none(),
        _ => t.num.is_none() && t.text.is_some(),
    }
}

pub proof fn lemma_tokens_wf_drop(ts: Seq<TokenView>)
    requires
        tokens_wf(ts),
        ts[0].kind != TokenKind::Eof,
    ensures
        ts.len() >= 2,
        tokens_wf(ts.drop_first()),
{
    assert(ts.len() >= 2);
    let d = ts.drop_first();
    assert forall|i: int| 0 <= i < d.len() - 1 implies (#[trigger] d[i]).kind != TokenKind::Eof by {
        assert(d[i] == ts[i + 1]);
    }
    assert forall|i: int| 0 <= i < d.len() implies token_fields_wf(#[trigger] d[i]) by {
        assert(d[i] == ts[i + 1]);
    }
}

/// One token, linked to the rest of the sequence.
pub struct Token {
    pub kind: TokenKind,
    /// The value of a `Num` token.
    pub num: Option<i32>,
    /// The text of an `Ident`, `Keyword` or `Punct` token.
    pub string: Option<String>,
    /// The next token, absent only after the end-of-file sentinel.
    pub next: Option<Box<Token>>,
    /// Character offset of the token in the source text.
    pub location: usize,
}

impl Token {
    /// This token alone.
    pub open spec fn head(&self) -> TokenView {
        TokenView {
            kind: self.kind,
            num: self.num,
            text: match self.string {
                Some(s) => Some(s@),
                None => None,
            },
            location: self.location,
        }
    }

    /// This token followed by the rest of the sequence.
    pub open spec fn seq(&self) -> Seq<TokenView>
        decreases self,
    {
        match self.next {
            Some(n) => seq![self.head()] + n.seq(),
            None => seq![self.head()],
        }
    }

    pub fn new_token(kind: TokenKind, location: usize) -> (r: Box<Token>)
        ensures
            r.kind == kind,
            r.location == location,
            r.num.is_none(),
            r.string.is_none(),
            r.next.is_none(),
    {
        Box::new(Token { kind, num: None, string: None, next: None, location })
    }

    /// A token that is not yet linked to a successor.
    pub fn new(kind: TokenKind, location: usize) -> (r: Token)
        ensures
            r.kind == kind,
            r.location == location,
            r.num.is_none(),
            r.string.is_none(),
            r.next.is_none(),
    {
        Token { kind, num: None, string: None, next: None, location }
    }

    /// The token after this one, to change in place.
    pub fn next_mut(&mut self) -> (r: &mut Box<Token>)
        requires
            old(self).next.is_some(),
        ensures
            *r == old(self).next.unwrap(),
            *final(self) == (Token { next: Some(*final(r)), ..*old(self) }),
    {
        match &mut self.next {
            Some(t) => t,
            None => unreached(),
        }
    }

    /// Takes the token after this one.
    pub fn next(self) -> (r: Box<Token>)
        requires
            self.next.is_some(),
        ensures
            r.seq() == self.seq().drop_first(),
    {
        proof {
            lemma_seq_first(&self);
        }
        match self.next {
            Some(n) => n,
            None => unreached(),
        }
    }

    /// Links `token` after this one, which must have no successor yet.
    pub fn push(&mut self, token: Box<Token>)
        requires
            old(self).next.is_none(),
        ensures
            final(self).head() == old(self).head(),
            final(self).seq() == seq![old(self).head()] + token.seq(),
    {
        self.next = Some(token);
    }

    /// The value of a number token.
    pub fn get_number(&self) -> (r: i32)
        requires
            self.kind == TokenKind::Num,
            self.num.is_some(),
        ensures
            r == self.num.unwrap(),
    {
        match self.num {
            Some(v) => v,
            None => unreached(),
        }
    }

    /// Whether this token is the punctuator or keyword `s`.
    pub fn eq_punct(&self, s: &str) -> (r: bool)
        ensures
            r == is_text(self.head(), s@),
    {
        match &self.string {
            Some(t) => *t == s.to_owned(),
            None => false,
        }
    }

    /// Consumes this token, which must be the punctuator `c`.
    pub fn skip(self, c: char) -> (r: Result<Box<Token>, ParseError>)
        requires
            tokens_wf(self.seq()),
        ensures
            is_text(self.head(), seq![c]) ==> (r matches Ok(t) && t.seq() == self.seq().drop_first()),
            !is_text(self.head(), seq![c]) ==> r == Err::<Box<Token>, ParseError>(
                ParseError { location: self.location, kind: ParseErrorKind::Expected(c) },
            ),
    {
        let ok = match &self.string {
            Some(t) => {
                let t = t.as_str();
                if t.unicode_len() == 1 {
                    let d = t.get_char(0);
                    proof {
                        if d == c {
                            assert(t@ =~= seq![c]);
                        }
                    }
                    d == c
                } else {
                    false
                }
            },
            None => false,
        };
        if ok {
            proof {
                lemma_seq_first(&self);
                lemma_tokens_wf_drop(self.seq());
            }
            Ok(self.next())
        } else {
            Err(ParseError { location: self.location, kind: ParseErrorKind::Expected(c) })
        }
    }
}

pub proof fn lemma_seq_first(t: &Token)
    ensures
        t.seq().len() >= 1,
        t.seq()[0] == t.head(),
        t.next.is_some() ==> t.seq().drop_first() == t.next.unwrap().seq(),
        t.next.is_none() ==> t.seq().len() == 1,
{
    match t.next {
        Some(n) => {
            assert(t.seq().drop_first() =~= n.seq());
        },
        None => {},
    }
}

} // verus!

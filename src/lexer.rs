//! Splitting the text of a specification into tokens.
use vstd::prelude::*;

verus! {

/// The kinds of token of the rule language.
#[derive(Clone, Copy, PartialEq, Eq, Structural, Debug)]
pub enum TokenKind {
    /// A decimal integer literal.
    Int,
    /// An identifier other than `_`.
    Ident,
    /// A string literal between double quotes, without escapes.
    Str,
    /// `_`
    Underscore,
    /// `#`
    Pound,
    /// `[`
    LBracket,
    /// `]`
    RBracket,
    /// `(`
    LParen,
    /// `)`
    RParen,
    /// `->`
    Arrow,
    /// `:`
    Colon,
    /// `;`
    Semi,
    /// `,`
    Comma,
    /// `&&`
    AndAnd,
    /// `||`
    OrOr,
}

/// A token: its kind and the byte range `start..end` of its text (quotes included).
#[derive(Clone, Copy, PartialEq, Eq, Debug)]
pub struct Token {
    pub kind: TokenKind,
    pub start: usize,
    pub end: usize,
}

/// Space, tab, line feed or carriage return.
pub open spec fn is_space(b: u8) -> bool {
    b == 32 || b == 9 || b == 10 || b == 13
}

/// A decimal digit.
pub open spec fn is_digit(b: u8) -> bool {
    48 <= b <= 57
}

/// A byte that may start an identifier: a letter or `_`.
pub open spec fn is_alpha(b: u8) -> bool {
    (65 <= b <= 90) || (97 <= b <= 122) || b == 95
}

/// A byte that may continue an identifier.
pub open spec fn is_ident_char(b: u8) -> bool {
    is_alpha(b) || is_digit(b)
}

/// The end of the run of digits that starts at `i`.
pub open spec fn digits_end(t: Seq<u8>, i: nat) -> nat
    decreases t.len() - i,
{
    if i < t.len() && is_digit(t[i as int]) {
        digits_end(t, i + 1)
    } else {
        i
    }
}

/// The end of the run of identifier bytes that starts at `i`.
pub open spec fn ident_end(t: Seq<u8>, i: nat) -> nat
    decreases t.len() - i,
{
    if i < t.len() && is_ident_char(t[i as int]) {
        ident_end(t, i + 1)
    } else {
        i
    }
}

/// The position of the first `"` at or after `i`.
pub open spec fn quote_at_or_after(t: Seq<u8>, i: nat) -> Option<nat>
    decreases t.len() - i,
{
    if i >= t.len() {
        None
    } else if t[i as int] == 34 {
        Some(i)
    } else {
        quote_at_or_after(t, i + 1)
    }
}

/// The kind of a one-byte punctuation token.
pub open spec fn punct_kind(b: u8) -> Option<TokenKind> {
    if b == 35 {
        Some(TokenKind::Pound)
    } else if b == 91 {
        Some(TokenKind::LBracket)
    } else if b == 93 {
        Some(TokenKind::RBracket)
    } else if b == 40 {
        Some(TokenKind::LParen)
    } else if b == 41 {
        Some(TokenKind::RParen)
    } else if b == 58 {
        Some(TokenKind::Colon)
    } else if b == 59 {
        Some(TokenKind::Semi)
    } else if b == 44 {
        Some(TokenKind::Comma)
    } else {
        None
    }
}

/// The token of kind `kind` over the bytes `start..end`.
pub open spec fn mk_token(kind: TokenKind, start: nat, end: nat) -> Token {
    Token { kind, start: start as usize, end: end as usize }
}

/// The token that starts at `i` (a byte that is no space), if any: the longest
/// run of digits or of identifier bytes, a string literal, a two-byte operator
/// or one punctuation byte.
pub open spec fn token_at(t: Seq<u8>, i: nat) -> Option<Token> {
    let b = t[i as int];
    if is_digit(b) {
        Some(mk_token(TokenKind::Int, i, digits_end(t, i)))
    } else if is_alpha(b) {
        let e = ident_end(t, i);
        if b == 95 && e == i + 1 {
            Some(mk_token(TokenKind::Underscore, i, e))
        } else {
            Some(mk_token(TokenKind::Ident, i, e))
        }
    } else if b == 34 {
        match quote_at_or_after(t, i + 1) {
            Some(j) => Some(mk_token(TokenKind::Str, i, j + 1)),
            None => None,
        }
    } else if b == 45 && i + 1 < t.len() && t[(i + 1) as int] == 62 {
        Some(mk_token(TokenKind::Arrow, i, i + 2))
    } else if b == 38 && i + 1 < t.len() && t[(i + 1) as int] == 38 {
        Some(mk_token(TokenKind::AndAnd, i, i + 2))
    } else if b == 124 && i + 1 < t.len() && t[(i + 1) as int] == 124 {
        Some(mk_token(TokenKind::OrOr, i, i + 2))
    } else {
        match punct_kind(b) {
            Some(k) => Some(mk_token(k, i, i + 1)),
            None => None,
        }
    }
}

/// The tokens of `t` from position `i` on, spaces skipped; `None` where some
/// byte starts no token.
pub open spec fn lex_from(t: Seq<u8>, i: nat) -> Option<Seq<Token>>
    decreases t.len() - i,
{
    if i >= t.len() {
        Some(seq![])
    } else if is_space(t[i as int]) {
        lex_from(t, i + 1)
    } else {
        match token_at(t, i) {
            None => None,
            Some(tok) => if i < tok.end <= t.len() {
                match lex_from(t, tok.end as nat) {
                    Some(rest) => Some(seq![tok] + rest),
                    None => None,
                }
            } else {
                None
            },
        }
    }
}

proof fn lemma_digits_end(t: Seq<u8>, i: nat)
    ensures
        i <= digits_end(t, i),
        i < t.len() ==> digits_end(t, i) <= t.len(),
        forall|k: int| i <= k < digits_end(t, i) ==> is_digit(#[trigger] t[k]),
    decreases t.len() - i,
{
    if i < t.len() && is_digit(t[i as int]) {
        lemma_digits_end(t, i + 1);
    }
}

proof fn lemma_ident_end(t: Seq<u8>, i: nat)
    ensures
        i <= ident_end(t, i),
        i < t.len() ==> ident_end(t, i) <= t.len(),
    decreases t.len() - i,
{
    if i < t.len() && is_ident_char(t[i as int]) {
        lemma_ident_end(t, i + 1);
    }
}

proof fn lemma_quote(t: Seq<u8>, i: nat)
    ensures
        quote_at_or_after(t, i) matches Some(j) ==> i <= j < t.len(),
    decreases t.len() - i,
{
    if i < t.len() && t[i as int] != 34 {
        lemma_quote(t, i + 1);
    }
}

fn scan_digits(t: &[u8], i: usize) -> (r: usize)
    ensures
        r == digits_end(t@, i as nat),
{
    let mut j = i;
    while j < t.len() && t[j] >= 48 && t[j] <= 57
        invariant
            i <= j,
            digits_end(t@, i as nat) == digits_end(t@, j as nat),
        decreases t@.len() - j,
    {
        j = j + 1;
    }
    j
}

fn scan_ident(t: &[u8], i: usize) -> (r: usize)
    ensures
        r == ident_end(t@, i as nat),
{
    let mut j = i;
    while j < t.len() && ((t[j] >= 65 && t[j] <= 90) || (t[j] >= 97 && t[j] <= 122) || t[j] == 95 || (
    t[j] >= 48 && t[j] <= 57))
        invariant
            i <= j,
            ident_end(t@, i as nat) == ident_end(t@, j as nat),
        decreases t@.len() - j,
    {
        j = j + 1;
    }
    j
}

fn scan_quote(t: &[u8], i: usize) -> (r: Option<usize>)
    ensures
        match r {
            Some(j) => quote_at_or_after(t@, i as nat) == Some(j as nat),
            None => quote_at_or_after(t@, i as nat) is None,
        },
{
    let mut j = i;
    while j < t.len()
        invariant
            i <= j,
            quote_at_or_after(t@, i as nat) == quote_at_or_after(t@, j as nat),
        decreases t@.len() - j,
    {
        if t[j] == 34 {
            return Some(j);
        }
        j = j + 1;
    }
    None
}

fn scan_token(t: &[u8], i: usize) -> (r: Option<Token>)
    requires
        i < t@.len(),
    ensures
        r == token_at(t@, i as nat),
        r matches Some(tok) ==> tok.start == i && i < tok.end <= t@.len(),
        r matches Some(tok) ==> tokens_wf(t@, seq![tok]),
{
    let b = t[i];
    let n = t.len();
    proof {
        lemma_digits_end(t@, i as nat);
        lemma_ident_end(t@, i as nat);
        lemma_quote(t@, (i + 1) as nat);
    }
    if b >= 48 && b <= 57 {
        proof {
            lemma_digits_end(t@, (i + 1) as nat);
        }
        Some(Token { kind: TokenKind::Int, start: i, end: scan_digits(t, i) })
    } else if (b >= 65 && b <= 90) || (b >= 97 && b <= 122) || b == 95 {
        proof {
            lemma_ident_end(t@, (i + 1) as nat);
        }
        let e = scan_ident(t, i);
        if b == 95 && e == i + 1 {
            Some(Token { kind: TokenKind::Underscore, start: i, end: e })
        } else {
            Some(Token { kind: TokenKind::Ident, start: i, end: e })
        }
    } else if b == 34 {
        match scan_quote(t, i + 1) {
            Some(j) => Some(Token { kind: TokenKind::Str, start: i, end: j + 1 }),
            None => None,
        }
    } else if b == 45 && i + 1 < n && t[i + 1] == 62 {
        Some(Token { kind: TokenKind::Arrow, start: i, end: i + 2 })
    } else if b == 38 && i + 1 < n && t[i + 1] == 38 {
        Some(Token { kind: TokenKind::AndAnd, start: i, end: i + 2 })
    } else if b == 124 && i + 1 < n && t[i + 1] == 124 {
        Some(Token { kind: TokenKind::OrOr, start: i, end: i + 2 })
    } else {
        let kind = if b == 35 {
            TokenKind::Pound
        } else if b == 91 {
            TokenKind::LBracket
        } else if b == 93 {
            TokenKind::RBracket
        } else if b == 40 {
            TokenKind::LParen
        } else if b == 41 {
            TokenKind::RParen
        } else if b == 58 {
            TokenKind::Colon
        } else if b == 59 {
            TokenKind::Semi
        } else if b == 44 {
            TokenKind::Comma
        } else {
            return None;
        };
        Some(Token { kind, start: i, end: i + 1 })
    }
}

/// What holds of the tokens of a text: each lies inside it, a string literal
/// holds its two quotes and an integer is made of digits.
pub open spec fn tokens_wf(t: Seq<u8>, toks: Seq<Token>) -> bool {
    forall|k: int|
        0 <= k < toks.len() ==> {
            let tok = #[trigger] toks[k];
            &&& tok.start < tok.end <= t.len()
            &&& tok.kind == TokenKind::Str ==> tok.start + 2 <= tok.end
            &&& tok.kind == TokenKind::Int ==> forall|q: int|
                tok.start <= q < tok.end ==> is_digit(#[trigger] t[q])
        }
}

/// Splits `text` into tokens, skipping spaces; `None` where a byte starts no token.
pub fn tokenize(text: &[u8]) -> (r: Option<Vec<Token>>)
    ensures
        match r {
            Some(v) => lex_from(text@, 0) == Some(v@) && tokens_wf(text@, v@),
            None => lex_from(text@, 0) is None,
        },
{
    let mut toks: Vec<Token> = Vec::new();
    let mut i: usize = 0;
    while i < text.len()
        invariant
            i <= text@.len(),
            lex_from(text@, 0) == match lex_from(text@, i as nat) {
                Some(rest) => Some(toks@ + rest),
                None => None,
            },
            tokens_wf(text@, toks@),
        decreases text@.len() - i,
    {
        let b = text[i];
        if b == 32 || b == 9 || b == 10 || b == 13 {
            i = i + 1;
        } else {
            match scan_token(text, i) {
                None => return None,
                Some(tok) => {
                    proof {
                        match lex_from(text@, tok.end as nat) {
                            Some(rest) => {
                                assert(toks@ + (seq![tok] + rest) == toks@.push(tok) + rest);
                            },
                            None => {},
                        }
                    }
                    let ghost before = toks@;
                    toks.push(tok);
                    proof {
                        assert forall|k: int| 0 <= k < toks@.len() implies {
                            let tk = #[trigger] toks@[k];
                            &&& tk.start < tk.end <= text@.len()
                            &&& tk.kind == TokenKind::Str ==> tk.start + 2 <= tk.end
                            &&& tk.kind == TokenKind::Int ==> forall|q: int|
                                tk.start <= q < tk.end ==> is_digit(#[trigger] text@[q])
                        } by {
                            if k < before.len() {
                                assert(toks@[k] == before[k]);
                            } else {
                                assert(toks@[k] == seq![tok][0]);
                            }
                        }
                    }
                    i = tok.end;
                },
            }
        }
    }
    proof {
        assert(toks@ + seq![] =~= toks@);
    }
    Some(toks)
}

} // verus!

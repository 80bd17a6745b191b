//! The rule language: its syntax tree and its parser.
use vstd::prelude::*;
use vstd::string::StringSliceAdditionalSpecFns;
use crate::lexer::{Token, TokenKind, is_digit, lex_from, tokenize, tokens_wf};

verus! {

/// A boolean connective between two predicate expressions.
#[derive(Clone, Copy, PartialEq, Eq, Debug)]
pub enum BinOp {
    And,
    Or,
}

/// A predicate expression as written in a rule.
#[derive(PartialEq, Eq, Debug)]
pub enum Expr {
    /// `_`: always true.
    Wildcard,
    /// `name` or `name("arg", ...)`: a named check, with string arguments.
    Call { name: Vec<u8>, args: Vec<Vec<u8>> },
    /// `left && right` or `left || right`.
    Binary { op: BinOp, left: Box<Expr>, right: Box<Expr> },
    /// `( inner )`.
    Paren(Box<Expr>),
}

/// The mathematical form of an `Expr`.
pub enum ExprModel {
    Wildcard,
    Call { name: Seq<u8>, args: Seq<Seq<u8>> },
    Binary { op: BinOp, left: Box<ExprModel>, right: Box<ExprModel> },
    Paren(Box<ExprModel>),
}

/// The mathematical form of an expression tree.
pub open spec fn expr_model(e: Expr) -> ExprModel
    decreases e,
{
    match e {
        Expr::Wildcard => ExprModel::Wildcard,
        Expr::Call { name, args } => ExprModel::Call {
            name: name@,
            args: args@.map_values(|a: Vec<u8>| a@),
        },
        Expr::Binary { op, left, right } => ExprModel::Binary {
            op: op,
            left: Box::new(expr_model(*left)),
            right: Box::new(expr_model(*right)),
        },
        Expr::Paren(inner) => ExprModel::Paren(Box::new(expr_model(*inner))),
    }
}

impl View for Expr {
    type V = ExprModel;

    open spec fn view(&self) -> ExprModel {
        expr_model(*self)
    }
}

/// One edge rule `from -> to : predicate`; no predicate (`_`) is an epsilon edge.
#[derive(PartialEq, Eq, Debug)]
pub struct Rule {
    pub begin_stat: u64,
    pub end_stat: u64,
    pub transfer: Option<Expr>,
}

/// The mathematical form of a `Rule`.
pub struct RuleModel {
    pub from: u64,
    pub to: u64,
    pub transfer: Option<ExprModel>,
}

impl View for Rule {
    type V = RuleModel;

    open spec fn view(&self) -> RuleModel {
        RuleModel {
            from: self.begin_stat,
            to: self.end_stat,
            transfer: match self.transfer {
                Some(e) => Some(e@),
                None => None,
            },
        }
    }
}

/// A parsed specification: the name of the context type it is written for, if
/// given, the initial state, the final states and the edge rules in order.
#[derive(PartialEq, Eq, Debug)]
pub struct Body {
    pub input_type: Option<Vec<u8>>,
    pub init_stat: u64,
    pub fini_stats: Vec<u64>,
    pub rules: Vec<Rule>,
}

/// The mathematical form of a `Body`.
pub struct BodyModel {
    pub input: Option<Seq<u8>>,
    pub init: u64,
    pub ends: Seq<u64>,
    pub rules: Seq<RuleModel>,
}

impl View for Body {
    type V = BodyModel;

    open spec fn view(&self) -> BodyModel {
        BodyModel {
            input: match self.input_type {
                Some(v) => Some(v@),
                None => None,
            },
            init: self.init_stat,
            ends: self.fini_stats@,
            rules: self.rules@.map_values(|r: Rule| r@),
        }
    }
}

/// Why a text is not a specification.
#[derive(Clone, Copy, PartialEq, Eq, Debug)]
pub enum ParseError {
    /// A byte that starts no token (an unsupported operator, an unclosed string).
    InvalidToken,
    /// The tokens do not follow the grammar, or a number does not fit in `u64`.
    Syntax,
    /// No `#[init(..)]` declaration.
    MissingInit,
    /// No `#[ends(..)]` declaration, or one without states.
    MissingEnds,
}

/// The token at `i` is of kind `k`.
pub open spec fn is_kind(toks: Seq<Token>, i: nat, k: TokenKind) -> bool {
    i < toks.len() && toks[i as int].kind == k
}

/// The text of a token.
pub open spec fn span(t: Seq<u8>, tok: Token) -> Seq<u8> {
    t.subrange(tok.start as int, tok.end as int)
}

/// The text of a string literal between its quotes.
pub open spec fn str_content(t: Seq<u8>, tok: Token) -> Seq<u8> {
    t.subrange(tok.start + 1, tok.end - 1)
}

/// The number that a sequence of decimal digits denotes.
pub open spec fn digits_value(d: Seq<u8>) -> nat
    decreases d.len(),
{
    if d.len() == 0 {
        0
    } else {
        digits_value(d.drop_last()) * 10 + (d.last() - 48) as nat
    }
}

/// The value of an integer token, where it fits in `u64`.
pub open spec fn int_value(t: Seq<u8>, tok: Token) -> Option<u64> {
    let v = digits_value(span(t, tok));
    if v <= u64::MAX {
        Some(v as u64)
    } else {
        None
    }
}

/// `(',' "str")*` from `i`: the contents and the position after them.
pub open spec fn strs_tail(t: Seq<u8>, toks: Seq<Token>, i: nat) -> Option<(Seq<Seq<u8>>, nat)>
    decreases toks.len() - i,
{
    if is_kind(toks, i, TokenKind::Comma) {
        if is_kind(toks, i + 1, TokenKind::Str) {
            match strs_tail(t, toks, i + 2) {
                Some((rest, j)) => Some((seq![str_content(t, toks[(i + 1) as int])] + rest, j)),
                None => None,
            }
        } else {
            None
        }
    } else {
        Some((seq![], i))
    }
}

/// A possibly empty list of string literals separated by commas, from `i`.
pub open spec fn parse_strs(t: Seq<u8>, toks: Seq<Token>, i: nat) -> Option<(Seq<Seq<u8>>, nat)> {
    if is_kind(toks, i, TokenKind::Str) {
        match strs_tail(t, toks, i + 1) {
            Some((rest, j)) => Some((seq![str_content(t, toks[i as int])] + rest, j)),
            None => None,
        }
    } else {
        Some((seq![], i))
    }
}

/// `(',' int)*` from `i`: the values and the position after them.
pub open spec fn ints_tail(t: Seq<u8>, toks: Seq<Token>, i: nat) -> Option<(Seq<u64>, nat)>
    decreases toks.len() - i,
{
    if is_kind(toks, i, TokenKind::Comma) {
        if is_kind(toks, i + 1, TokenKind::Int) {
            match (int_value(t, toks[(i + 1) as int]), ints_tail(t, toks, i + 2)) {
                (Some(v), Some((rest, j))) => Some((seq![v] + rest, j)),
                _ => None,
            }
        } else {
            None
        }
    } else {
        Some((seq![], i))
    }
}

/// A possibly empty list of integers separated by commas, from `i`.
pub open spec fn parse_ints(t: Seq<u8>, toks: Seq<Token>, i: nat) -> Option<(Seq<u64>, nat)> {
    if is_kind(toks, i, TokenKind::Int) {
        match (int_value(t, toks[i as int]), ints_tail(t, toks, i + 1)) {
            (Some(v), Some((rest, j))) => Some((seq![v] + rest, j)),
            _ => None,
        }
    } else {
        Some((seq![], i))
    }
}

/// The operator token of a precedence level: `&&` binds tighter than `||`.
pub open spec fn level_token(level: nat) -> TokenKind {
    if level == 1 {
        TokenKind::AndAnd
    } else {
        TokenKind::OrOr
    }
}

/// The connective of a precedence level.
pub open spec fn level_op(level: nat) -> BinOp {
    if level == 1 {
        BinOp::And
    } else {
        BinOp::Or
    }
}

/// The expression of precedence `level` that starts at `i`, and the position
/// after it. Level 0 is a leaf or a parenthesised expression; levels 1 and 2 are
/// left-associative chains of `&&` and of `||`.
pub open spec fn parse_expr(t: Seq<u8>, toks: Seq<Token>, i: nat, level: nat) -> Option<(ExprModel, nat)>
    decreases toks.len() - i, level, 0nat,
{
    if level == 0 {
        if is_kind(toks, i, TokenKind::Underscore) {
            Some((ExprModel::Wildcard, i + 1))
        } else if is_kind(toks, i, TokenKind::Ident) {
            let name = span(t, toks[i as int]);
            if is_kind(toks, i + 1, TokenKind::LParen) {
                match parse_strs(t, toks, i + 2) {
                    Some((args, j)) => if is_kind(toks, j, TokenKind::RParen) {
                        Some((ExprModel::Call { name, args }, j + 1))
                    } else {
                        None
                    },
                    None => None,
                }
            } else {
                Some((ExprModel::Call { name, args: seq![] }, i + 1))
            }
        } else if is_kind(toks, i, TokenKind::LParen) {
            match parse_expr(t, toks, i + 1, 2) {
                Some((e, j)) => if is_kind(toks, j, TokenKind::RParen) {
                    Some((ExprModel::Paren(Box::new(e)), j + 1))
                } else {
                    None
                },
                None => None,
            }
        } else {
            None
        }
    } else {
        match parse_expr(t, toks, i, (level - 1) as nat) {
            Some((lhs, j)) => if i < j <= toks.len() {
                parse_chain(t, toks, level, lhs, j)
            } else {
                None
            },
            None => None,
        }
    }
}

/// Continues a chain of level `level` whose left part `lhs` ends at `j`.
pub open spec fn parse_chain(t: Seq<u8>, toks: Seq<Token>, level: nat, lhs: ExprModel, j: nat) -> Option<(ExprModel, nat)>
    decreases toks.len() - j, level, 1nat,
{
    if level > 0 && is_kind(toks, j, level_token(level)) {
        match parse_expr(t, toks, j + 1, (level - 1) as nat) {
            Some((rhs, k)) => if j < k <= toks.len() {
                parse_chain(
                    t,
                    toks,
                    level,
                    ExprModel::Binary { op: level_op(level), left: Box::new(lhs), right: Box::new(rhs) },
                    k,
                )
            } else {
                None
            },
            None => None,
        }
    } else {
        Some((lhs, j))
    }
}

/// The rule `from -> to : predicate` that starts at `i`, and the position after it.
/// A lone `_` as the predicate makes an epsilon rule.
pub open spec fn parse_rule(t: Seq<u8>, toks: Seq<Token>, i: nat) -> Option<(RuleModel, nat)> {
    if is_kind(toks, i, TokenKind::Int) && is_kind(toks, i + 1, TokenKind::Arrow) && is_kind(
        toks,
        i + 2,
        TokenKind::Int,
    ) && is_kind(toks, i + 3, TokenKind::Colon) {
        match (int_value(t, toks[i as int]), int_value(t, toks[(i + 2) as int])) {
            (Some(from), Some(to)) => {
                let p = i + 4;
                if is_kind(toks, p, TokenKind::Underscore) && (p + 1 == toks.len() || is_kind(
                    toks,
                    p + 1,
                    TokenKind::Semi,
                )) {
                    Some((RuleModel { from, to, transfer: None }, p + 1))
                } else {
                    match parse_expr(t, toks, p, 2) {
                        Some((e, j)) => Some((RuleModel { from, to, transfer: Some(e) }, j)),
                        None => None,
                    }
                }
            },
            _ => None,
        }
    } else {
        None
    }
}

/// The non-empty list of rules, separated by `;` with an optional final `;`,
/// that runs from `i` to the end of the tokens.
pub open spec fn parse_rules(t: Seq<u8>, toks: Seq<Token>, i: nat) -> Option<Seq<RuleModel>>
    decreases toks.len() - i,
{
    match parse_rule(t, toks, i) {
        Some((r, j)) => if j == toks.len() {
            Some(seq![r])
        } else if i <= j && is_kind(toks, j, TokenKind::Semi) {
            if j + 1 == toks.len() {
                Some(seq![r])
            } else {
                match parse_rules(t, toks, j + 1) {
                    Some(rest) => Some(seq![r] + rest),
                    None => None,
                }
            }
        } else {
            None
        },
        None => None,
    }
}

/// `init`
pub open spec fn init_name() -> Seq<u8> {
    seq![105u8, 110u8, 105u8, 116u8]
}

/// `ends`
pub open spec fn ends_name() -> Seq<u8> {
    seq![101u8, 110u8, 100u8, 115u8]
}

/// The declaration `#[name(n1, n2, ...)]` that starts at `i`: its name, its
/// numbers and the position after it.
pub open spec fn parse_attr(t: Seq<u8>, toks: Seq<Token>, i: nat) -> Option<(Seq<u8>, Seq<u64>, nat)> {
    if is_kind(toks, i, TokenKind::Pound) && is_kind(toks, i + 1, TokenKind::LBracket) && is_kind(
        toks,
        i + 2,
        TokenKind::Ident,
    ) && is_kind(toks, i + 3, TokenKind::LParen) {
        match parse_ints(t, toks, i + 4) {
            Some((vals, j)) => if is_kind(toks, j, TokenKind::RParen) && is_kind(
                toks,
                j + 1,
                TokenKind::RBracket,
            ) {
                Some((span(t, toks[(i + 2) as int]), vals, j + 2))
            } else {
                None
            },
            None => None,
        }
    } else {
        None
    }
}

/// `input`
pub open spec fn input_name() -> Seq<u8> {
    seq![105u8, 110u8, 112u8, 117u8, 116u8]
}

/// The declaration `#[input(Name)]` that starts at `i`: the name and the
/// position after it.
pub open spec fn parse_input_attr(t: Seq<u8>, toks: Seq<Token>, i: nat) -> Option<(Seq<u8>, nat)> {
    if is_kind(toks, i, TokenKind::Pound) && is_kind(toks, i + 1, TokenKind::LBracket) && is_kind(
        toks,
        i + 2,
        TokenKind::Ident,
    ) && span(t, toks[(i + 2) as int]) == input_name() && is_kind(toks, i + 3, TokenKind::LParen)
        && is_kind(toks, i + 4, TokenKind::Ident) && is_kind(toks, i + 5, TokenKind::RParen)
        && is_kind(toks, i + 6, TokenKind::RBracket) {
        Some((span(t, toks[(i + 4) as int]), i + 7))
    } else {
        None
    }
}

/// The declarations from `i` on, given those already seen: at most one
/// `#[input(Name)]`, at most one `#[init(n)]` with one state and at most one
/// `#[ends(..)]`.
pub open spec fn parse_header(
    t: Seq<u8>,
    toks: Seq<Token>,
    i: nat,
    input: Option<Seq<u8>>,
    init: Option<u64>,
    ends: Option<Seq<u64>>,
) -> Result<(Option<Seq<u8>>, Option<u64>, Option<Seq<u64>>, nat), ParseError>
    decreases toks.len() - i,
{
    if is_kind(toks, i, TokenKind::Pound) {
        match parse_input_attr(t, toks, i) {
            Some((ty, j)) => if input is None {
                parse_header(t, toks, j, Some(ty), init, ends)
            } else {
                Err(ParseError::Syntax)
            },
            None => match parse_attr(t, toks, i) {
                Some((name, vals, j)) => if !(i < j <= toks.len()) {
                    Err(ParseError::Syntax)
                } else if name == init_name() && init is None && vals.len() == 1 {
                    parse_header(t, toks, j, input, Some(vals[0]), ends)
                } else if name == ends_name() && ends is None {
                    parse_header(t, toks, j, input, init, Some(vals))
                } else {
                    Err(ParseError::Syntax)
                },
                None => Err(ParseError::Syntax),
            },
        }
    } else {
        Ok((input, init, ends, i))
    }
}

/// The specification that a text spells: declarations, then rules.
pub open spec fn parse_text(t: Seq<u8>) -> Result<BodyModel, ParseError> {
    match lex_from(t, 0) {
        None => Err(ParseError::InvalidToken),
        Some(toks) => match parse_header(t, toks, 0, None, None, None) {
            Err(e) => Err(e),
            Ok((input, init, ends, i)) => match parse_rules(t, toks, i) {
                None => Err(ParseError::Syntax),
                Some(rules) => match init {
                    None => Err(ParseError::MissingInit),
                    Some(x) => match ends {
                        Some(es) => if es.len() > 0 {
                            Ok(BodyModel { input, init: x, ends: es, rules })
                        } else {
                            Err(ParseError::MissingEnds)
                        },
                        None => Err(ParseError::MissingEnds),
                    },
                },
            },
        },
    }
}

fn copy_range(t: &[u8], a: usize, b: usize) -> (r: Vec<u8>)
    requires
        a <= b <= t@.len(),
    ensures
        r@ == t@.subrange(a as int, b as int),
{
    let mut r: Vec<u8> = Vec::new();
    let mut k = a;
    while k < b
        invariant
            a <= k <= b,
            b <= t@.len(),
            r@ == t@.subrange(a as int, k as int),
        decreases b - k,
    {
        r.push(t[k]);
        k = k + 1;
        assert(r@ =~= t@.subrange(a as int, k as int));
    }
    r
}

fn kind_is(toks: &Vec<Token>, i: usize, k: TokenKind) -> (r: bool)
    ensures
        r == is_kind(toks@, i as nat, k),
{
    i < toks.len() && toks[i].kind == k
}

proof fn lemma_digits_value_prefix(d: Seq<u8>, k: nat)
    requires
        k <= d.len(),
    ensures
        digits_value(d.subrange(0, k as int)) <= digits_value(d),
    decreases d.len() - k,
{
    if k < d.len() {
        let p = d.drop_last();
        assert(p.subrange(0, k as int) =~= d.subrange(0, k as int));
        lemma_digits_value_prefix(p, k);
    } else {
        assert(d.subrange(0, k as int) =~= d);
    }
}

/// The value of an integer token, where it fits in `u64`.
fn int_of(t: &[u8], tok: Token) -> (r: Option<u64>)
    requires
        tok.start < tok.end <= t@.len(),
        forall|q: int| tok.start <= q < tok.end ==> is_digit(#[trigger] t@[q]),
    ensures
        r == int_value(t@, tok),
{
    let ghost d = span(t@, tok);
    let mut v: u64 = 0;
    let mut k = tok.start;
    while k < tok.end
        invariant
            tok.start <= k <= tok.end,
            tok.end <= t@.len(),
            d == span(t@, tok),
            forall|q: int| tok.start <= q < tok.end ==> is_digit(#[trigger] t@[q]),
            v as nat == digits_value(t@.subrange(tok.start as int, k as int)),
        decreases tok.end - k,
    {
        let ghost pre = t@.subrange(tok.start as int, k as int);
        let ghost next = t@.subrange(tok.start as int, k + 1);
        proof {
            assert(next.drop_last() =~= pre);
            assert(next.last() == t@[k as int]);
            assert(next =~= d.subrange(0, k + 1 - tok.start));
            lemma_digits_value_prefix(d, (k + 1 - tok.start) as nat);
        }
        let x = (t[k] - 48u8) as u64;
        match v.checked_mul(10) {
            None => {
                return None;
            },
            Some(m) => match m.checked_add(x) {
                None => {
                    return None;
                },
                Some(w) => {
                    v = w;
                },
            },
        }
        k = k + 1;
    }
    proof {
        assert(t@.subrange(tok.start as int, k as int) =~= d);
    }
    Some(v)
}

fn content_of(t: &[u8], tok: Token) -> (r: Vec<u8>)
    requires
        tok.start + 2 <= tok.end <= t@.len(),
    ensures
        r@ == str_content(t@, tok),
{
    copy_range(t, tok.start + 1, tok.end - 1)
}

/// The contents of a list of byte strings.
pub open spec fn bytes_views(v: Seq<Vec<u8>>) -> Seq<Seq<u8>> {
    v.map_values(|a: Vec<u8>| a@)
}

/// A possibly empty list of string literals separated by commas, from `i`.
fn parse_str_list(t: &[u8], toks: &Vec<Token>, i: usize) -> (r: Option<(Vec<Vec<u8>>, usize)>)
    requires
        tokens_wf(t@, toks@),
    ensures
        match r {
            Some((v, j)) => parse_strs(t@, toks@, i as nat) == Some((bytes_views(v@), j as nat)),
            None => parse_strs(t@, toks@, i as nat) is None,
        },
{
    let mut acc: Vec<Vec<u8>> = Vec::new();
    let n = toks.len();
    if !kind_is(toks, i, TokenKind::Str) {
        assert(bytes_views(acc@) =~= seq![]);
        return Some((acc, i));
    }
    acc.push(content_of(t, toks[i]));
    assert(bytes_views(acc@) =~= seq![str_content(t@, toks@[i as int])]);
    let mut p = i + 1;
    while p < n && toks[p].kind == TokenKind::Comma
        invariant
            tokens_wf(t@, toks@),
            n == toks@.len(),
            i < p <= n,
            parse_strs(t@, toks@, i as nat) == match strs_tail(t@, toks@, p as nat) {
                Some((rest, j)) => Some((bytes_views(acc@) + rest, j)),
                None => None,
            },
        decreases toks@.len() - p,
    {
        if !kind_is(toks, p + 1, TokenKind::Str) {
            return None;
        }
        let ghost old_acc = bytes_views(acc@);
        acc.push(content_of(t, toks[p + 1]));
        proof {
            let c = str_content(t@, toks@[p + 1]);
            assert(bytes_views(acc@) =~= old_acc.push(c));
            match strs_tail(t@, toks@, (p + 2) as nat) {
                Some((rest, j)) => {
                    assert(old_acc + (seq![c] + rest) =~= old_acc.push(c) + rest);
                },
                None => {},
            }
        }
        p = p + 2;
    }
    proof {
        assert(bytes_views(acc@) + seq![] =~= bytes_views(acc@));
    }
    Some((acc, p))
}

/// A possibly empty list of integers separated by commas, from `i`.
fn parse_int_list(t: &[u8], toks: &Vec<Token>, i: usize) -> (r: Option<(Vec<u64>, usize)>)
    requires
        tokens_wf(t@, toks@),
    ensures
        match r {
            Some((v, j)) => parse_ints(t@, toks@, i as nat) == Some((v@, j as nat)),
            None => parse_ints(t@, toks@, i as nat) is None,
        },
{
    let mut acc: Vec<u64> = Vec::new();
    let n = toks.len();
    if !kind_is(toks, i, TokenKind::Int) {
        assert(acc@ =~= seq![]);
        return Some((acc, i));
    }
    match int_of(t, toks[i]) {
        None => {
            return None;
        },
        Some(v) => {
            acc.push(v);
        },
    }
    assert(acc@ =~= seq![int_value(t@, toks@[i as int])->Some_0]);
    let mut p = i + 1;
    while p < n && toks[p].kind == TokenKind::Comma
        invariant
            tokens_wf(t@, toks@),
            n == toks@.len(),
            i < p <= n,
            parse_ints(t@, toks@, i as nat) == match ints_tail(t@, toks@, p as nat) {
                Some((rest, j)) => Some((acc@ + rest, j)),
                None => None,
            },
        decreases toks@.len() - p,
    {
        if !kind_is(toks, p + 1, TokenKind::Int) {
            return None;
        }
        let ghost old_acc = acc@;
        match int_of(t, toks[p + 1]) {
            None => {
                return None;
            },
            Some(v) => {
                acc.push(v);
                proof {
                    match ints_tail(t@, toks@, (p + 2) as nat) {
                        Some((rest, j)) => {
                            assert(old_acc + (seq![v] + rest) =~= acc@ + rest);
                        },
                        None => {},
                    }
                }
            },
        }
        p = p + 2;
    }
    proof {
        assert(acc@ + seq![] =~= acc@);
    }
    Some((acc, p))
}

/// The expression of precedence `level` that starts at token `i`, and the
/// position after it.
fn parse_expr_at(t: &[u8], toks: &Vec<Token>, i: usize, level: usize) -> (r: Option<(Expr, usize)>)
    requires
        tokens_wf(t@, toks@),
        i <= toks@.len(),
        level <= 2,
    ensures
        match r {
            Some((e, j)) => parse_expr(t@, toks@, i as nat, level as nat) == Some((e@, j as nat)),
            None => parse_expr(t@, toks@, i as nat, level as nat) is None,
        },
    decreases toks@.len() - i, level,
{
    let n = toks.len();
    if level == 0 {
        if kind_is(toks, i, TokenKind::Underscore) {
            return Some((Expr::Wildcard, i + 1));
        }
        if kind_is(toks, i, TokenKind::Ident) {
            let tok = toks[i];
            let name = copy_range(t, tok.start, tok.end);
            if kind_is(toks, i + 1, TokenKind::LParen) {
                match parse_str_list(t, toks, i + 2) {
                    None => {
                        return None;
                    },
                    Some((args, j)) => {
                        if kind_is(toks, j, TokenKind::RParen) {
                            let e = Expr::Call { name, args };
                            proof {
                                assert(e@ == ExprModel::Call { name: span(t@, tok), args: bytes_views(args@) });
                            }
                            return Some((e, j + 1));
                        } else {
                            return None;
                        }
                    },
                }
            } else {
                let e = Expr::Call { name, args: Vec::new() };
                proof {
                    assert(e@ == ExprModel::Call { name: span(t@, tok), args: seq![] }) by {
                        if let Expr::Call { name: nm, args: a } = e {
                            assert(a@.map_values(|v: Vec<u8>| v@) =~= seq![]);
                        }
                    }
                }
                return Some((e, i + 1));
            }
        }
        if kind_is(toks, i, TokenKind::LParen) {
            match parse_expr_at(t, toks, i + 1, 2) {
                None => {
                    return None;
                },
                Some((e, j)) => {
                    if kind_is(toks, j, TokenKind::RParen) {
                        return Some((Expr::Paren(Box::new(e)), j + 1));
                    } else {
                        return None;
                    }
                },
            }
        }
        return None;
    }
    let op_token = if level == 1 {
        TokenKind::AndAnd
    } else {
        TokenKind::OrOr
    };
    match parse_expr_at(t, toks, i, level - 1) {
        None => None,
        Some((first, j0)) => {
            if !(i < j0 && j0 <= n) {
                return None;
            }
            let mut lhs = first;
            let mut j = j0;
            while kind_is(toks, j, op_token)
                invariant
                    tokens_wf(t@, toks@),
                    n == toks@.len(),
                    1 <= level <= 2,
                    op_token == level_token(level as nat),
                    i < j <= n,
                    parse_expr(t@, toks@, i as nat, level as nat) == parse_chain(
                        t@,
                        toks@,
                        level as nat,
                        lhs@,
                        j as nat,
                    ),
                decreases n - j,
            {
                match parse_expr_at(t, toks, j + 1, level - 1) {
                    None => {
                        return None;
                    },
                    Some((rhs, k)) => {
                        if !(j < k && k <= n) {
                            return None;
                        }
                        let op = if level == 1 {
                            BinOp::And
                        } else {
                            BinOp::Or
                        };
                        lhs = Expr::Binary { op, left: Box::new(lhs), right: Box::new(rhs) };
                        j = k;
                    },
                }
            }
            Some((lhs, j))
        },
    }
}

/// The model of the result of `Rule::parse`.
pub open spec fn rule_result_view(r: Option<(Rule, usize)>) -> Option<(RuleModel, nat)> {
    match r {
        Some((rule, j)) => Some((rule@, j as nat)),
        None => None,
    }
}

impl Rule {
    /// The rule `from -> to : predicate` that starts at token `i`, and the
    /// position after it.
    pub fn parse(t: &[u8], toks: &Vec<Token>, i: usize) -> (r: Option<(Rule, usize)>)
        requires
            tokens_wf(t@, toks@),
            i <= toks@.len(),
        ensures
            rule_result_view(r) == parse_rule(t@, toks@, i as nat),
            r matches Some((_, j)) ==> i < j <= toks@.len(),
    {
        let n = toks.len();
        if !(kind_is(toks, i, TokenKind::Int) && kind_is(toks, i + 1, TokenKind::Arrow) && kind_is(
            toks,
            i + 2,
            TokenKind::Int,
        ) && kind_is(toks, i + 3, TokenKind::Colon)) {
            return None;
        }
        let from = match int_of(t, toks[i]) {
            Some(v) => v,
            None => {
                return None;
            },
        };
        let to = match int_of(t, toks[i + 2]) {
            Some(v) => v,
            None => {
                return None;
            },
        };
        let p = i + 4;
        if kind_is(toks, p, TokenKind::Underscore) && (p + 1 == n || kind_is(
            toks,
            p + 1,
            TokenKind::Semi,
        )) {
            let rule = Rule { begin_stat: from, end_stat: to, transfer: None };
            return Some((rule, p + 1));
        }
        match parse_expr_at(t, toks, p, 2) {
            Some((e, j)) => {
                proof {
                    lemma_parse_expr_advances(t@, toks@, p as nat, 2);
                }
                Some((Rule { begin_stat: from, end_stat: to, transfer: Some(e) }, j))
            },
            None => None,
        }
    }
}

/// A parsed expression ends after its start and inside the tokens.
proof fn lemma_parse_expr_advances(t: Seq<u8>, toks: Seq<Token>, i: nat, level: nat)
    ensures
        parse_expr(t, toks, i, level) matches Some((_, j)) ==> i < j <= toks.len(),
    decreases toks.len() - i, level, 0nat,
{
    if level == 0 {
        if is_kind(toks, i, TokenKind::Ident) && is_kind(toks, i + 1, TokenKind::LParen) {
            lemma_parse_strs_advances(t, toks, i + 2);
        }
        if is_kind(toks, i, TokenKind::LParen) {
            lemma_parse_expr_advances(t, toks, i + 1, 2);
        }
    } else {
        lemma_parse_expr_advances(t, toks, i, (level - 1) as nat);
        match parse_expr(t, toks, i, (level - 1) as nat) {
            Some((lhs, j)) => if i < j <= toks.len() {
                lemma_parse_chain_advances(t, toks, level, lhs, j);
            },
            None => {},
        }
    }
}

proof fn lemma_parse_chain_advances(t: Seq<u8>, toks: Seq<Token>, level: nat, lhs: ExprModel, j: nat)
    requires
        j <= toks.len(),
    ensures
        parse_chain(t, toks, level, lhs, j) matches Some((_, k)) ==> j <= k <= toks.len(),
    decreases toks.len() - j, level, 1nat,
{
    if level > 0 && is_kind(toks, j, level_token(level)) {
        match parse_expr(t, toks, j + 1, (level - 1) as nat) {
            Some((rhs, k)) => if j < k <= toks.len() {
                lemma_parse_chain_advances(
                    t,
                    toks,
                    level,
                    ExprModel::Binary { op: level_op(level), left: Box::new(lhs), right: Box::new(rhs) },
                    k,
                );
            },
            None => {},
        }
    }
}

proof fn lemma_strs_tail_advances(t: Seq<u8>, toks: Seq<Token>, i: nat)
    requires
        i <= toks.len(),
    ensures
        strs_tail(t, toks, i) matches Some((_, j)) ==> i <= j <= toks.len(),
    decreases toks.len() - i,
{
    if is_kind(toks, i, TokenKind::Comma) && is_kind(toks, i + 1, TokenKind::Str) {
        lemma_strs_tail_advances(t, toks, i + 2);
    }
}

proof fn lemma_parse_strs_advances(t: Seq<u8>, toks: Seq<Token>, i: nat)
    ensures
        parse_strs(t, toks, i) matches Some((_, j)) ==> i <= j,
        i <= toks.len() ==> (parse_strs(t, toks, i) matches Some((_, j)) ==> j <= toks.len()),
{
    if is_kind(toks, i, TokenKind::Str) {
        lemma_strs_tail_advances(t, toks, i + 1);
    }
}

/// The models of a list of rules.
pub open spec fn rules_views(v: Seq<Rule>) -> Seq<RuleModel> {
    v.map_values(|r: Rule| r@)
}

/// The rules from token `i` to the end of the tokens.
fn parse_rule_list(t: &[u8], toks: &Vec<Token>, i: usize) -> (r: Option<Vec<Rule>>)
    requires
        tokens_wf(t@, toks@),
        i <= toks@.len(),
    ensures
        match r {
            Some(v) => parse_rules(t@, toks@, i as nat) == Some(rules_views(v@)),
            None => parse_rules(t@, toks@, i as nat) is None,
        },
{
    let n = toks.len();
    let mut acc: Vec<Rule> = Vec::new();
    let mut p = i;
    assert(rules_views(acc@) + seq![] =~= seq![]);
    loop
        invariant
            tokens_wf(t@, toks@),
            n == toks@.len(),
            p <= n,
            parse_rules(t@, toks@, i as nat) == match parse_rules(t@, toks@, p as nat) {
                Some(rest) => Some(rules_views(acc@) + rest),
                None => None,
            },
        decreases n - p,
    {
        match Rule::parse(t, toks, p) {
            None => {
                return None;
            },
            Some((rule, j)) => {
                let ghost before = rules_views(acc@);
                let ghost rm = rule@;
                acc.push(rule);
                proof {
                    assert(rules_views(acc@) =~= before.push(rm));
                    assert(before + seq![rm] =~= before.push(rm));
                    match parse_rules(t@, toks@, (j + 1) as nat) {
                        Some(rest) => {
                            assert(before + (seq![rm] + rest) =~= before.push(rm) + rest);
                        },
                        None => {},
                    }
                }
                if j == n {
                    return Some(acc);
                }
                if kind_is(toks, j, TokenKind::Semi) {
                    if j + 1 == n {
                        return Some(acc);
                    }
                    p = j + 1;
                } else {
                    return None;
                }
            },
        }
    }
}

/// The text of token `tok` is `w`.
fn span_eq(t: &[u8], tok: Token, w: &[u8]) -> (r: bool)
    requires
        tok.start < tok.end <= t@.len(),
    ensures
        r == (span(t@, tok) == w@),
{
    if tok.end - tok.start != w.len() {
        proof {
            assert(span(t@, tok).len() != w@.len());
        }
        return false;
    }
    let mut k: usize = 0;
    while k < w.len()
        invariant
            tok.start < tok.end <= t@.len(),
            tok.end - tok.start == w@.len(),
            k <= w@.len(),
            forall|q: int| 0 <= q < k ==> span(t@, tok)[q] == w@[q],
        decreases w@.len() - k,
    {
        if t[tok.start + k] != w[k] {
            proof {
                assert(span(t@, tok)[k as int] != w@[k as int]);
            }
            return false;
        }
        k = k + 1;
    }
    assert(span(t@, tok) =~= w@);
    true
}

/// The declaration `#[name(n1, ...)]` at token `i`: the index of its name
/// token, its numbers and the position after it.
fn parse_attr_at(t: &[u8], toks: &Vec<Token>, i: usize) -> (r: Option<(usize, Vec<u64>, usize)>)
    requires
        tokens_wf(t@, toks@),
        i <= toks@.len(),
    ensures
        match r {
            Some((k, v, j)) => k < toks@.len() && parse_attr(t@, toks@, i as nat) == Some(
                (span(t@, toks@[k as int]), v@, j as nat),
            ),
            None => parse_attr(t@, toks@, i as nat) is None,
        },
{
    let n = toks.len();
    if !(kind_is(toks, i, TokenKind::Pound) && kind_is(toks, i + 1, TokenKind::LBracket) && kind_is(
        toks,
        i + 2,
        TokenKind::Ident,
    ) && kind_is(toks, i + 3, TokenKind::LParen)) {
        return None;
    }
    match parse_int_list(t, toks, i + 4) {
        None => None,
        Some((vals, j)) => {
            if kind_is(toks, j, TokenKind::RParen) && kind_is(toks, j + 1, TokenKind::RBracket) {
                Some((i + 2, vals, j + 2))
            } else {
                None
            }
        },
    }
}

/// The model of the final states declared so far.
pub open spec fn ends_view(e: Option<Vec<u64>>) -> Option<Seq<u64>> {
    match e {
        Some(v) => Some(v@),
        None => None,
    }
}

/// The model of the context type's name declared so far.
pub open spec fn input_view(e: Option<Vec<u8>>) -> Option<Seq<u8>> {
    match e {
        Some(v) => Some(v@),
        None => None,
    }
}

/// The model of the result of reading the declarations.
pub open spec fn header_view(
    r: Result<(Option<Vec<u8>>, Option<u64>, Option<Vec<u64>>, usize), ParseError>,
) -> Result<(Option<Seq<u8>>, Option<u64>, Option<Seq<u64>>, nat), ParseError> {
    match r {
        Ok((input, init, ends, j)) => Ok((input_view(input), init, ends_view(ends), j as nat)),
        Err(e) => Err(e),
    }
}

/// The declaration `#[input(Name)]` at token `i`: the name and the position after it.
fn parse_input_at(t: &[u8], toks: &Vec<Token>, i: usize) -> (r: Option<(Vec<u8>, usize)>)
    requires
        tokens_wf(t@, toks@),
        i <= toks@.len(),
    ensures
        match r {
            Some((v, j)) => parse_input_attr(t@, toks@, i as nat) == Some((v@, j as nat)),
            None => parse_input_attr(t@, toks@, i as nat) is None,
        },
{
    let n = toks.len();
    let input_word: [u8; 5] = [105u8, 110u8, 112u8, 117u8, 116u8];
    assert(input_word@ =~= input_name());
    if kind_is(toks, i, TokenKind::Pound) && kind_is(toks, i + 1, TokenKind::LBracket) && kind_is(
        toks,
        i + 2,
        TokenKind::Ident,
    ) && span_eq(t, toks[i + 2], input_word.as_slice()) && kind_is(toks, i + 3, TokenKind::LParen)
        && kind_is(toks, i + 4, TokenKind::Ident) && kind_is(toks, i + 5, TokenKind::RParen)
        && kind_is(toks, i + 6, TokenKind::RBracket) {
        let tok = toks[i + 4];
        Some((copy_range(t, tok.start, tok.end), i + 7))
    } else {
        None
    }
}

/// The declarations at the start of the tokens.
fn parse_header_at(t: &[u8], toks: &Vec<Token>) -> (r: Result<
    (Option<Vec<u8>>, Option<u64>, Option<Vec<u64>>, usize),
    ParseError,
>)
    requires
        tokens_wf(t@, toks@),
    ensures
        header_view(r) == parse_header(t@, toks@, 0, None, None, None),
        r matches Ok((_, _, _, j)) ==> j <= toks@.len(),
{
    let n = toks.len();
    let mut input: Option<Vec<u8>> = None;
    let mut init: Option<u64> = None;
    let mut ends: Option<Vec<u64>> = None;
    let mut p: usize = 0;
    let init_word: [u8; 4] = [105u8, 110u8, 105u8, 116u8];
    let ends_word: [u8; 4] = [101u8, 110u8, 100u8, 115u8];
    assert(init_word@ =~= init_name());
    assert(ends_word@ =~= ends_name());
    while kind_is(toks, p, TokenKind::Pound)
        invariant
            tokens_wf(t@, toks@),
            n == toks@.len(),
            p <= n,
            init_word@ == init_name(),
            ends_word@ == ends_name(),
            parse_header(t@, toks@, 0, None, None, None) == parse_header(
                t@,
                toks@,
                p as nat,
                input_view(input),
                init,
                ends_view(ends),
            ),
        decreases n - p,
    {
        if let Some((ty, j)) = parse_input_at(t, toks, p) {
            if input.is_some() {
                return Err(ParseError::Syntax);
            }
            input = Some(ty);
            p = j;
            continue;
        }
        match parse_attr_at(t, toks, p) {
            None => {
                return Err(ParseError::Syntax);
            },
            Some((k, vals, j)) => {
                if !(p < j && j <= n) {
                    return Err(ParseError::Syntax);
                }
                if span_eq(t, toks[k], init_word.as_slice()) && init.is_none() && vals.len() == 1 {
                    init = Some(vals[0]);
                } else if span_eq(t, toks[k], ends_word.as_slice()) && ends.is_none() {
                    ends = Some(vals);
                } else {
                    return Err(ParseError::Syntax);
                }
                p = j;
            },
        }
    }
    Ok((input, init, ends, p))
}

/// The model of the result of `Body::parse`.
pub open spec fn body_result_view(r: Result<Body, ParseError>) -> Result<BodyModel, ParseError> {
    match r {
        Ok(b) => Ok(b@),
        Err(e) => Err(e),
    }
}

impl Body {
    /// Parses the text of a specification: `#[input(Name)]`, `#[init(n)]` and
    /// `#[ends(n, ...)]` declarations, then rules `from -> to : predicate` separated by `;`.
    pub fn parse(text: &str) -> (r: Result<Body, ParseError>)
        ensures
            body_result_view(r) == parse_text(text.spec_bytes()),
    {
        Self::parse_bytes(text.as_bytes())
    }

    /// Parses a specification given as bytes.
    pub fn parse_bytes(t: &[u8]) -> (r: Result<Body, ParseError>)
        ensures
            body_result_view(r) == parse_text(t@),
    {
        let toks = match tokenize(t) {
            None => {
                return Err(ParseError::InvalidToken);
            },
            Some(v) => v,
        };
        let (input_type, init, ends, i) = match parse_header_at(t, &toks) {
            Err(e) => {
                return Err(e);
            },
            Ok(h) => h,
        };
        let rules = match parse_rule_list(t, &toks, i) {
            None => {
                return Err(ParseError::Syntax);
            },
            Some(v) => v,
        };
        let init_stat = match init {
            None => {
                return Err(ParseError::MissingInit);
            },
            Some(x) => x,
        };
        match ends {
            None => Err(ParseError::MissingEnds),
            Some(fini_stats) => {
                if fini_stats.len() == 0 {
                    Err(ParseError::MissingEnds)
                } else {
                    Ok(Body { input_type, init_stat, fini_stats, rules })
                }
            },
        }
    }
}

} // verus!

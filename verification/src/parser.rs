//! The parser: consumes the token sequence left to right, with one token of
//! lookahead, and builds the syntax tree of the grammar
//!
//! ```text
//! expr   := term (( '+' | '-' ) term)*
//! term   := factor ('*' factor)*
//! factor := ('+' | '-')* (number | '(' expr ')')
//! ```
//!
//! Multiplication binds tighter than addition and subtraction, chains
//! associate left to right, and a unary minus over a parenthesized group is
//! distributed over the group's chain at parse time.

use vstd::prelude::*;
use vstd::string::{StrSliceExecFns, StringExecFns};

use crate::lexer::{is_digit, is_digit_char, no_identifier, toks, SpecToken, Token, TokenType};

verus! {

/// A sum or difference: one leading term and an ordered chain of
/// `(operator, term)` continuations, evaluated left to right.
#[derive(Debug)]
pub struct Expr {
    pub term: Term,
    pub opts: Vec<(ExprOperation, Term)>,
}

/// The operator between two terms of an expression chain.
#[derive(Debug, Clone, Copy, PartialEq, Eq, Structural)]
pub enum ExprOperation {
    Addition,
    Subtraction,
}

/// A product: one leading factor and a chain of further factors, combined by
/// multiplication left to right.
#[derive(Debug)]
pub struct Term {
    pub factor: Factor,
    pub opt: TermOpt,
}

/// The tail of a product chain: either one more factor and a further tail, or
/// the end of the chain.
#[derive(Debug)]
pub enum TermOpt {
    TermOpt(Factor, Box<TermOpt>),
    Empty,
}

/// A factor: a numeric literal, or a parenthesized sub-expression.
#[derive(Debug)]
pub enum Factor {
    Number(i64),
    Expr(Box<Expr>),
}

/// The syntax tree as the contracts see it.
pub ghost struct SpecExpr {
    pub term: SpecTerm,
    pub opts: Seq<(ExprOperation, SpecTerm)>,
}

pub ghost struct SpecTerm {
    pub factor: SpecFactor,
    pub opt: SpecTermOpt,
}

pub ghost enum SpecTermOpt {
    Chain(SpecFactor, Box<SpecTermOpt>),
    Empty,
}

pub ghost enum SpecFactor {
    Number(int),
    Subexpr(Box<SpecExpr>),
}

pub open spec fn opts_model(s: Seq<(ExprOperation, Term)>) -> Seq<(ExprOperation, SpecTerm)>
    decreases s,
{
    if s.len() == 0 {
        Seq::empty()
    } else {
        seq![(s[0].0, term_model(s[0].1))] + opts_model(s.skip(1))
    }
}

pub open spec fn expr_model(e: Expr) -> SpecExpr
    decreases e,
{
    SpecExpr { term: term_model(e.term), opts: opts_model(e.opts@) }
}

pub open spec fn term_model(t: Term) -> SpecTerm
    decreases t,
{
    SpecTerm { factor: factor_model(t.factor), opt: termopt_model(t.opt) }
}

pub open spec fn termopt_model(o: TermOpt) -> SpecTermOpt
    decreases o,
{
    match o {
        TermOpt::TermOpt(f, rest) => SpecTermOpt::Chain(
            factor_model(f),
            Box::new(termopt_model(*rest)),
        ),
        TermOpt::Empty => SpecTermOpt::Empty,
    }
}

pub open spec fn factor_model(f: Factor) -> SpecFactor
    decreases f,
{
    match f {
        Factor::Number(n) => SpecFactor::Number(n as int),
        Factor::Expr(e) => SpecFactor::Subexpr(Box::new(expr_model(*e))),
    }
}

pub proof fn lemma_opts_model(s: Seq<(ExprOperation, Term)>)
    ensures
        opts_model(s).len() == s.len(),
        forall|i: int|
            0 <= i < s.len() ==> opts_model(s)[i] == (s[i].0, term_model(s[i].1)),
    decreases s.len(),
{
    if s.len() > 0 {
        lemma_opts_model(s.skip(1));
    }
}

/// Failure of the parser.
#[derive(Debug)]
pub enum ParseError {
    UnexpectedToken { expected: TokenType, found: Token },
    UnexpectedEof { expected: TokenType },
    InvalidNumber { text: String },
    TrailingTokens { remaining: String },
}

/// A parse error as the contracts see it.
pub ghost enum SpecParseError {
    UnexpectedToken { expected: TokenType, found: SpecToken },
    UnexpectedEof { expected: TokenType },
    InvalidNumber { text: Seq<char> },
    TrailingTokens { remaining: Seq<char> },
}

impl View for ParseError {
    type V = SpecParseError;

    open spec fn view(&self) -> SpecParseError {
        match self {
            ParseError::UnexpectedToken { expected, found } => SpecParseError::UnexpectedToken {
                expected: *expected,
                found: found@,
            },
            ParseError::UnexpectedEof { expected } => SpecParseError::UnexpectedEof {
                expected: *expected,
            },
            ParseError::InvalidNumber { text } => SpecParseError::InvalidNumber { text: text@ },
            ParseError::TrailingTokens { remaining } => SpecParseError::TrailingTokens {
                remaining: remaining@,
            },
        }
    }
}

/// The tokens that remain after `n` of `ts` have been consumed.
pub open spec fn advance(ts: Seq<SpecToken>, n: nat) -> Seq<SpecToken> {
    ts.skip(if n <= ts.len() { n as int } else { ts.len() as int })
}

/// One token of the expected kind, or the error that reports what stood (or
/// did not stand) in its place.
pub open spec fn sp_eat(ts: Seq<SpecToken>, expected: TokenType) -> Result<
    SpecToken,
    SpecParseError,
> {
    if ts.len() == 0 {
        Err(SpecParseError::UnexpectedEof { expected })
    } else if ts[0].ttype == expected {
        Ok(ts[0])
    } else {
        Err(SpecParseError::UnexpectedToken { expected, found: ts[0] })
    }
}

/// The integer a digit run denotes, most significant digit first.
pub open spec fn digits_val(s: Seq<char>) -> int
    decreases s.len(),
{
    if s.len() == 0 {
        0
    } else {
        digits_val(s.drop_last()) * 10 + ((s.last() as u32) - ('0' as u32))
    }
}

pub open spec fn all_digits(s: Seq<char>) -> bool {
    forall|i: int| 0 <= i < s.len() ==> is_digit_char(s[i])
}

/// A number token text that denotes a representable value: a non-empty digit
/// run whose value fits in `i64`.
pub open spec fn valid_number_text(s: Seq<char>) -> bool {
    s.len() > 0 && all_digits(s) && digits_val(s) <= i64::MAX
}

/// A number literal: one number token, converted to its value, or rejected
/// when its text is no representable digit run.
pub open spec fn sp_number(ts: Seq<SpecToken>) -> Result<int, SpecParseError> {
    match sp_eat(ts, TokenType::Number) {
        Ok(tok) => if valid_number_text(tok.value) {
            Ok(digits_val(tok.value))
        } else {
            Err(SpecParseError::InvalidNumber { text: tok.value })
        },
        Err(e) => Err(e),
    }
}

/// The other operator of the expression chain.
pub open spec fn spec_flip(op: ExprOperation) -> ExprOperation {
    match op {
        ExprOperation::Addition => ExprOperation::Subtraction,
        ExprOperation::Subtraction => ExprOperation::Addition,
    }
}

/// Negation of a factor.  A literal is negated directly; over a parenthesized
/// group the minus is distributed: every operator of the inner chain is
/// flipped, and the inner leading term is appended, subtracted from a zero
/// base term.
pub open spec fn spec_neg_factor(f: SpecFactor) -> SpecFactor {
    match f {
        SpecFactor::Number(v) => SpecFactor::Number(-v),
        SpecFactor::Subexpr(e) => SpecFactor::Subexpr(
            Box::new(
                SpecExpr {
                    term: SpecTerm { factor: SpecFactor::Number(0), opt: SpecTermOpt::Empty },
                    opts: e.opts.map_values(|p: (ExprOperation, SpecTerm)| (spec_flip(p.0), p.1))
                        .push((ExprOperation::Subtraction, e.term)),
                },
            ),
        ),
    }
}

/// `expr := term (( '+' | '-' ) term)*`, returning the tree and how many
/// tokens it consumed.
pub open spec fn sp_expr(ts: Seq<SpecToken>) -> Result<(SpecExpr, nat), SpecParseError>
    decreases ts.len(), 4int,
{
    match sp_term(ts) {
        Ok((t, n)) => match sp_expr_opt(advance(ts, n)) {
            Ok((opts, n2)) => Ok((SpecExpr { term: t, opts }, (n + n2) as nat)),
            Err(e) => Err(e),
        },
        Err(e) => Err(e),
    }
}

/// The `(( '+' | '-' ) term)*` continuation chain of an expression.
pub open spec fn sp_expr_opt(ts: Seq<SpecToken>) -> Result<
    (Seq<(ExprOperation, SpecTerm)>, nat),
    SpecParseError,
>
    decreases ts.len(), 3int,
{
    if ts.len() > 0 && (ts[0].ttype == TokenType::Addition || ts[0].ttype
        == TokenType::Subtraction) {
        let op = if ts[0].ttype == TokenType::Addition {
            ExprOperation::Addition
        } else {
            ExprOperation::Subtraction
        };
        match sp_term(ts.skip(1)) {
            Ok((t, n)) => match sp_expr_opt(advance(ts.skip(1), n)) {
                Ok((opts, n2)) => Ok((seq![(op, t)] + opts, (1 + n + n2) as nat)),
                Err(e) => Err(e),
            },
            Err(e) => Err(e),
        }
    } else {
        Ok((Seq::empty(), 0))
    }
}

/// `term := factor ('*' factor)*`.
pub open spec fn sp_term(ts: Seq<SpecToken>) -> Result<(SpecTerm, nat), SpecParseError>
    decreases ts.len(), 2int,
{
    match sp_factor(ts) {
        Ok((f, n)) => match sp_term_opt(advance(ts, n)) {
            Ok((o, n2)) => Ok((SpecTerm { factor: f, opt: o }, (n + n2) as nat)),
            Err(e) => Err(e),
        },
        Err(e) => Err(e),
    }
}

/// The `('*' factor)*` continuation chain of a term.
pub open spec fn sp_term_opt(ts: Seq<SpecToken>) -> Result<(SpecTermOpt, nat), SpecParseError>
    decreases ts.len(), 1int,
{
    if ts.len() > 0 && ts[0].ttype == TokenType::Multiplication {
        match sp_factor(ts.skip(1)) {
            Ok((f, n)) => match sp_term_opt(advance(ts.skip(1), n)) {
                Ok((o, n2)) => Ok(
                    (SpecTermOpt::Chain(f, Box::new(o)), (1 + n + n2) as nat),
                ),
                Err(e) => Err(e),
            },
            Err(e) => Err(e),
        }
    } else {
        Ok((SpecTermOpt::Empty, 0))
    }
}

/// `factor := ('+' | '-')* (number | '(' expr ')')`.
pub open spec fn sp_factor(ts: Seq<SpecToken>) -> Result<(SpecFactor, nat), SpecParseError>
    decreases ts.len(), 1int,
{
    if ts.len() > 0 && ts[0].ttype == TokenType::Addition {
        match sp_factor(ts.skip(1)) {
            Ok((f, n)) => Ok((f, (1 + n) as nat)),
            Err(e) => Err(e),
        }
    } else if ts.len() > 0 && ts[0].ttype == TokenType::Subtraction {
        match sp_factor(ts.skip(1)) {
            Ok((f, n)) => Ok((spec_neg_factor(f), (1 + n) as nat)),
            Err(e) => Err(e),
        }
    } else if ts.len() > 0 && ts[0].ttype == TokenType::OpeningParen {
        match sp_expr(ts.skip(1)) {
            Ok((e, n)) => match sp_eat(advance(ts.skip(1), n), TokenType::ClosingParen) {
                Ok(_) => Ok((SpecFactor::Subexpr(Box::new(e)), (2 + n) as nat)),
                Err(err) => Err(err),
            },
            Err(err) => Err(err),
        }
    } else {
        match sp_number(ts) {
            Ok(v) => Ok((SpecFactor::Number(v), 1)),
            Err(e) => Err(e),
        }
    }
}

/// The texts of the tokens from `k` on, space-joined.
pub open spec fn joined_from(ts: Seq<SpecToken>, k: int) -> Seq<char>
    decreases ts.len() - k,
{
    if !(0 <= k < ts.len()) {
        Seq::empty()
    } else if k == ts.len() - 1 {
        ts[k].value
    } else {
        ts[k].value + seq![' '] + joined_from(ts, k + 1)
    }
}

/// One whole expression: the token sequence must be fully consumed, and any
/// remainder is the trailing-tokens error, its texts space-joined.
pub open spec fn sp_parse(ts: Seq<SpecToken>) -> Result<SpecExpr, SpecParseError> {
    match sp_expr(ts) {
        Ok((e, n)) => {
            if advance(ts, n).len() == 0 {
                Ok(e)
            } else {
                Err(
                    SpecParseError::TrailingTokens {
                        remaining: joined_from(advance(ts, n), 0),
                    },
                )
            }
        },
        Err(e) => Err(e),
    }
}

proof fn lemma_toks_skip(ts: Seq<Token>, k: int)
    requires
        0 <= k <= ts.len(),
    ensures
        toks(ts.skip(k)) == toks(ts).skip(k),
{
    assert(toks(ts.skip(k)) =~= toks(ts).skip(k));
}

proof fn lemma_skip_skip<T>(s: Seq<T>, a: int, b: int)
    requires
        0 <= a,
        0 <= b,
        a + b <= s.len(),
    ensures
        s.skip(a).skip(b) == s.skip(a + b),
{
    assert(s.skip(a).skip(b) =~= s.skip(a + b));
}

/// Remove and return the next token, which must have the expected kind;
/// otherwise report what was found, consuming nothing.
fn eat(tokens: &mut Vec<Token>, ttype: TokenType) -> (r: Result<Token, ParseError>)
    ensures
        match sp_eat(toks(old(tokens)@), ttype) {
            Ok(tm) => r matches Ok(t) && t@ == tm && old(tokens)@.len() > 0 && final(tokens)@
                == old(tokens)@.skip(1),
            Err(e) => r matches Err(pe) && pe@ == e && final(tokens)@ == old(tokens)@,
        },
{
    if tokens.len() > 0 {
        if tokens[0].ttype == ttype {
            let t = tokens.remove(0);
            proof {
                assert(final(tokens)@ =~= old(tokens)@.skip(1));
                assert(t@ == toks(old(tokens)@)[0]);
            }
            Ok(t)
        } else {
            let found = Token {
                ttype: tokens[0].ttype,
                value: tokens[0].value.clone(),
                pos: tokens[0].pos,
            };
            proof {
                assert(found@ == toks(old(tokens)@)[0]);
            }
            Err(ParseError::UnexpectedToken { expected: ttype, found })
        }
    } else {
        Err(ParseError::UnexpectedEof { expected: ttype })
    }
}

/// Remove and return the next token if it has the expected kind; otherwise
/// leave the sequence as it stands.
fn try_eat(tokens: &mut Vec<Token>, ttype: TokenType) -> (r: Result<Option<Token>, ParseError>)
    ensures
        old(tokens)@.len() > 0 && old(tokens)@[0].ttype == ttype ==> (r matches Ok(t) && t
            matches Some(tok) && tok@ == toks(old(tokens)@)[0] && final(tokens)@ == old(
            tokens,
        )@.skip(1)),
        !(old(tokens)@.len() > 0 && old(tokens)@[0].ttype == ttype) ==> (r matches Ok(t) && t
            is None && final(tokens)@ == old(tokens)@),
{
    if tokens.len() > 0 {
        if tokens[0].ttype == ttype {
            match eat(tokens, ttype) {
                Ok(t) => Ok(Some(t)),
                Err(e) => Err(e),
            }
        } else {
            Ok(None)
        }
    } else {
        Ok(None)
    }
}

pub proof fn lemma_digits_val_nonneg(s: Seq<char>)
    requires
        all_digits(s),
    ensures
        digits_val(s) >= 0,
    decreases s.len(),
{
    if s.len() > 0 {
        assert(all_digits(s.drop_last()));
        lemma_digits_val_nonneg(s.drop_last());
    }
}

/// One more digit multiplies the prefix value by ten and adds the digit.
proof fn lemma_digits_val_step(s: Seq<char>, k: int)
    requires
        0 <= k < s.len(),
    ensures
        digits_val(s.subrange(0, k + 1)) == digits_val(s.subrange(0, k)) * 10 + (
        (s[k] as u32) - ('0' as u32)),
{
    let t = s.subrange(0, k + 1);
    assert(t.drop_last() =~= s.subrange(0, k));
    assert(t.last() == s[k]);
}

/// The value of a digit run is at least the value of any of its prefixes.
proof fn lemma_digits_val_prefix_le(s: Seq<char>, k: int)
    requires
        all_digits(s),
        0 <= k <= s.len(),
    ensures
        digits_val(s.subrange(0, k)) <= digits_val(s),
    decreases s.len() - k,
{
    if k == s.len() {
        assert(s.subrange(0, k) =~= s);
    } else {
        lemma_digits_val_step(s, k);
        assert(all_digits(s.subrange(0, k)));
        lemma_digits_val_nonneg(s.subrange(0, k));
        lemma_digits_val_prefix_le(s, k + 1);
    }
}

/// A factor that parses to a bare literal has its value within `i64`'s
/// range, the minimum itself excluded.
pub proof fn lemma_sp_factor_number_range(ts: Seq<SpecToken>)
    ensures
        match sp_factor(ts) {
            Ok(p) => match p.0 {
                SpecFactor::Number(v) => -i64::MAX <= v <= i64::MAX,
                SpecFactor::Subexpr(_) => true,
            },
            Err(_) => true,
        },
    decreases ts.len(),
{
    if ts.len() > 0 && ts[0].ttype == TokenType::Addition {
        lemma_sp_factor_number_range(ts.skip(1));
    } else if ts.len() > 0 && ts[0].ttype == TokenType::Subtraction {
        lemma_sp_factor_number_range(ts.skip(1));
    } else if ts.len() > 0 && ts[0].ttype == TokenType::OpeningParen {
    } else {
        match sp_eat(ts, TokenType::Number) {
            Ok(tok) => {
                if valid_number_text(tok.value) {
                    lemma_digits_val_nonneg(tok.value);
                }
            },
            Err(_) => {},
        }
    }
}

impl Factor {
    /// Negation.  A literal is negated in place; a parenthesized group has
    /// the minus distributed over its chain, as `spec_neg_factor` states.
    pub fn neg(self) -> (r: Factor)
        requires
            self matches Factor::Number(n) ==> n != i64::MIN,
        ensures
            factor_model(r) == spec_neg_factor(factor_model(self)),
    {
        match self {
            Factor::Number(number) => {
                let out = Factor::Number(-number);
                proof {
                    assert(factor_model(out) == SpecFactor::Number(-(number as int)));
                    assert(spec_neg_factor(factor_model(self)) == SpecFactor::Number(
                        -(number as int),
                    ));
                }
                out
            },
            Factor::Expr(e) => {
                let ghost inner = expr_model(*e);
                let boxed = *e;
                let term0 = boxed.term;
                let mut opts = boxed.opts;
                let ghost orig = opts@;
                let mut flipped: Vec<(ExprOperation, Term)> = Vec::new();
                while opts.len() > 0
                    invariant
                        flipped@.len() + opts@.len() == orig.len(),
                        opts@ == orig.skip(flipped@.len() as int),
                        forall|i: int|
                            0 <= i < flipped@.len() ==> flipped@[i] == (
                            spec_flip(orig[i].0),
                            orig[i].1,
                            ),
                    decreases opts@.len(),
                {
                    let ghost k = flipped@.len() as int;
                    let pair = opts.remove(0);
                    let op2 = match pair.0 {
                        ExprOperation::Addition => ExprOperation::Subtraction,
                        ExprOperation::Subtraction => ExprOperation::Addition,
                    };
                    proof {
                        assert(orig.skip(k)[0] == orig[k]);
                        assert(opts@ =~= orig.skip(k + 1));
                    }
                    flipped.push((op2, pair.1));
                }
                flipped.push((ExprOperation::Subtraction, term0));
                let ghost fl = flipped@;
                let new_expr = Expr {
                    term: Term { factor: Factor::Number(0), opt: TermOpt::Empty },
                    opts: flipped,
                };
                let ghost ne = expr_model(new_expr);
                proof {
                    assert(ne.opts == opts_model(fl));
                    assert(ne.term == SpecTerm {
                        factor: SpecFactor::Number(0),
                        opt: SpecTermOpt::Empty,
                    });
                }
                let out = Factor::Expr(Box::new(new_expr));
                proof {
                    let mapped = inner.opts.map_values(
                        |p: (ExprOperation, SpecTerm)| (spec_flip(p.0), p.1),
                    ).push((ExprOperation::Subtraction, inner.term));
                    lemma_opts_model(fl);
                    lemma_opts_model(orig);
                    assert(opts_model(fl) =~= mapped);
                    assert(factor_model(out) == SpecFactor::Subexpr(Box::new(ne)));
                    assert(factor_model(self) == SpecFactor::Subexpr(Box::new(inner)));
                    assert(spec_neg_factor(factor_model(self)) == SpecFactor::Subexpr(
                        Box::new(SpecExpr { term: ne.term, opts: mapped }),
                    ));
                }
                out
            },
        }
    }
}

/// One number token as an `i64` literal: relies on nothing but the token's
/// own digits; a text that is empty, not all digits, or too large for `i64`
/// is the invalid-number error.
fn number(tokens: &mut Vec<Token>) -> (r: Result<i64, ParseError>)
    ensures
        match sp_number(toks(old(tokens)@)) {
            Ok(v) => r matches Ok(x) && x as int == v && final(tokens)@ == old(tokens)@.skip(1),
            Err(e) => r matches Err(pe) && pe@ == e && final(tokens)@ == (match e {
                SpecParseError::InvalidNumber { .. } => old(tokens)@.skip(1),
                _ => old(tokens)@,
            }),
        },
{
    let num_tok = match eat(tokens, TokenType::Number) {
        Ok(t) => t,
        Err(e) => return Err(e),
    };
    let ghost text = num_tok.value@;
    let n = num_tok.value.as_str().unicode_len();
    if n == 0 {
        return Err(ParseError::InvalidNumber { text: num_tok.value });
    }
    let mut acc: i64 = 0;
    let mut k: usize = 0;
    let mut ok = true;
    while ok && k < n
        invariant
            text == num_tok.value@,
            n == text.len(),
            k <= n,
            ok ==> forall|i: int| 0 <= i < k ==> is_digit_char(text[i]),
            ok ==> acc as int == digits_val(text.subrange(0, k as int)),
            ok ==> acc >= 0,
            !ok ==> !valid_number_text(text),
        decreases (if ok { 1int } else { 0int }), n - k,
    {
        let c = num_tok.value.as_str().get_char(k);
        if is_digit(c) {
            let d = (c as u32 - 48) as i64;
            proof {
                lemma_digits_val_step(text, k as int);
            }
            let next = match acc.checked_mul(10) {
                Some(x) => x.checked_add(d),
                None => None,
            };
            match next {
                Some(x) => {
                    acc = x;
                    k = k + 1;
                },
                None => {
                    proof {
                        if all_digits(text) {
                            lemma_digits_val_prefix_le(text, k as int + 1);
                        }
                    }
                    ok = false;
                },
            }
        } else {
            ok = false;
        }
    }
    if !ok {
        return Err(ParseError::InvalidNumber { text: num_tok.value });
    }
    proof {
        assert(text.subrange(0, n as int) =~= text);
    }
    Ok(acc)
}

/// `factor := ('+' | '-')* (number | '(' expr ')')`.
fn factor(tokens: &mut Vec<Token>) -> (r: Result<Factor, ParseError>)
    ensures
        match sp_factor(toks(old(tokens)@)) {
            Ok(p) => r matches Ok(f) && factor_model(f) == p.0 && p.1 <= old(tokens)@.len()
                && final(tokens)@ == old(tokens)@.skip(p.1 as int),
            Err(pe) => r matches Err(x) && x@ == pe,
        },
    decreases old(tokens)@.len(), 1int,
{
    let ghost t0 = tokens@;
    let ghost ts0 = toks(tokens@);
    let plus = match try_eat(tokens, TokenType::Addition) {
        Ok(o) => o,
        Err(e) => return Err(e),
    };
    if plus.is_some() {
        proof {
            assert(ts0[0] == t0[0]@);
            lemma_toks_skip(t0, 1);
        }
        let f = match factor(tokens) {
            Ok(f) => f,
            Err(e) => return Err(e),
        };
        proof {
            match sp_factor(ts0.skip(1)) {
                Ok(p) => {
                    lemma_skip_skip(t0, 1, p.1 as int);
                },
                Err(_) => {
                    assert(false);
                },
            }
        }
        return Ok(f);
    }
    let minus = match try_eat(tokens, TokenType::Subtraction) {
        Ok(o) => o,
        Err(e) => return Err(e),
    };
    if minus.is_some() {
        proof {
            assert(ts0[0] == t0[0]@);
            lemma_toks_skip(t0, 1);
        }
        let f = match factor(tokens) {
            Ok(f) => f,
            Err(e) => return Err(e),
        };
        proof {
            lemma_sp_factor_number_range(ts0.skip(1));
        }
        let g = f.neg();
        proof {
            match sp_factor(ts0.skip(1)) {
                Ok(p) => {
                    lemma_skip_skip(t0, 1, p.1 as int);
                },
                Err(_) => {
                    assert(false);
                },
            }
        }
        return Ok(g);
    }
    let open = match try_eat(tokens, TokenType::OpeningParen) {
        Ok(o) => o,
        Err(e) => return Err(e),
    };
    if open.is_some() {
        proof {
            assert(ts0[0] == t0[0]@);
            lemma_toks_skip(t0, 1);
        }
        let ghost t1 = t0.skip(1);
        let e = match expr(tokens) {
            Ok(e) => e,
            Err(err) => return Err(err),
        };
        proof {
            match sp_expr(ts0.skip(1)) {
                Ok(p) => {
                    lemma_toks_skip(t1, p.1 as int);
                },
                Err(_) => {
                    assert(false);
                },
            }
        }
        match eat(tokens, TokenType::ClosingParen) {
            Ok(_) => {},
            Err(err) => return Err(err),
        };
        proof {
            match sp_expr(ts0.skip(1)) {
                Ok(p) => {
                    lemma_skip_skip(t0, 1, p.1 as int);
                    lemma_skip_skip(t0, 1 + p.1 as int, 1);
                },
                Err(_) => {
                    assert(false);
                },
            }
        }
        return Ok(Factor::Expr(Box::new(e)));
    }
    let v = match number(tokens) {
        Ok(v) => v,
        Err(e) => return Err(e),
    };
    Ok(Factor::Number(v))
}

/// The `('*' factor)*` continuation chain of a term.
fn term_opt(tokens: &mut Vec<Token>) -> (r: Result<TermOpt, ParseError>)
    ensures
        match sp_term_opt(toks(old(tokens)@)) {
            Ok(p) => r matches Ok(o) && termopt_model(o) == p.0 && p.1 <= old(tokens)@.len()
                && final(tokens)@ == old(tokens)@.skip(p.1 as int),
            Err(pe) => r matches Err(x) && x@ == pe,
        },
    decreases old(tokens)@.len(), 2int,
{
    let ghost t0 = tokens@;
    let ghost ts0 = toks(tokens@);
    let star = match try_eat(tokens, TokenType::Multiplication) {
        Ok(o) => o,
        Err(e) => return Err(e),
    };
    if star.is_some() {
        proof {
            assert(ts0[0] == t0[0]@);
            lemma_toks_skip(t0, 1);
        }
        let ghost t1 = t0.skip(1);
        let f = match factor(tokens) {
            Ok(f) => f,
            Err(e) => return Err(e),
        };
        proof {
            match sp_factor(ts0.skip(1)) {
                Ok(p) => {
                    lemma_toks_skip(t1, p.1 as int);
                },
                Err(_) => {
                    assert(false);
                },
            }
        }
        let rest = match term_opt(tokens) {
            Ok(o) => o,
            Err(e) => return Err(e),
        };
        proof {
            match sp_factor(ts0.skip(1)) {
                Ok(p) => match sp_term_opt(ts0.skip(1).skip(p.1 as int)) {
                    Ok(q) => {
                        lemma_skip_skip(t1, p.1 as int, q.1 as int);
                        lemma_skip_skip(t0, 1, p.1 as int + q.1 as int);
                    },
                    Err(_) => {
                        assert(false);
                    },
                },
                Err(_) => {
                    assert(false);
                },
            }
        }
        Ok(TermOpt::TermOpt(f, Box::new(rest)))
    } else {
        Ok(TermOpt::Empty)
    }
}

/// `term := factor ('*' factor)*`.
fn term(tokens: &mut Vec<Token>) -> (r: Result<Term, ParseError>)
    ensures
        match sp_term(toks(old(tokens)@)) {
            Ok(p) => r matches Ok(t) && term_model(t) == p.0 && p.1 <= old(tokens)@.len()
                && final(tokens)@ == old(tokens)@.skip(p.1 as int),
            Err(pe) => r matches Err(x) && x@ == pe,
        },
    decreases old(tokens)@.len(), 3int,
{
    let ghost t0 = tokens@;
    let ghost ts0 = toks(tokens@);
    let f = match factor(tokens) {
        Ok(f) => f,
        Err(e) => return Err(e),
    };
    proof {
        match sp_factor(ts0) {
            Ok(p) => {
                lemma_toks_skip(t0, p.1 as int);
            },
            Err(_) => {
                assert(false);
            },
        }
    }
    let o = match term_opt(tokens) {
        Ok(o) => o,
        Err(e) => return Err(e),
    };
    proof {
        match sp_factor(ts0) {
            Ok(p) => match sp_term_opt(ts0.skip(p.1 as int)) {
                Ok(q) => {
                    lemma_skip_skip(t0, p.1 as int, q.1 as int);
                },
                Err(_) => {
                    assert(false);
                },
            },
            Err(_) => {
                assert(false);
            },
        }
    }
    Ok(Term { factor: f, opt: o })
}

/// The `(( '+' | '-' ) term)*` continuation chain of an expression.
fn expr_opt(tokens: &mut Vec<Token>) -> (r: Result<Vec<(ExprOperation, Term)>, ParseError>)
    ensures
        match sp_expr_opt(toks(old(tokens)@)) {
            Ok(p) => r matches Ok(v) && opts_model(v@) == p.0 && p.1 <= old(tokens)@.len()
                && final(tokens)@ == old(tokens)@.skip(p.1 as int),
            Err(pe) => r matches Err(x) && x@ == pe,
        },
    decreases old(tokens)@.len(), 4int,
{
    let ghost t0 = tokens@;
    let ghost ts0 = toks(tokens@);
    let plus = match try_eat(tokens, TokenType::Addition) {
        Ok(o) => o,
        Err(e) => return Err(e),
    };
    let op_found: Option<ExprOperation> = if plus.is_some() {
        Some(ExprOperation::Addition)
    } else {
        let minus = match try_eat(tokens, TokenType::Subtraction) {
            Ok(o) => o,
            Err(e) => return Err(e),
        };
        if minus.is_some() {
            Some(ExprOperation::Subtraction)
        } else {
            None
        }
    };
    match op_found {
        None => {
            let out: Vec<(ExprOperation, Term)> = Vec::new();
            proof {
                assert(opts_model(out@) == Seq::<(ExprOperation, SpecTerm)>::empty());
            }
            Ok(out)
        },
        Some(op) => {
            proof {
                assert(ts0[0] == t0[0]@);
                lemma_toks_skip(t0, 1);
            }
            let ghost t1 = t0.skip(1);
            let t = match term(tokens) {
                Ok(t) => t,
                Err(e) => return Err(e),
            };
            proof {
                match sp_term(ts0.skip(1)) {
                    Ok(p) => {
                        lemma_toks_skip(t1, p.1 as int);
                    },
                    Err(_) => {
                        assert(false);
                    },
                }
            }
            let rest = match expr_opt(tokens) {
                Ok(v) => v,
                Err(e) => return Err(e),
            };
            let ghost pr = rest@;
            let mut out = rest;
            out.insert(0, (op, t));
            proof {
                assert(out@[0] == (op, t));
                assert(out@.skip(1) =~= pr);
                assert(opts_model(out@) == seq![(out@[0].0, term_model(out@[0].1))]
                    + opts_model(out@.skip(1)));
                match sp_term(ts0.skip(1)) {
                    Ok(p) => match sp_expr_opt(ts0.skip(1).skip(p.1 as int)) {
                        Ok(q) => {
                            lemma_skip_skip(t1, p.1 as int, q.1 as int);
                            lemma_skip_skip(t0, 1, p.1 as int + q.1 as int);
                            assert(opts_model(out@) == seq![(op, p.0)] + q.0);
                        },
                        Err(_) => {
                            assert(false);
                        },
                    },
                    Err(_) => {
                        assert(false);
                    },
                }
            }
            Ok(out)
        },
    }
}

/// `expr := term (( '+' | '-' ) term)*`.
fn expr(tokens: &mut Vec<Token>) -> (r: Result<Expr, ParseError>)
    ensures
        match sp_expr(toks(old(tokens)@)) {
            Ok(p) => r matches Ok(e) && expr_model(e) == p.0 && p.1 <= old(tokens)@.len()
                && final(tokens)@ == old(tokens)@.skip(p.1 as int),
            Err(pe) => r matches Err(x) && x@ == pe,
        },
    decreases old(tokens)@.len(), 5int,
{
    let ghost t0 = tokens@;
    let ghost ts0 = toks(tokens@);
    let t = match term(tokens) {
        Ok(t) => t,
        Err(e) => return Err(e),
    };
    proof {
        match sp_term(ts0) {
            Ok(p) => {
                lemma_toks_skip(t0, p.1 as int);
            },
            Err(_) => {
                assert(false);
            },
        }
    }
    let opts = match expr_opt(tokens) {
        Ok(v) => v,
        Err(e) => return Err(e),
    };
    let out = Expr { term: t, opts };
    proof {
        match sp_term(ts0) {
            Ok(p) => match sp_expr_opt(ts0.skip(p.1 as int)) {
                Ok(q) => {
                    lemma_skip_skip(t0, p.1 as int, q.1 as int);
                    assert(expr_model(out) == SpecExpr { term: p.0, opts: q.0 });
                },
                Err(_) => {
                    assert(false);
                },
            },
            Err(_) => {
                assert(false);
            },
        }
    }
    Ok(out)
}

/// The texts of the tokens from `k` on, space-joined.
fn join_tokens(tokens: &Vec<Token>, k: usize) -> (r: String)
    requires
        k <= tokens@.len(),
    ensures
        r@ == joined_from(toks(tokens@), k as int),
    decreases tokens@.len() - k,
{
    if k >= tokens.len() {
        let out = String::new();
        proof {
            assert(out@ =~= joined_from(toks(tokens@), k as int));
        }
        out
    } else if k == tokens.len() - 1 {
        let out = tokens[k].value.clone();
        proof {
            assert(toks(tokens@)[k as int].value == tokens@[k as int].value@);
        }
        out
    } else {
        let mut s = tokens[k].value.clone();
        s.append(" ");
        let rest = join_tokens(tokens, k + 1);
        s.append(rest.as_str());
        proof {
            reveal_strlit(" ");
            assert(" "@ =~= seq![' ']);
            assert(toks(tokens@)[k as int].value == tokens@[k as int].value@);
            assert(s@ == toks(tokens@)[k as int].value + seq![' '] + joined_from(
                toks(tokens@),
                k as int + 1,
            ));
        }
        s
    }
}

/// Parse a whole token sequence into one expression tree; tokens that remain
/// after the expression are the trailing-tokens error, their texts
/// space-joined.
pub fn parse(tokens: Vec<Token>) -> (r: Result<Expr, ParseError>)
    ensures
        match sp_parse(toks(tokens@)) {
            Ok(es) => r matches Ok(e) && expr_model(e) == es,
            Err(pe) => r matches Err(x) && x@ == pe,
        },
{
    let ghost ts0 = toks(tokens@);
    let mut rest = tokens;
    let ghost t0 = rest@;
    let e = match expr(&mut rest) {
        Ok(e) => e,
        Err(x) => return Err(x),
    };
    if rest.len() > 0 {
        proof {
            match sp_expr(ts0) {
                Ok(p) => {
                    lemma_toks_skip(t0, p.1 as int);
                },
                Err(_) => {
                    assert(false);
                },
            }
        }
        let msg = join_tokens(&rest, 0);
        return Err(ParseError::TrailingTokens { remaining: msg });
    }
    Ok(e)
}

/// Token sequences that agree in kind and text, wherever they stand in the
/// line: positions may differ.
pub open spec fn same_tokens(a: Seq<SpecToken>, b: Seq<SpecToken>) -> bool {
    &&& a.len() == b.len()
    &&& forall|i: int|
        #![trigger a[i], b[i]]
        0 <= i < a.len() ==> a[i].ttype == b[i].ttype && a[i].value == b[i].value
}

proof fn lemma_same_tokens_skip(a: Seq<SpecToken>, b: Seq<SpecToken>, k: int)
    requires
        same_tokens(a, b),
        0 <= k <= a.len(),
    ensures
        same_tokens(a.skip(k), b.skip(k)),
{
    assert forall|i: int|
        0 <= i < a.skip(k).len() implies a.skip(k)[i].ttype == b.skip(k)[i].ttype && a.skip(
        k,
    )[i].value == b.skip(k)[i].value by {
        assert(a.skip(k)[i] == a[k + i]);
        assert(b.skip(k)[i] == b[k + i]);
    }
}

proof fn lemma_sp_factor_pos_free(a: Seq<SpecToken>, b: Seq<SpecToken>)
    requires
        same_tokens(a, b),
    ensures
        match (sp_factor(a), sp_factor(b)) {
            (Ok(p), Ok(q)) => p == q,
            (Err(_), Err(_)) => true,
            _ => false,
        },
    decreases a.len(), 1int,
{
    if a.len() > 0 {
        assert(a[0].ttype == b[0].ttype && a[0].value == b[0].value);
    }
    if a.len() > 0 && a[0].ttype == TokenType::Addition {
        lemma_same_tokens_skip(a, b, 1);
        lemma_sp_factor_pos_free(a.skip(1), b.skip(1));
    } else if a.len() > 0 && a[0].ttype == TokenType::Subtraction {
        lemma_same_tokens_skip(a, b, 1);
        lemma_sp_factor_pos_free(a.skip(1), b.skip(1));
    } else if a.len() > 0 && a[0].ttype == TokenType::OpeningParen {
        lemma_same_tokens_skip(a, b, 1);
        lemma_sp_expr_pos_free(a.skip(1), b.skip(1));
        match (sp_expr(a.skip(1)), sp_expr(b.skip(1))) {
            (Ok(p), Ok(q)) => {
                let k: int = if p.1 <= a.skip(1).len() {
                    p.1 as int
                } else {
                    a.skip(1).len() as int
                };
                assert(advance(a.skip(1), p.1) == a.skip(1).skip(k));
                assert(advance(b.skip(1), q.1) == b.skip(1).skip(k));
                lemma_same_tokens_skip(a.skip(1), b.skip(1), k);
                let ra = advance(a.skip(1), p.1);
                let rb = advance(b.skip(1), q.1);
                if ra.len() > 0 {
                    assert(ra[0].ttype == rb[0].ttype);
                }
            },
            (Err(_), Err(_)) => {},
            _ => {
                assert(false);
            },
        }
    } else {
    }
}

proof fn lemma_sp_term_opt_pos_free(a: Seq<SpecToken>, b: Seq<SpecToken>)
    requires
        same_tokens(a, b),
    ensures
        match (sp_term_opt(a), sp_term_opt(b)) {
            (Ok(p), Ok(q)) => p == q,
            (Err(_), Err(_)) => true,
            _ => false,
        },
    decreases a.len(), 2int,
{
    if a.len() > 0 {
        assert(a[0].ttype == b[0].ttype && a[0].value == b[0].value);
    }
    if a.len() > 0 && a[0].ttype == TokenType::Multiplication {
        lemma_same_tokens_skip(a, b, 1);
        lemma_sp_factor_pos_free(a.skip(1), b.skip(1));
        match (sp_factor(a.skip(1)), sp_factor(b.skip(1))) {
            (Ok(p), Ok(q)) => {
                let k: int = if p.1 <= a.skip(1).len() {
                    p.1 as int
                } else {
                    a.skip(1).len() as int
                };
                assert(advance(a.skip(1), p.1) == a.skip(1).skip(k));
                assert(advance(b.skip(1), q.1) == b.skip(1).skip(k));
                lemma_same_tokens_skip(a.skip(1), b.skip(1), k);
                lemma_sp_term_opt_pos_free(advance(a.skip(1), p.1), advance(b.skip(1), q.1));
            },
            (Err(_), Err(_)) => {},
            _ => {
                assert(false);
            },
        }
    }
}

proof fn lemma_sp_term_pos_free(a: Seq<SpecToken>, b: Seq<SpecToken>)
    requires
        same_tokens(a, b),
    ensures
        match (sp_term(a), sp_term(b)) {
            (Ok(p), Ok(q)) => p == q,
            (Err(_), Err(_)) => true,
            _ => false,
        },
    decreases a.len(), 3int,
{
    lemma_sp_factor_pos_free(a, b);
    match (sp_factor(a), sp_factor(b)) {
        (Ok(p), Ok(q)) => {
            let k: int = if p.1 <= a.len() {
                p.1 as int
            } else {
                a.len() as int
            };
            assert(advance(a, p.1) == a.skip(k));
            assert(advance(b, q.1) == b.skip(k));
            lemma_same_tokens_skip(a, b, k);
            lemma_sp_term_opt_pos_free(advance(a, p.1), advance(b, q.1));
        },
        (Err(_), Err(_)) => {},
        _ => {
            assert(false);
        },
    }
}

proof fn lemma_sp_expr_opt_pos_free(a: Seq<SpecToken>, b: Seq<SpecToken>)
    requires
        same_tokens(a, b),
    ensures
        match (sp_expr_opt(a), sp_expr_opt(b)) {
            (Ok(p), Ok(q)) => p == q,
            (Err(_), Err(_)) => true,
            _ => false,
        },
    decreases a.len(), 4int,
{
    if a.len() > 0 {
        assert(a[0].ttype == b[0].ttype && a[0].value == b[0].value);
    }
    if a.len() > 0 && (a[0].ttype == TokenType::Addition || a[0].ttype
        == TokenType::Subtraction) {
        lemma_same_tokens_skip(a, b, 1);
        lemma_sp_term_pos_free(a.skip(1), b.skip(1));
        match (sp_term(a.skip(1)), sp_term(b.skip(1))) {
            (Ok(p), Ok(q)) => {
                let k: int = if p.1 <= a.skip(1).len() {
                    p.1 as int
                } else {
                    a.skip(1).len() as int
                };
                assert(advance(a.skip(1), p.1) == a.skip(1).skip(k));
                assert(advance(b.skip(1), q.1) == b.skip(1).skip(k));
                lemma_same_tokens_skip(a.skip(1), b.skip(1), k);
                lemma_sp_expr_opt_pos_free(advance(a.skip(1), p.1), advance(b.skip(1), q.1));
            },
            (Err(_), Err(_)) => {},
            _ => {
                assert(false);
            },
        }
    }
}

proof fn lemma_sp_expr_pos_free(a: Seq<SpecToken>, b: Seq<SpecToken>)
    requires
        same_tokens(a, b),
    ensures
        match (sp_expr(a), sp_expr(b)) {
            (Ok(p), Ok(q)) => p == q,
            (Err(_), Err(_)) => true,
            _ => false,
        },
    decreases a.len(), 5int,
{
    lemma_sp_term_pos_free(a, b);
    match (sp_term(a), sp_term(b)) {
        (Ok(p), Ok(q)) => {
            let k: int = if p.1 <= a.len() {
                p.1 as int
            } else {
                a.len() as int
            };
            assert(advance(a, p.1) == a.skip(k));
            assert(advance(b, q.1) == b.skip(k));
            lemma_same_tokens_skip(a, b, k);
            lemma_sp_expr_opt_pos_free(advance(a, p.1), advance(b, q.1));
        },
        (Err(_), Err(_)) => {},
        _ => {
            assert(false);
        },
    }
}

/// The parse tree depends on the tokens' kinds and texts alone, never on
/// their positions: sequences that agree in kind and text parse to the same
/// tree, or both fail.
pub proof fn lemma_sp_parse_pos_free(a: Seq<SpecToken>, b: Seq<SpecToken>)
    requires
        same_tokens(a, b),
    ensures
        match (sp_parse(a), sp_parse(b)) {
            (Ok(e1), Ok(e2)) => e1 == e2,
            (Err(_), Err(_)) => true,
            _ => false,
        },
{
    lemma_sp_expr_pos_free(a, b);
    match (sp_expr(a), sp_expr(b)) {
        (Ok(p), Ok(q)) => {
            assert(advance(a, p.1).len() == advance(b, q.1).len());
        },
        (Err(_), Err(_)) => {},
        _ => {
            assert(false);
        },
    }
}

proof fn lemma_sp_factor_consumes(ts: Seq<SpecToken>)
    ensures
        match sp_factor(ts) {
            Ok(p) => p.1 <= ts.len() && forall|i: int|
                0 <= i < p.1 ==> (#[trigger] ts[i]).ttype != TokenType::Identifier,
            Err(_) => true,
        },
    decreases ts.len(), 1int,
{
    if ts.len() > 0 && (ts[0].ttype == TokenType::Addition || ts[0].ttype
        == TokenType::Subtraction) {
        lemma_sp_factor_consumes(ts.skip(1));
        match sp_factor(ts.skip(1)) {
            Ok(p) => {
                assert forall|i: int|
                    0 <= i < 1 + p.1 implies (#[trigger] ts[i]).ttype != TokenType::Identifier by {
                    if 1 <= i {
                        assert(ts.skip(1)[i - 1] == ts[i]);
                    }
                }
            },
            Err(_) => {},
        }
    } else if ts.len() > 0 && ts[0].ttype == TokenType::OpeningParen {
        lemma_sp_expr_consumes(ts.skip(1));
        match sp_expr(ts.skip(1)) {
            Ok(p) => {
                match sp_eat(advance(ts.skip(1), p.1), TokenType::ClosingParen) {
                    Ok(_) => {
                        assert(advance(ts.skip(1), p.1).len() > 0);
                        assert(advance(ts.skip(1), p.1)[0] == ts[1 + p.1 as int]);
                        assert forall|i: int|
                            0 <= i < 2 + p.1 implies (#[trigger] ts[i]).ttype
                            != TokenType::Identifier by {
                            if 1 <= i < 1 + p.1 {
                                assert(ts.skip(1)[i - 1] == ts[i]);
                            }
                        }
                    },
                    Err(_) => {},
                }
            },
            Err(_) => {},
        }
    } else {
    }
}

proof fn lemma_sp_term_opt_consumes(ts: Seq<SpecToken>)
    ensures
        match sp_term_opt(ts) {
            Ok(p) => p.1 <= ts.len() && forall|i: int|
                0 <= i < p.1 ==> (#[trigger] ts[i]).ttype != TokenType::Identifier,
            Err(_) => true,
        },
    decreases ts.len(), 2int,
{
    if ts.len() > 0 && ts[0].ttype == TokenType::Multiplication {
        lemma_sp_factor_consumes(ts.skip(1));
        match sp_factor(ts.skip(1)) {
            Ok(p) => {
                lemma_sp_term_opt_consumes(advance(ts.skip(1), p.1));
                match sp_term_opt(advance(ts.skip(1), p.1)) {
                    Ok(q) => {
                        assert forall|i: int|
                            0 <= i < 1 + p.1 + q.1 implies (#[trigger] ts[i]).ttype
                            != TokenType::Identifier by {
                            if 1 <= i < 1 + p.1 {
                                assert(ts.skip(1)[i - 1] == ts[i]);
                            } else if 1 + p.1 <= i {
                                assert(advance(ts.skip(1), p.1)[i - 1 - p.1] == ts[i]);
                            }
                        }
                    },
                    Err(_) => {},
                }
            },
            Err(_) => {},
        }
    }
}

proof fn lemma_sp_term_consumes(ts: Seq<SpecToken>)
    ensures
        match sp_term(ts) {
            Ok(p) => p.1 <= ts.len() && forall|i: int|
                0 <= i < p.1 ==> (#[trigger] ts[i]).ttype != TokenType::Identifier,
            Err(_) => true,
        },
    decreases ts.len(), 3int,
{
    lemma_sp_factor_consumes(ts);
    match sp_factor(ts) {
        Ok(p) => {
            lemma_sp_term_opt_consumes(advance(ts, p.1));
            match sp_term_opt(advance(ts, p.1)) {
                Ok(q) => {
                    assert forall|i: int|
                        0 <= i < p.1 + q.1 implies (#[trigger] ts[i]).ttype
                        != TokenType::Identifier by {
                        if p.1 <= i {
                            assert(advance(ts, p.1)[i - p.1] == ts[i]);
                        }
                    }
                },
                Err(_) => {},
            }
        },
        Err(_) => {},
    }
}

proof fn lemma_sp_expr_opt_consumes(ts: Seq<SpecToken>)
    ensures
        match sp_expr_opt(ts) {
            Ok(p) => p.1 <= ts.len() && forall|i: int|
                0 <= i < p.1 ==> (#[trigger] ts[i]).ttype != TokenType::Identifier,
            Err(_) => true,
        },
    decreases ts.len(), 4int,
{
    if ts.len() > 0 && (ts[0].ttype == TokenType::Addition || ts[0].ttype
        == TokenType::Subtraction) {
        lemma_sp_term_consumes(ts.skip(1));
        match sp_term(ts.skip(1)) {
            Ok(p) => {
                lemma_sp_expr_opt_consumes(advance(ts.skip(1), p.1));
                match sp_expr_opt(advance(ts.skip(1), p.1)) {
                    Ok(q) => {
                        assert forall|i: int|
                            0 <= i < 1 + p.1 + q.1 implies (#[trigger] ts[i]).ttype
                            != TokenType::Identifier by {
                            if 1 <= i < 1 + p.1 {
                                assert(ts.skip(1)[i - 1] == ts[i]);
                            } else if 1 + p.1 <= i {
                                assert(advance(ts.skip(1), p.1)[i - 1 - p.1] == ts[i]);
                            }
                        }
                    },
                    Err(_) => {},
                }
            },
            Err(_) => {},
        }
    }
}

proof fn lemma_sp_expr_consumes(ts: Seq<SpecToken>)
    ensures
        match sp_expr(ts) {
            Ok(p) => p.1 <= ts.len() && forall|i: int|
                0 <= i < p.1 ==> (#[trigger] ts[i]).ttype != TokenType::Identifier,
            Err(_) => true,
        },
    decreases ts.len(), 5int,
{
    lemma_sp_term_consumes(ts);
    match sp_term(ts) {
        Ok(p) => {
            lemma_sp_expr_opt_consumes(advance(ts, p.1));
            match sp_expr_opt(advance(ts, p.1)) {
                Ok(q) => {
                    assert forall|i: int|
                        0 <= i < p.1 + q.1 implies (#[trigger] ts[i]).ttype
                        != TokenType::Identifier by {
                        if p.1 <= i {
                            assert(advance(ts, p.1)[i - p.1] == ts[i]);
                        }
                    }
                },
                Err(_) => {},
            }
        },
        Err(_) => {},
    }
}

/// A fully parsed sequence was consumed whole by `sp_expr`, and holds no
/// identifier token.
pub(crate) proof fn lemma_sp_parse_whole(ts: Seq<SpecToken>)
    ensures
        match sp_parse(ts) {
            Ok(e) => sp_expr(ts) == Ok::<(SpecExpr, nat), SpecParseError>((e, ts.len() as nat))
                && no_identifier(ts),
            Err(_) => true,
        },
{
    lemma_sp_expr_consumes(ts);
    match sp_parse(ts) {
        Ok(e) => {
            match sp_expr(ts) {
                Ok(p) => {
                    assert(advance(ts, p.1).len() == 0);
                    assert(p.1 == ts.len());
                },
                Err(_) => {
                    assert(false);
                },
            }
        },
        Err(_) => {},
    }
}

proof fn lemma_skip_concat(u: Seq<SpecToken>, v: Seq<SpecToken>, k: int)
    requires
        0 <= k <= u.len(),
    ensures
        (u + v).skip(k) == u.skip(k) + v,
{
    assert((u + v).skip(k) =~= u.skip(k) + v);
}

proof fn lemma_sp_factor_extend(ts: Seq<SpecToken>, suf: Seq<SpecToken>)
    ensures
        match sp_factor(ts) {
            Ok(p) => sp_factor(ts + suf) == Ok::<(SpecFactor, nat), SpecParseError>(p),
            Err(_) => true,
        },
    decreases ts.len(), 1int,
{
    let w = ts + suf;
    if ts.len() > 0 {
        assert(w[0] == ts[0]);
    }
    if ts.len() > 0 && (ts[0].ttype == TokenType::Addition || ts[0].ttype
        == TokenType::Subtraction) {
        lemma_sp_factor_extend(ts.skip(1), suf);
        lemma_skip_concat(ts, suf, 1);
    } else if ts.len() > 0 && ts[0].ttype == TokenType::OpeningParen {
        lemma_skip_concat(ts, suf, 1);
        lemma_sp_expr_consumes(ts.skip(1));
        lemma_sp_expr_extend(ts.skip(1), suf);
        match sp_expr(ts.skip(1)) {
            Ok(p) => {
                match sp_eat(advance(ts.skip(1), p.1), TokenType::ClosingParen) {
                    Ok(_) => {
                        assert(advance(ts.skip(1), p.1).len() > 0);
                        assert(p.1 < ts.skip(1).len());
                        lemma_skip_concat(ts.skip(1), suf, p.1 as int);
                        assert(advance(ts.skip(1) + suf, p.1) == ts.skip(1).skip(p.1 as int)
                            + suf);
                        assert((ts.skip(1).skip(p.1 as int) + suf)[0] == ts.skip(1).skip(
                            p.1 as int,
                        )[0]);
                    },
                    Err(_) => {},
                }
            },
            Err(_) => {},
        }
    } else {
        if ts.len() == 0 {
        } else {
        }
    }
}

proof fn lemma_sp_term_opt_extend(ts: Seq<SpecToken>, suf: Seq<SpecToken>)
    ensures
        match sp_term_opt(ts) {
            Ok(p) => (p.1 == ts.len() ==> suf.len() == 0 || suf[0].ttype
                != TokenType::Multiplication) ==> sp_term_opt(ts + suf) == Ok::<
                (SpecTermOpt, nat),
                SpecParseError,
            >(p),
            Err(_) => true,
        },
    decreases ts.len(), 2int,
{
    let w = ts + suf;
    if ts.len() > 0 {
        assert(w[0] == ts[0]);
    }
    if ts.len() > 0 && ts[0].ttype == TokenType::Multiplication {
        lemma_skip_concat(ts, suf, 1);
        lemma_sp_factor_consumes(ts.skip(1));
        lemma_sp_factor_extend(ts.skip(1), suf);
        match sp_factor(ts.skip(1)) {
            Ok(p) => {
                lemma_skip_concat(ts.skip(1), suf, p.1 as int);
                assert(advance(ts.skip(1) + suf, p.1) == advance(ts.skip(1), p.1) + suf);
                lemma_sp_term_opt_consumes(advance(ts.skip(1), p.1));
                lemma_sp_term_opt_extend(advance(ts.skip(1), p.1), suf);
            },
            Err(_) => {},
        }
    }
}

proof fn lemma_sp_term_extend(ts: Seq<SpecToken>, suf: Seq<SpecToken>)
    ensures
        match sp_term(ts) {
            Ok(p) => (p.1 == ts.len() ==> suf.len() == 0 || suf[0].ttype
                != TokenType::Multiplication) ==> sp_term(ts + suf) == Ok::<
                (SpecTerm, nat),
                SpecParseError,
            >(p),
            Err(_) => true,
        },
    decreases ts.len(), 3int,
{
    lemma_sp_factor_consumes(ts);
    lemma_sp_factor_extend(ts, suf);
    match sp_factor(ts) {
        Ok(p) => {
            lemma_skip_concat(ts, suf, p.1 as int);
            assert(advance(ts + suf, p.1) == advance(ts, p.1) + suf);
            lemma_sp_term_opt_consumes(advance(ts, p.1));
            lemma_sp_term_opt_extend(advance(ts, p.1), suf);
        },
        Err(_) => {},
    }
}

proof fn lemma_sp_expr_opt_extend(ts: Seq<SpecToken>, suf: Seq<SpecToken>)
    ensures
        match sp_expr_opt(ts) {
            Ok(p) => (p.1 == ts.len() ==> suf.len() == 0 || (suf[0].ttype
                != TokenType::Addition && suf[0].ttype != TokenType::Subtraction && suf[0].ttype
                != TokenType::Multiplication)) ==> sp_expr_opt(ts + suf) == Ok::<
                (Seq<(ExprOperation, SpecTerm)>, nat),
                SpecParseError,
            >(p),
            Err(_) => true,
        },
    decreases ts.len(), 4int,
{
    let w = ts + suf;
    if ts.len() > 0 {
        assert(w[0] == ts[0]);
    }
    if ts.len() > 0 && (ts[0].ttype == TokenType::Addition || ts[0].ttype
        == TokenType::Subtraction) {
        lemma_skip_concat(ts, suf, 1);
        lemma_sp_term_consumes(ts.skip(1));
        lemma_sp_term_extend(ts.skip(1), suf);
        match sp_term(ts.skip(1)) {
            Ok(p) => {
                lemma_skip_concat(ts.skip(1), suf, p.1 as int);
                assert(advance(ts.skip(1) + suf, p.1) == advance(ts.skip(1), p.1) + suf);
                lemma_sp_expr_opt_consumes(advance(ts.skip(1), p.1));
                lemma_sp_expr_opt_extend(advance(ts.skip(1), p.1), suf);
            },
            Err(_) => {},
        }
    }
}

proof fn lemma_sp_expr_extend(ts: Seq<SpecToken>, suf: Seq<SpecToken>)
    ensures
        match sp_expr(ts) {
            Ok(p) => (p.1 == ts.len() ==> suf.len() == 0 || (suf[0].ttype
                != TokenType::Addition && suf[0].ttype != TokenType::Subtraction && suf[0].ttype
                != TokenType::Multiplication)) ==> sp_expr(ts + suf) == Ok::<
                (SpecExpr, nat),
                SpecParseError,
            >(p),
            Err(_) => true,
        },
    decreases ts.len(), 5int,
{
    lemma_sp_term_consumes(ts);
    lemma_sp_term_extend(ts, suf);
    match sp_term(ts) {
        Ok(p) => {
            lemma_skip_concat(ts, suf, p.1 as int);
            assert(advance(ts + suf, p.1) == advance(ts, p.1) + suf);
            lemma_sp_expr_opt_consumes(advance(ts, p.1));
            lemma_sp_expr_opt_extend(advance(ts, p.1), suf);
        },
        Err(_) => {},
    }
}

/// The tree that a line of the shape `( a ) op ( b )` parses to: for `+` and
/// `-` one chain link, for `*` one product link, each operand a
/// parenthesized group.
pub open spec fn composed_tree(ea: SpecExpr, eb: SpecExpr, opk: TokenType) -> SpecExpr {
    if opk == TokenType::Multiplication {
        SpecExpr {
            term: SpecTerm {
                factor: SpecFactor::Subexpr(Box::new(ea)),
                opt: SpecTermOpt::Chain(
                    SpecFactor::Subexpr(Box::new(eb)),
                    Box::new(SpecTermOpt::Empty),
                ),
            },
            opts: Seq::empty(),
        }
    } else {
        let op = if opk == TokenType::Addition {
            ExprOperation::Addition
        } else {
            ExprOperation::Subtraction
        };
        SpecExpr {
            term: SpecTerm { factor: SpecFactor::Subexpr(Box::new(ea)), opt: SpecTermOpt::Empty },
            opts: seq![
                (op, SpecTerm { factor: SpecFactor::Subexpr(Box::new(eb)), opt: SpecTermOpt::Empty }),
            ],
        }
    }
}

/// Two fully parsed operand sequences, wrapped in parentheses and joined by
/// one operator token, parse as one expression: the operator applied to the
/// two groups.
pub proof fn lemma_sp_parse_composition(
    ta: Seq<SpecToken>,
    tb: Seq<SpecToken>,
    ea: SpecExpr,
    eb: SpecExpr,
    o1: SpecToken,
    c1: SpecToken,
    p: SpecToken,
    o2: SpecToken,
    c2: SpecToken,
)
    requires
        sp_parse(ta) == Ok::<SpecExpr, SpecParseError>(ea),
        sp_parse(tb) == Ok::<SpecExpr, SpecParseError>(eb),
        o1.ttype == TokenType::OpeningParen,
        o2.ttype == TokenType::OpeningParen,
        c1.ttype == TokenType::ClosingParen,
        c2.ttype == TokenType::ClosingParen,
        p.ttype == TokenType::Addition || p.ttype == TokenType::Subtraction || p.ttype
            == TokenType::Multiplication,
    ensures
        sp_parse(seq![o1] + ta + seq![c1] + seq![p] + seq![o2] + tb + seq![c2]) == Ok::<
            SpecExpr,
            SpecParseError,
        >(composed_tree(ea, eb, p.ttype)),
{
    let ts = seq![o1] + ta + seq![c1] + seq![p] + seq![o2] + tb + seq![c2];
    let gb = seq![o2] + tb + seq![c2];
    let suf_a = seq![c1] + seq![p] + gb;
    let la = ta.len() as int;
    let lb = tb.len() as int;
    lemma_sp_parse_whole(ta);
    lemma_sp_parse_whole(tb);

    // The first group: `( a )` is a factor, consuming la + 2 tokens of ts.
    assert(ts.len() == la + lb + 5);
    assert(ts[0] == o1);
    assert(ts.skip(1) =~= ta + suf_a);
    assert(suf_a[0] == c1);
    lemma_sp_expr_extend(ta, suf_a);
    assert(sp_expr(ta + suf_a) == Ok::<(SpecExpr, nat), SpecParseError>((ea, ta.len())));
    lemma_skip_concat(ta, suf_a, la);
    assert(ta.skip(la) + suf_a =~= suf_a);
    assert(advance(ta + suf_a, ta.len()) == suf_a);
    assert(sp_eat(suf_a, TokenType::ClosingParen) == Ok::<SpecToken, SpecParseError>(c1));
    let fa = SpecFactor::Subexpr(Box::new(ea));
    assert(sp_factor(ts) == Ok::<(SpecFactor, nat), SpecParseError>((fa, (2 + ta.len()) as nat)));

    // The second group: `( b )` is a factor on its own, consumed whole.
    assert(gb[0] == o2);
    assert(gb.skip(1) =~= tb + seq![c2]);
    assert((tb + seq![c2])[tb.len() as int] == c2);
    lemma_sp_expr_extend(tb, seq![c2]);
    assert(sp_expr(tb + seq![c2]) == Ok::<(SpecExpr, nat), SpecParseError>((eb, tb.len())));
    lemma_skip_concat(tb, seq![c2], lb);
    assert(tb.skip(lb) + seq![c2] =~= seq![c2]);
    assert(advance(tb + seq![c2], tb.len()) == seq![c2]);
    let fb = SpecFactor::Subexpr(Box::new(eb));
    assert(sp_factor(gb) == Ok::<(SpecFactor, nat), SpecParseError>((fb, (2 + tb.len()) as nat)));
    assert(gb.len() == 2 + tb.len());

    // What remains of ts after the first group: the operator, then `( b )`.
    let mid = seq![p] + gb;
    assert(ts.skip(2 + la) =~= mid);
    assert(advance(ts, (2 + ta.len()) as nat) == mid);
    assert(mid[0] == p);
    assert(mid.skip(1) =~= gb);
    assert(advance(gb, (2 + tb.len()) as nat) =~= Seq::<SpecToken>::empty());
    assert(sp_term_opt(Seq::<SpecToken>::empty()) == Ok::<(SpecTermOpt, nat), SpecParseError>(
        (SpecTermOpt::Empty, 0),
    ));
    assert(sp_expr_opt(Seq::<SpecToken>::empty()) == Ok::<
        (Seq<(ExprOperation, SpecTerm)>, nat),
        SpecParseError,
    >((Seq::empty(), 0)));

    if p.ttype == TokenType::Multiplication {
        // `( a ) * ( b )` is one term: the product of the two groups.
        assert(sp_term_opt(mid) == Ok::<(SpecTermOpt, nat), SpecParseError>(
            (
                SpecTermOpt::Chain(fb, Box::new(SpecTermOpt::Empty)),
                (1 + (2 + tb.len()) + 0) as nat,
            ),
        ));
        let whole_term = SpecTerm {
            factor: fa,
            opt: SpecTermOpt::Chain(fb, Box::new(SpecTermOpt::Empty)),
        };
        assert(sp_term(ts) == Ok::<(SpecTerm, nat), SpecParseError>(
            (whole_term, ((2 + ta.len()) + (3 + tb.len())) as nat),
        ));
        assert(advance(ts, ((2 + ta.len()) + (3 + tb.len())) as nat) =~= Seq::<
            SpecToken,
        >::empty());
        assert(sp_expr(ts) == Ok::<(SpecExpr, nat), SpecParseError>(
            (SpecExpr { term: whole_term, opts: Seq::empty() }, ts.len() as nat),
        ));
        assert(advance(ts, ts.len() as nat).len() == 0);
    } else {
        // `( a ) + ( b )` and `( a ) - ( b )`: two terms in one chain.
        assert(sp_term_opt(mid) == Ok::<(SpecTermOpt, nat), SpecParseError>(
            (SpecTermOpt::Empty, 0),
        ));
        let term_a = SpecTerm { factor: fa, opt: SpecTermOpt::Empty };
        assert(sp_term(ts) == Ok::<(SpecTerm, nat), SpecParseError>(
            (term_a, (2 + ta.len()) as nat),
        ));
        assert(sp_term_opt(advance(gb, (2 + tb.len()) as nat)) == Ok::<
            (SpecTermOpt, nat),
            SpecParseError,
        >((SpecTermOpt::Empty, 0)));
        let term_b = SpecTerm { factor: fb, opt: SpecTermOpt::Empty };
        assert(sp_term(gb) == Ok::<(SpecTerm, nat), SpecParseError>(
            (term_b, (2 + tb.len()) as nat),
        ));
        let op = if p.ttype == TokenType::Addition {
            ExprOperation::Addition
        } else {
            ExprOperation::Subtraction
        };
        assert(sp_expr_opt(mid) == Ok::<(Seq<(ExprOperation, SpecTerm)>, nat), SpecParseError>(
            (seq![(op, term_b)] + Seq::empty(), (1 + (2 + tb.len()) + 0) as nat),
        ));
        assert(seq![(op, term_b)] + Seq::<(ExprOperation, SpecTerm)>::empty() =~= seq![
            (op, term_b),
        ]);
        assert(sp_expr(ts) == Ok::<(SpecExpr, nat), SpecParseError>(
            (SpecExpr { term: term_a, opts: seq![(op, term_b)] }, ts.len() as nat),
        ));
        assert(advance(ts, ts.len() as nat).len() == 0);
    }
}

} // verus!

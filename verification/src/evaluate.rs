//! The evaluator: walks the syntax tree depth first and folds each chain
//! left to right, in source order.
//!
//! The tree's literals are integers, and sums, differences and products of
//! integers are integers, so the evaluator computes the exact value, with
//! `i64`-checked arithmetic: a step that leaves `i64`'s range yields `None`.
//! `eval_expr_int` states the exact mathematical value, `eval_expr_ck` the
//! checked fold, and `lemma_eval_expr_ck_exact` ties the two together.

use vstd::prelude::*;

use crate::lexer::{
    is_space_char, lemma_lex_wrapped_pair, lex, operator_token_type, shift_tokens, spec_lex,
    LexError, SpecToken, TokenType,
};
use crate::parser::{
    composed_tree, expr_model, factor_model, lemma_opts_model, lemma_sp_parse_composition,
    lemma_sp_parse_pos_free, lemma_sp_parse_whole, opts_model, parse,
    same_tokens, sp_parse, spec_flip, spec_neg_factor, term_model,
    termopt_model, Expr, ExprOperation, Factor, ParseError, SpecExpr, SpecFactor, SpecParseError,
    SpecTerm, SpecTermOpt, Term, TermOpt,
};

verus! {

/// The operator applied to a running value and the next term's value.
pub open spec fn apply_op(acc: int, op: ExprOperation, v: int) -> int {
    match op {
        ExprOperation::Addition => acc + v,
        ExprOperation::Subtraction => acc - v,
    }
}

/// The exact value of an expression: the leading term's value, then each
/// `(operator, term)` applied left to right.
pub open spec fn eval_expr_int(e: SpecExpr) -> int
    decreases e,
{
    eval_opts_int(eval_term_int(e.term), e.opts)
}

pub open spec fn eval_opts_int(acc: int, opts: Seq<(ExprOperation, SpecTerm)>) -> int
    decreases opts,
{
    if opts.len() == 0 {
        acc
    } else {
        eval_opts_int(apply_op(acc, opts[0].0, eval_term_int(opts[0].1)), opts.skip(1))
    }
}

/// The exact value of a term: the leading factor's value, then each further
/// factor multiplied in, left to right.
pub open spec fn eval_term_int(t: SpecTerm) -> int
    decreases t,
{
    eval_chain_int(eval_factor_int(t.factor), t.opt)
}

pub open spec fn eval_chain_int(acc: int, o: SpecTermOpt) -> int
    decreases o,
{
    match o {
        SpecTermOpt::Chain(f, rest) => eval_chain_int(acc * eval_factor_int(f), *rest),
        SpecTermOpt::Empty => acc,
    }
}

/// The exact value of a factor: the literal itself, or the value of the
/// parenthesized sub-expression.
pub open spec fn eval_factor_int(f: SpecFactor) -> int
    decreases f,
{
    match f {
        SpecFactor::Number(v) => v,
        SpecFactor::Subexpr(e) => eval_expr_int(*e),
    }
}

/// A value when it fits `i64`'s range, and `None` otherwise.
pub open spec fn ck(v: int) -> Option<int> {
    if i64::MIN <= v <= i64::MAX {
        Some(v)
    } else {
        None
    }
}

pub open spec fn ck_apply_op(acc: Option<int>, op: ExprOperation, v: Option<int>) -> Option<int> {
    match (acc, v) {
        (Some(a), Some(b)) => ck(apply_op(a, op, b)),
        _ => None,
    }
}

pub open spec fn ck_mul(acc: Option<int>, v: Option<int>) -> Option<int> {
    match (acc, v) {
        (Some(a), Some(b)) => ck(a * b),
        _ => None,
    }
}

/// The checked value of an expression: the same left-to-right folds as
/// `eval_expr_int`, with every step held to `i64`'s range.
pub open spec fn eval_expr_ck(e: SpecExpr) -> Option<int>
    decreases e,
{
    eval_opts_ck(eval_term_ck(e.term), e.opts)
}

pub open spec fn eval_opts_ck(acc: Option<int>, opts: Seq<(ExprOperation, SpecTerm)>) -> Option<
    int,
>
    decreases opts,
{
    if opts.len() == 0 {
        acc
    } else {
        eval_opts_ck(ck_apply_op(acc, opts[0].0, eval_term_ck(opts[0].1)), opts.skip(1))
    }
}

pub open spec fn eval_term_ck(t: SpecTerm) -> Option<int>
    decreases t,
{
    eval_chain_ck(eval_factor_ck(t.factor), t.opt)
}

pub open spec fn eval_chain_ck(acc: Option<int>, o: SpecTermOpt) -> Option<int>
    decreases o,
{
    match o {
        SpecTermOpt::Chain(f, rest) => eval_chain_ck(ck_mul(acc, eval_factor_ck(f)), *rest),
        SpecTermOpt::Empty => acc,
    }
}

pub open spec fn eval_factor_ck(f: SpecFactor) -> Option<int>
    decreases f,
{
    match f {
        SpecFactor::Number(v) => ck(v),
        SpecFactor::Subexpr(e) => eval_expr_ck(*e),
    }
}

/// The checked value of a bare product chain, seeded with one.
pub open spec fn eval_termopt_ck(o: SpecTermOpt) -> Option<int> {
    eval_chain_ck(Some(1), o)
}

proof fn lemma_opts_ck_none(opts: Seq<(ExprOperation, SpecTerm)>)
    ensures
        eval_opts_ck(None, opts) == None::<int>,
    decreases opts,
{
    if opts.len() > 0 {
        lemma_opts_ck_none(opts.skip(1));
    }
}

proof fn lemma_chain_ck_none(o: SpecTermOpt)
    ensures
        eval_chain_ck(None, o) == None::<int>,
    decreases o,
{
    match o {
        SpecTermOpt::Chain(f, rest) => {
            lemma_chain_ck_none(*rest);
        },
        SpecTermOpt::Empty => {},
    }
}

/// Where the checked fold succeeds, it computes the exact value.
pub proof fn lemma_eval_expr_ck_exact(e: SpecExpr)
    ensures
        match eval_expr_ck(e) {
            Some(v) => v == eval_expr_int(e),
            None => true,
        },
    decreases e,
{
    lemma_eval_term_ck_exact(e.term);
    match eval_term_ck(e.term) {
        Some(a) => {
            lemma_eval_opts_ck_exact(a, e.opts);
        },
        None => {
            lemma_opts_ck_none(e.opts);
        },
    }
}

proof fn lemma_eval_opts_ck_exact(a: int, opts: Seq<(ExprOperation, SpecTerm)>)
    ensures
        match eval_opts_ck(Some(a), opts) {
            Some(v) => v == eval_opts_int(a, opts),
            None => true,
        },
    decreases opts,
{
    if opts.len() > 0 {
        lemma_eval_term_ck_exact(opts[0].1);
        match eval_term_ck(opts[0].1) {
            Some(b) => {
                match ck(apply_op(a, opts[0].0, b)) {
                    Some(c) => {
                        lemma_eval_opts_ck_exact(c, opts.skip(1));
                    },
                    None => {
                        lemma_opts_ck_none(opts.skip(1));
                    },
                }
            },
            None => {
                lemma_opts_ck_none(opts.skip(1));
            },
        }
    }
}

proof fn lemma_eval_term_ck_exact(t: SpecTerm)
    ensures
        match eval_term_ck(t) {
            Some(v) => v == eval_term_int(t),
            None => true,
        },
    decreases t,
{
    lemma_eval_factor_ck_exact(t.factor);
    match eval_factor_ck(t.factor) {
        Some(a) => {
            lemma_eval_chain_ck_exact(a, t.opt);
        },
        None => {
            lemma_chain_ck_none(t.opt);
        },
    }
}

proof fn lemma_eval_chain_ck_exact(a: int, o: SpecTermOpt)
    ensures
        match eval_chain_ck(Some(a), o) {
            Some(v) => v == eval_chain_int(a, o),
            None => true,
        },
    decreases o,
{
    match o {
        SpecTermOpt::Chain(f, rest) => {
            lemma_eval_factor_ck_exact(f);
            match eval_factor_ck(f) {
                Some(b) => {
                    match ck(a * b) {
                        Some(c) => {
                            lemma_eval_chain_ck_exact(c, *rest);
                        },
                        None => {
                            lemma_chain_ck_none(*rest);
                        },
                    }
                },
                None => {
                    lemma_chain_ck_none(*rest);
                },
            }
        },
        SpecTermOpt::Empty => {},
    }
}

proof fn lemma_eval_factor_ck_exact(f: SpecFactor)
    ensures
        match eval_factor_ck(f) {
            Some(v) => v == eval_factor_int(f),
            None => true,
        },
    decreases f,
{
    match f {
        SpecFactor::Subexpr(e) => {
            lemma_eval_expr_ck_exact(*e);
        },
        SpecFactor::Number(_) => {},
    }
}

impl Factor {
    /// The factor's value: the literal, or the parenthesized group's value.
    pub fn eval(&self) -> (r: Option<i64>)
        ensures
            match eval_factor_ck(factor_model(*self)) {
                Some(v) => r matches Some(x) && x as int == v,
                None => r is None,
            },
        decreases *self,
    {
        match self {
            Factor::Number(n) => Some(*n),
            Factor::Expr(e) => e.eval(),
        }
    }
}

impl TermOpt {
    /// The chain folded onto a running product, left to right.
    fn eval_from(&self, acc: i64) -> (r: Option<i64>)
        ensures
            match eval_chain_ck(Some(acc as int), termopt_model(*self)) {
                Some(v) => r matches Some(x) && x as int == v,
                None => r is None,
            },
        decreases *self,
    {
        match self {
            TermOpt::TermOpt(f, rest) => {
                match f.eval() {
                    Some(b) => {
                        match acc.checked_mul(b) {
                            Some(c) => rest.eval_from(c),
                            None => {
                                proof {
                                    lemma_chain_ck_none(termopt_model(**rest));
                                }
                                None
                            },
                        }
                    },
                    None => {
                        proof {
                            lemma_chain_ck_none(termopt_model(**rest));
                        }
                        None
                    },
                }
            },
            TermOpt::Empty => Some(acc),
        }
    }

    /// The product of the chain alone, seeded with one.
    pub fn eval(&self) -> (r: Option<i64>)
        ensures
            match eval_termopt_ck(termopt_model(*self)) {
                Some(v) => r matches Some(x) && x as int == v,
                None => r is None,
            },
    {
        self.eval_from(1)
    }
}

impl Term {
    /// The term's value: its factors multiplied left to right.
    pub fn eval(&self) -> (r: Option<i64>)
        ensures
            match eval_term_ck(term_model(*self)) {
                Some(v) => r matches Some(x) && x as int == v,
                None => r is None,
            },
        decreases *self,
    {
        match self.factor.eval() {
            Some(a) => self.opt.eval_from(a),
            None => {
                proof {
                    lemma_chain_ck_none(termopt_model(self.opt));
                }
                None
            },
        }
    }
}

impl Expr {
    /// The expression's value: its terms added and subtracted left to right.
    pub fn eval(&self) -> (r: Option<i64>)
        ensures
            match eval_expr_ck(expr_model(*self)) {
                Some(v) => r matches Some(x) && x as int == v,
                None => r is None,
            },
        decreases *self,
    {
        let ghost m = expr_model(*self);
        let first = self.term.eval();
        let mut acc = match first {
            Some(x) => x,
            None => {
                proof {
                    lemma_opts_ck_none(m.opts);
                }
                return None;
            },
        };
        proof {
            assert(opts_model(self.opts@).skip(0) =~= opts_model(self.opts@));
        }
        let mut idx: usize = 0;
        while idx < self.opts.len()
            invariant
                idx <= self.opts@.len(),
                m == expr_model(*self),
                eval_expr_ck(m) == eval_opts_ck(
                    Some(acc as int),
                    opts_model(self.opts@).skip(idx as int),
                ),
            decreases self.opts@.len() - idx,
        {
            proof {
                lemma_opts_model(self.opts@);
                assert(decreases_to!(*self => self.opts));
                assert(decreases_to!(self.opts => self.opts@[idx as int].1));
            }
            let pair = &self.opts[idx];
            let tv = pair.1.eval();
            proof {
                assert(opts_model(self.opts@).skip(idx as int)[0] == opts_model(self.opts@)[
                    idx as int
                ]);
                assert(opts_model(self.opts@).skip(idx as int).skip(1) =~= opts_model(
                    self.opts@,
                ).skip(idx as int + 1));
            }
            match tv {
                Some(b) => {
                    let next = match pair.0 {
                        ExprOperation::Addition => acc.checked_add(b),
                        ExprOperation::Subtraction => acc.checked_sub(b),
                    };
                    match next {
                        Some(c) => {
                            acc = c;
                            idx = idx + 1;
                        },
                        None => {
                            proof {
                                lemma_opts_ck_none(
                                    opts_model(self.opts@).skip(idx as int + 1),
                                );
                            }
                            return None;
                        },
                    }
                },
                None => {
                    proof {
                        lemma_opts_ck_none(opts_model(self.opts@).skip(idx as int + 1));
                    }
                    return None;
                },
            }
        }
        proof {
            lemma_opts_model(self.opts@);
            assert(opts_model(self.opts@).skip(idx as int) =~= Seq::<(
                ExprOperation,
                SpecTerm,
            )>::empty());
        }
        Some(acc)
    }
}

/// Failure of the whole pipeline.
#[derive(Debug)]
pub enum EvalError {
    Lex(LexError),
    Parse(ParseError),
    OutOfRange,
}

/// A pipeline failure as the contracts see it.
pub ghost enum SpecEvalError {
    Lex(LexError),
    Parse(SpecParseError),
    OutOfRange,
}

impl View for EvalError {
    type V = SpecEvalError;

    open spec fn view(&self) -> SpecEvalError {
        match self {
            EvalError::Lex(le) => SpecEvalError::Lex(*le),
            EvalError::Parse(pe) => SpecEvalError::Parse(pe@),
            EvalError::OutOfRange => SpecEvalError::OutOfRange,
        }
    }
}

/// What evaluating a line yields: the tokens' value when lexing, parsing and
/// the checked fold all succeed, and otherwise the first stage's error.
pub open spec fn spec_evaluate(s: Seq<char>) -> Result<int, SpecEvalError> {
    match spec_lex(s) {
        Ok(ts) => match sp_parse(ts) {
            Ok(e) => match eval_expr_ck(e) {
                Some(v) => Ok(v),
                None => Err(SpecEvalError::OutOfRange),
            },
            Err(pe) => Err(SpecEvalError::Parse(pe)),
        },
        Err(le) => Err(SpecEvalError::Lex(le)),
    }
}

/// Evaluate one line of text: lex it, parse it, and fold the tree, handing
/// back exactly what `spec_evaluate` states for the line, the first error
/// included.
pub fn evaluate(text: &str) -> (r: Result<i64, EvalError>)
    ensures
        match spec_evaluate(text@) {
            Ok(v) => r matches Ok(x) && x as int == v,
            Err(e) => r matches Err(x) && x@ == e,
        },
{
    let tokens = match lex(text) {
        Ok(ts) => ts,
        Err(le) => return Err(EvalError::Lex(le)),
    };
    let e = match parse(tokens) {
        Ok(e) => e,
        Err(pe) => return Err(EvalError::Parse(pe)),
    };
    match e.eval() {
        Some(v) => Ok(v),
        None => Err(EvalError::OutOfRange),
    }
}

proof fn lemma_opts_push(acc: int, opts: Seq<(ExprOperation, SpecTerm)>, op: ExprOperation, t: SpecTerm)
    ensures
        eval_opts_int(acc, opts.push((op, t))) == apply_op(
            eval_opts_int(acc, opts),
            op,
            eval_term_int(t),
        ),
    decreases opts.len(),
{
    let whole = opts.push((op, t));
    if opts.len() == 0 {
        assert(whole[0] == (op, t));
        assert(whole.skip(1) =~= Seq::<(ExprOperation, SpecTerm)>::empty());
        assert(eval_opts_int(acc, whole) == eval_opts_int(
            apply_op(acc, op, eval_term_int(t)),
            whole.skip(1),
        ));
        assert(eval_opts_int(apply_op(acc, op, eval_term_int(t)), whole.skip(1)) == apply_op(
            acc,
            op,
            eval_term_int(t),
        ));
        assert(eval_opts_int(acc, opts) == acc);
    } else {
        assert(whole[0] == opts[0]);
        assert(whole.skip(1) =~= opts.skip(1).push((op, t)));
        let acc2 = apply_op(acc, opts[0].0, eval_term_int(opts[0].1));
        lemma_opts_push(acc2, opts.skip(1), op, t);
        assert(eval_opts_int(acc, whole) == eval_opts_int(acc2, whole.skip(1)));
        assert(eval_opts_int(acc, opts) == eval_opts_int(acc2, opts.skip(1)));
    }
}

/// A longer chain continues where a shorter one left off: appending one
/// `(operator, term)` pair to an expression applies that operator, last and
/// in source order, to the expression's value and the term's value.
pub proof fn lemma_expr_extend(e: SpecExpr, e2: SpecExpr, op: ExprOperation, t: SpecTerm)
    requires
        e2.term == e.term,
        e2.opts == e.opts.push((op, t)),
    ensures
        eval_expr_int(e2) == apply_op(eval_expr_int(e), op, eval_term_int(t)),
{
    lemma_opts_push(eval_term_int(e.term), e.opts, op, t);
}

/// A product chain with one more factor at its end.
pub open spec fn chain_append(o: SpecTermOpt, f: SpecFactor) -> SpecTermOpt
    decreases o,
{
    match o {
        SpecTermOpt::Chain(g, rest) => SpecTermOpt::Chain(g, Box::new(chain_append(*rest, f))),
        SpecTermOpt::Empty => SpecTermOpt::Chain(f, Box::new(SpecTermOpt::Empty)),
    }
}

proof fn lemma_chain_append(acc: int, o: SpecTermOpt, f: SpecFactor)
    ensures
        eval_chain_int(acc, chain_append(o, f)) == eval_chain_int(acc, o) * eval_factor_int(f),
    decreases o,
{
    match o {
        SpecTermOpt::Chain(g, rest) => {
            lemma_chain_append(acc * eval_factor_int(g), *rest, f);
            assert(chain_append(o, f) == SpecTermOpt::Chain(
                g,
                Box::new(chain_append(*rest, f)),
            ));
            assert(eval_chain_int(acc, chain_append(o, f)) == eval_chain_int(
                acc * eval_factor_int(g),
                chain_append(*rest, f),
            ));
            assert(eval_chain_int(acc, o) == eval_chain_int(acc * eval_factor_int(g), *rest));
        },
        SpecTermOpt::Empty => {
            assert(chain_append(o, f) == SpecTermOpt::Chain(f, Box::new(SpecTermOpt::Empty)));
            assert(eval_chain_int(acc, chain_append(o, f)) == eval_chain_int(
                acc * eval_factor_int(f),
                SpecTermOpt::Empty,
            ));
            assert(eval_chain_int(acc, o) == acc);
        },
    }
}

/// Appending one factor to a term's chain multiplies the term's value by
/// that factor's value, last and in source order.
pub proof fn lemma_term_extend(t: SpecTerm, t2: SpecTerm, f: SpecFactor)
    requires
        t2.factor == t.factor,
        t2.opt == chain_append(t.opt, f),
    ensures
        eval_term_int(t2) == eval_term_int(t) * eval_factor_int(f),
{
    lemma_chain_append(eval_factor_int(t.factor), t.opt, f);
}

/// A parenthesized group evaluates to its inner expression's value:
/// parentheses change grouping, never the value of what they enclose.
pub proof fn lemma_group_value(e: SpecExpr)
    ensures
        eval_factor_int(SpecFactor::Subexpr(Box::new(e))) == eval_expr_int(e),
{
}

proof fn lemma_opts_offset(a: int, b: int, opts: Seq<(ExprOperation, SpecTerm)>)
    ensures
        eval_opts_int(a + b, opts) == eval_opts_int(a, opts) + b,
    decreases opts.len(),
{
    if opts.len() > 0 {
        lemma_opts_offset(apply_op(a, opts[0].0, eval_term_int(opts[0].1)), b, opts.skip(1));
    }
}

proof fn lemma_opts_flip(a: int, opts: Seq<(ExprOperation, SpecTerm)>)
    ensures
        eval_opts_int(
            a,
            opts.map_values(|p: (ExprOperation, SpecTerm)| (spec_flip(p.0), p.1)),
        ) == a - eval_opts_int(0, opts),
    decreases opts.len(),
{
    let flipped = opts.map_values(|p: (ExprOperation, SpecTerm)| (spec_flip(p.0), p.1));
    if opts.len() > 0 {
        assert(flipped[0] == (spec_flip(opts[0].0), opts[0].1));
        assert(flipped.skip(1) =~= opts.skip(1).map_values(
            |p: (ExprOperation, SpecTerm)| (spec_flip(p.0), p.1),
        ));
        let v0 = eval_term_int(opts[0].1);
        lemma_opts_flip(apply_op(a, spec_flip(opts[0].0), v0), opts.skip(1));
        lemma_opts_offset(0, apply_op(0, opts[0].0, v0), opts.skip(1));
    }
}

/// Unary minus distributes correctly over a group: a negated factor
/// evaluates to the negation of the factor's value, so two negations give
/// the value back.
pub proof fn lemma_neg_value(f: SpecFactor)
    ensures
        eval_factor_int(spec_neg_factor(f)) == -eval_factor_int(f),
{
    match f {
        SpecFactor::Number(_) => {},
        SpecFactor::Subexpr(e) => {
            let flipped = e.opts.map_values(
                |p: (ExprOperation, SpecTerm)| (spec_flip(p.0), p.1),
            );
            let zero_term = SpecTerm { factor: SpecFactor::Number(0), opt: SpecTermOpt::Empty };
            assert(eval_factor_int(SpecFactor::Number(0)) == 0);
            assert(eval_chain_int(0, SpecTermOpt::Empty) == 0);
            assert(eval_term_int(zero_term) == 0);
            let neg = spec_neg_factor(f);
            assert(neg matches SpecFactor::Subexpr(b) && *b == SpecExpr {
                term: zero_term,
                opts: flipped.push((ExprOperation::Subtraction, e.term)),
            });
            lemma_opts_push(0, flipped, ExprOperation::Subtraction, e.term);
            lemma_opts_flip(0, e.opts);
            lemma_opts_offset(0, eval_term_int(e.term), e.opts);
            assert(eval_factor_int(neg) == eval_opts_int(
                0,
                flipped.push((ExprOperation::Subtraction, e.term)),
            ));
            assert(eval_factor_int(f) == eval_opts_int(eval_term_int(e.term), e.opts));
            assert(eval_opts_int(eval_term_int(e.term), e.opts) == eval_opts_int(0, e.opts)
                + eval_term_int(e.term));
        },
    }
}

proof fn lemma_lex_spaces(s: Seq<char>, i: int)
    requires
        0 <= i <= s.len(),
        forall|k: int| 0 <= k < s.len() ==> is_space_char(s[k]),
    ensures
        crate::lexer::spec_lex_from(s, i) == Ok::<Seq<SpecToken>, LexError>(Seq::empty()),
    decreases s.len() - i,
{
    if i < s.len() {
        lemma_lex_spaces(s, i + 1);
    }
}

/// An accepted line's value is the exact value of its parse tree: where the
/// checked fold stayed within range, it computed the exact integer.
pub proof fn lemma_evaluate_exact(s: Seq<char>, ts: Seq<SpecToken>, e: SpecExpr)
    requires
        spec_lex(s) == Ok::<Seq<SpecToken>, LexError>(ts),
        sp_parse(ts) == Ok::<SpecExpr, SpecParseError>(e),
        spec_evaluate(s) is Ok,
    ensures
        spec_evaluate(s) == Ok::<int, SpecEvalError>(eval_expr_int(e)),
{
    lemma_eval_expr_ck_exact(e);
}

/// A line of nothing but whitespace lexes to no tokens at all, and parsing
/// no tokens fails for want of a number, so evaluating such a line is the
/// end-of-input error.
pub proof fn lemma_blank_line(s: Seq<char>)
    requires
        forall|k: int| 0 <= k < s.len() ==> is_space_char(s[k]),
    ensures
        spec_lex(s) == Ok::<Seq<SpecToken>, LexError>(Seq::empty()),
        spec_evaluate(s) == Err::<int, SpecEvalError>(
            SpecEvalError::Parse(
                SpecParseError::UnexpectedEof { expected: TokenType::Number },
            ),
        ),
{
    lemma_lex_spaces(s, 0);
}

/// Whitespace is insignificant: it only separates tokens.  Two lines whose
/// token kinds and texts agree -- as any two lines that differ only in the
/// whitespace between their tokens do -- are either both accepted, with one
/// and the same value, or both rejected.
pub proof fn lemma_whitespace_insignificant(
    s1: Seq<char>,
    s2: Seq<char>,
    ts1: Seq<SpecToken>,
    ts2: Seq<SpecToken>,
)
    requires
        spec_lex(s1) == Ok::<Seq<SpecToken>, LexError>(ts1),
        spec_lex(s2) == Ok::<Seq<SpecToken>, LexError>(ts2),
        same_tokens(ts1, ts2),
    ensures
        match (spec_evaluate(s1), spec_evaluate(s2)) {
            (Ok(v1), Ok(v2)) => v1 == v2,
            (Err(_), Err(_)) => true,
            _ => false,
        },
{
    lemma_sp_parse_pos_free(ts1, ts2);
}

/// Evaluation is a function of the line alone: any two results that satisfy
/// `evaluate`'s contract for the same line agree, success for success,
/// value for value, and error for error.
pub proof fn lemma_evaluate_deterministic(
    s: Seq<char>,
    r1: Result<i64, EvalError>,
    r2: Result<i64, EvalError>,
)
    requires
        (match spec_evaluate(s) {
            Ok(v) => r1 matches Ok(x) && x as int == v,
            Err(e) => r1 matches Err(x) && x@ == e,
        }),
        (match spec_evaluate(s) {
            Ok(v) => r2 matches Ok(x) && x as int == v,
            Err(e) => r2 matches Err(x) && x@ == e,
        }),
    ensures
        r1 is Ok <==> r2 is Ok,
        match (r1, r2) {
            (Ok(a), Ok(b)) => a == b,
            (Err(a), Err(b)) => a@ == b@,
            _ => true,
        },
{
}

proof fn lemma_shift_same_tokens(ts: Seq<SpecToken>, d: int)
    ensures
        same_tokens(shift_tokens(ts, d), ts),
{
    assert forall|i: int|
        0 <= i < ts.len() implies shift_tokens(ts, d)[i].ttype == ts[i].ttype && shift_tokens(
        ts,
        d,
    )[i].value == ts[i].value by {
        assert(shift_tokens(ts, d)[i] == SpecToken {
            ttype: ts[i].ttype,
            value: ts[i].value,
            pos: ts[i].pos + d,
        });
    }
}

/// Operators compose: for sub-expressions `a` and `b` that each evaluate,
/// the line `(a)op(b)` evaluates to the operator applied to the two values,
/// in source order -- or to the range error where that value leaves `i64`.
/// The operands stand in parentheses, since a bare `a op b` could regroup
/// under precedence.
pub proof fn lemma_operator_composition(a: Seq<char>, b: Seq<char>, op: char, va: int, vb: int)
    requires
        spec_evaluate(a) == Ok::<int, SpecEvalError>(va),
        spec_evaluate(b) == Ok::<int, SpecEvalError>(vb),
        op == '+' || op == '-' || op == '*',
    ensures
        ({
            let s = seq!['('] + a + seq![')'] + seq![op] + seq!['('] + b + seq![')'];
            let v = if op == '+' {
                va + vb
            } else if op == '-' {
                va - vb
            } else {
                va * vb
            };
            spec_evaluate(s) == (if i64::MIN <= v <= i64::MAX {
                Ok::<int, SpecEvalError>(v)
            } else {
                Err::<int, SpecEvalError>(SpecEvalError::OutOfRange)
            })
        }),
{
    let s = seq!['('] + a + seq![')'] + seq![op] + seq!['('] + b + seq![')'];
    match (spec_lex(a), spec_lex(b)) {
        (Ok(ta), Ok(tb)) => {
            match (sp_parse(ta), sp_parse(tb)) {
                (Ok(ea), Ok(eb)) => {
                    lemma_sp_parse_whole(ta);
                    lemma_sp_parse_whole(tb);
                    lemma_lex_wrapped_pair(a, b, op, ta, tb);
                    let o1 = SpecToken {
                        ttype: TokenType::OpeningParen,
                        value: seq!['('],
                        pos: 0,
                    };
                    let c1 = SpecToken {
                        ttype: TokenType::ClosingParen,
                        value: seq![')'],
                        pos: a.len() + 1int,
                    };
                    let p = SpecToken {
                        ttype: operator_token_type(op),
                        value: seq![op],
                        pos: a.len() + 2int,
                    };
                    let o2 = SpecToken {
                        ttype: TokenType::OpeningParen,
                        value: seq!['('],
                        pos: a.len() + 3int,
                    };
                    let c2 = SpecToken {
                        ttype: TokenType::ClosingParen,
                        value: seq![')'],
                        pos: a.len() + b.len() + 4int,
                    };
                    let ta2 = shift_tokens(ta, 1);
                    let tb2 = shift_tokens(tb, a.len() + 4int);
                    let ts = seq![o1] + ta2 + seq![c1] + seq![p] + seq![o2] + tb2 + seq![c2];
                    assert(spec_lex(s) == Ok::<Seq<SpecToken>, LexError>(ts));
                    lemma_shift_same_tokens(ta, 1);
                    lemma_shift_same_tokens(tb, a.len() + 4int);
                    lemma_sp_parse_pos_free(ta2, ta);
                    lemma_sp_parse_pos_free(tb2, tb);
                    assert(sp_parse(ta2) == Ok::<SpecExpr, SpecParseError>(ea));
                    assert(sp_parse(tb2) == Ok::<SpecExpr, SpecParseError>(eb));
                    assert(p.ttype == TokenType::Addition || p.ttype == TokenType::Subtraction
                        || p.ttype == TokenType::Multiplication);
                    lemma_sp_parse_composition(ta2, tb2, ea, eb, o1, c1, p, o2, c2);
                    let tree = composed_tree(ea, eb, p.ttype);
                    assert(sp_parse(ts) == Ok::<SpecExpr, SpecParseError>(tree));
                    assert(eval_expr_ck(ea) == Some(va));
                    assert(eval_expr_ck(eb) == Some(vb));
                    let fa = SpecFactor::Subexpr(Box::new(ea));
                    let fb = SpecFactor::Subexpr(Box::new(eb));
                    assert(eval_factor_ck(fa) == Some(va));
                    assert(eval_factor_ck(fb) == Some(vb));
                    if op == '*' {
                        assert(p.ttype == TokenType::Multiplication);
                        let chain = SpecTermOpt::Chain(fb, Box::new(SpecTermOpt::Empty));
                        assert(eval_chain_ck(ck_mul(Some(va), Some(vb)), SpecTermOpt::Empty)
                            == ck_mul(Some(va), Some(vb)));
                        assert(eval_chain_ck(Some(va), chain) == ck(va * vb));
                        assert(eval_term_ck(tree.term) == ck(va * vb));
                        assert(tree.opts.len() == 0);
                        assert(eval_expr_ck(tree) == ck(va * vb));
                    } else {
                        let opk = if op == '+' {
                            ExprOperation::Addition
                        } else {
                            ExprOperation::Subtraction
                        };
                        let term_b = SpecTerm { factor: fb, opt: SpecTermOpt::Empty };
                        assert(eval_term_ck(tree.term) == Some(va));
                        assert(eval_term_ck(term_b) == Some(vb));
                        assert(tree.opts == seq![(opk, term_b)]);
                        assert(tree.opts[0] == (opk, term_b));
                        assert(tree.opts.skip(1) =~= Seq::<(ExprOperation, SpecTerm)>::empty());
                        assert(eval_opts_ck(Some(va), tree.opts) == eval_opts_ck(
                            ck_apply_op(Some(va), opk, Some(vb)),
                            tree.opts.skip(1),
                        ));
                        assert(eval_expr_ck(tree) == ck(apply_op(va, opk, vb)));
                    }
                },
                _ => {
                    assert(false);
                },
            }
        },
        _ => {
            assert(false);
        },
    }
}

} // verus!

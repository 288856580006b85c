//! The lexer: turns a line of text into a sequence of tokens.
//!
//! Whitespace separates tokens and is otherwise skipped.  `+`, `-`, `*`, `(`
//! and `)` are single-character tokens; a maximal run of ASCII digits is a
//! number token; any other maximal run of non-whitespace ASCII characters is
//! an identifier token (accepted by the lexer, rejected later by the
//! grammar).  A non-ASCII character that is not whitespace is an error.

use vstd::prelude::*;
use vstd::string::StrSliceExecFns;

verus! {

/// The kind of a token.
#[derive(Debug, Clone, Copy, PartialEq, Eq, Structural)]
pub enum TokenType {
    Identifier,
    Number,
    Addition,
    Subtraction,
    Multiplication,
    OpeningParen,
    ClosingParen,
}

/// One token: its kind, its text, and the zero-based character offset of its
/// first character in the input line.
#[derive(Debug)]
pub struct Token {
    pub ttype: TokenType,
    pub value: String,
    pub pos: usize,
}

/// A token as the contracts see it.
pub ghost struct SpecToken {
    pub ttype: TokenType,
    pub value: Seq<char>,
    pub pos: int,
}

impl View for Token {
    type V = SpecToken;

    open spec fn view(&self) -> SpecToken {
        SpecToken { ttype: self.ttype, value: self.value@, pos: self.pos as int }
    }
}

/// The view of a whole token sequence.
pub open spec fn toks(ts: Seq<Token>) -> Seq<SpecToken> {
    ts.map_values(|t: Token| t@)
}

/// Failure of the lexer: a character that no token may contain.
#[derive(Debug, Clone, Copy, PartialEq, Eq)]
pub enum LexError {
    InvalidCharacter(char),
}

/// The Unicode whitespace characters, exactly those that
/// `char::is_whitespace` accepts.
pub open spec fn is_space_char(c: char) -> bool {
    ||| c == ' '
    ||| c == '\t'
    ||| c == '\n'
    ||| c == '\u{B}'
    ||| c == '\u{C}'
    ||| c == '\r'
    ||| c == '\u{85}'
    ||| c == '\u{A0}'
    ||| c == '\u{1680}'
    ||| c == '\u{2000}'
    ||| c == '\u{2001}'
    ||| c == '\u{2002}'
    ||| c == '\u{2003}'
    ||| c == '\u{2004}'
    ||| c == '\u{2005}'
    ||| c == '\u{2006}'
    ||| c == '\u{2007}'
    ||| c == '\u{2008}'
    ||| c == '\u{2009}'
    ||| c == '\u{200A}'
    ||| c == '\u{2028}'
    ||| c == '\u{2029}'
    ||| c == '\u{202F}'
    ||| c == '\u{205F}'
    ||| c == '\u{3000}'
}

/// An ASCII digit.
pub open spec fn is_digit_char(c: char) -> bool {
    ('0' as u32) <= (c as u32) && (c as u32) <= ('9' as u32)
}

/// An ASCII character.
pub open spec fn is_ascii_char(c: char) -> bool {
    (c as u32) < 128
}

/// A character that forms a single-character operator token.
pub open spec fn is_operator_char(c: char) -> bool {
    c == '+' || c == '-' || c == '*' || c == '(' || c == ')'
}

/// The token kind of an operator character.
pub open spec fn operator_token_type(c: char) -> TokenType {
    if c == '+' {
        TokenType::Addition
    } else if c == '-' {
        TokenType::Subtraction
    } else if c == '*' {
        TokenType::Multiplication
    } else if c == '(' {
        TokenType::OpeningParen
    } else {
        TokenType::ClosingParen
    }
}

/// Where the maximal digit run that starts at `i` ends.
pub open spec fn digit_run_end(s: Seq<char>, i: int) -> int
    decreases s.len() - i,
{
    if 0 <= i < s.len() && is_digit_char(s[i]) {
        digit_run_end(s, i + 1)
    } else {
        i
    }
}

/// A character that continues an identifier run: non-whitespace ASCII.
pub open spec fn is_ident_char(c: char) -> bool {
    !is_space_char(c) && is_ascii_char(c)
}

/// Where the maximal identifier run that starts at `i` ends.
pub open spec fn ident_run_end(s: Seq<char>, i: int) -> int
    decreases s.len() - i,
{
    if 0 <= i < s.len() && is_ident_char(s[i]) {
        ident_run_end(s, i + 1)
    } else {
        i
    }
}

pub proof fn lemma_digit_run_end(s: Seq<char>, i: int)
    requires
        0 <= i <= s.len(),
    ensures
        i <= digit_run_end(s, i) <= s.len(),
        forall|k: int| i <= k < digit_run_end(s, i) ==> is_digit_char(s[k]),
        digit_run_end(s, i) < s.len() ==> !is_digit_char(s[digit_run_end(s, i)]),
    decreases s.len() - i,
{
    if i < s.len() && is_digit_char(s[i]) {
        lemma_digit_run_end(s, i + 1);
    }
}

pub proof fn lemma_ident_run_end(s: Seq<char>, i: int)
    requires
        0 <= i <= s.len(),
    ensures
        i <= ident_run_end(s, i) <= s.len(),
        forall|k: int| i <= k < ident_run_end(s, i) ==> is_ident_char(s[k]),
        ident_run_end(s, i) < s.len() ==> !is_ident_char(s[ident_run_end(s, i)]),
    decreases s.len() - i,
{
    if i < s.len() && is_ident_char(s[i]) {
        lemma_ident_run_end(s, i + 1);
    }
}

/// A run that has been scanned to a boundary is the maximal run.
proof fn lemma_digit_run_end_at(s: Seq<char>, i: int, j: int)
    requires
        0 <= i <= j <= s.len(),
        forall|k: int| i <= k < j ==> is_digit_char(s[k]),
        j == s.len() || !is_digit_char(s[j]),
    ensures
        digit_run_end(s, i) == j,
    decreases j - i,
{
    if i < j {
        lemma_digit_run_end_at(s, i + 1, j);
    }
}

proof fn lemma_ident_run_end_at(s: Seq<char>, i: int, j: int)
    requires
        0 <= i <= j <= s.len(),
        forall|k: int| i <= k < j ==> is_ident_char(s[k]),
        j == s.len() || !is_ident_char(s[j]),
    ensures
        ident_run_end(s, i) == j,
    decreases j - i,
{
    if i < j {
        lemma_ident_run_end_at(s, i + 1, j);
    }
}

/// The tokens of `s` from position `i` on: whitespace is skipped, operator
/// characters stand alone, digit and identifier runs are maximal, and a
/// non-ASCII non-whitespace character is an error.
pub open spec fn spec_lex_from(s: Seq<char>, i: int) -> Result<Seq<SpecToken>, LexError>
    decreases s.len() - i,
    via spec_lex_from_decreases
{
    if !(0 <= i < s.len()) {
        Ok(Seq::empty())
    } else {
        let c = s[i];
        if is_space_char(c) {
            spec_lex_from(s, i + 1)
        } else if is_operator_char(c) {
            match spec_lex_from(s, i + 1) {
                Ok(rest) => Ok(
                    seq![SpecToken { ttype: operator_token_type(c), value: s.subrange(i, i + 1), pos: i }]
                        + rest,
                ),
                Err(e) => Err(e),
            }
        } else if is_digit_char(c) {
            match spec_lex_from(s, digit_run_end(s, i)) {
                Ok(rest) => Ok(
                    seq![SpecToken {
                        ttype: TokenType::Number,
                        value: s.subrange(i, digit_run_end(s, i)),
                        pos: i,
                    }] + rest,
                ),
                Err(e) => Err(e),
            }
        } else if is_ascii_char(c) {
            match spec_lex_from(s, ident_run_end(s, i)) {
                Ok(rest) => Ok(
                    seq![SpecToken {
                        ttype: TokenType::Identifier,
                        value: s.subrange(i, ident_run_end(s, i)),
                        pos: i,
                    }] + rest,
                ),
                Err(e) => Err(e),
            }
        } else {
            Err(LexError::InvalidCharacter(c))
        }
    }
}

#[via_fn]
proof fn spec_lex_from_decreases(s: Seq<char>, i: int) {
    if 0 <= i < s.len() {
        if is_digit_char(s[i]) {
            lemma_digit_run_end(s, i + 1);
            assert(digit_run_end(s, i) == digit_run_end(s, i + 1));
        } else if is_ident_char(s[i]) {
            lemma_ident_run_end(s, i + 1);
            assert(ident_run_end(s, i) == ident_run_end(s, i + 1));
        }
    }
}

/// The whole token sequence of `s`.
pub open spec fn spec_lex(s: Seq<char>) -> Result<Seq<SpecToken>, LexError> {
    spec_lex_from(s, 0)
}

/// Lexing from `i` with the tokens of `s[..i]` already in `pre` still agrees
/// with lexing the whole of `s`.
spec fn lex_loop_inv(s: Seq<char>, i: int, pre: Seq<SpecToken>) -> bool {
    match spec_lex_from(s, i) {
        Ok(rest) => spec_lex(s) == Ok::<Seq<SpecToken>, LexError>(pre + rest),
        Err(e) => spec_lex(s) == Err::<Seq<SpecToken>, LexError>(e),
    }
}

proof fn lemma_lex_inv_init(s: Seq<char>)
    ensures
        lex_loop_inv(s, 0, Seq::empty()),
{
    match spec_lex_from(s, 0) {
        Ok(rest) => {
            assert(Seq::empty() + rest =~= rest);
        },
        Err(e) => {},
    }
}

/// One token was produced at `i`, and the scan moves on to `i2`.
proof fn lemma_lex_inv_push(s: Seq<char>, i: int, i2: int, pre: Seq<SpecToken>, tm: SpecToken)
    requires
        lex_loop_inv(s, i, pre),
        spec_lex_from(s, i) == (match spec_lex_from(s, i2) {
            Ok(rest) => Ok::<Seq<SpecToken>, LexError>(seq![tm] + rest),
            Err(e) => Err::<Seq<SpecToken>, LexError>(e),
        }),
    ensures
        lex_loop_inv(s, i2, pre.push(tm)),
{
    match spec_lex_from(s, i2) {
        Ok(rest) => {
            assert(pre + (seq![tm] + rest) =~= pre.push(tm) + rest);
        },
        Err(e) => {},
    }
}

proof fn lemma_toks_push(ts: Seq<Token>, t: Token)
    ensures
        toks(ts.push(t)) == toks(ts).push(t@),
{
    assert(toks(ts.push(t)) =~= toks(ts).push(t@));
}

fn is_space(c: char) -> (r: bool)
    ensures
        r == is_space_char(c),
{
    c == ' ' || c == '\t' || c == '\n' || c == '\u{B}' || c == '\u{C}' || c == '\r'
        || c == '\u{85}' || c == '\u{A0}' || c == '\u{1680}' || c == '\u{2000}' || c == '\u{2001}'
        || c == '\u{2002}' || c == '\u{2003}' || c == '\u{2004}' || c == '\u{2005}'
        || c == '\u{2006}' || c == '\u{2007}' || c == '\u{2008}' || c == '\u{2009}'
        || c == '\u{200A}' || c == '\u{2028}' || c == '\u{2029}' || c == '\u{202F}'
        || c == '\u{205F}' || c == '\u{3000}'
}

pub(crate) fn is_digit(c: char) -> (r: bool)
    ensures
        r == is_digit_char(c),
{
    let u = c as u32;
    48 <= u && u <= 57
}

fn is_ascii_range(c: char) -> (r: bool)
    ensures
        r == is_ascii_char(c),
{
    (c as u32) < 128
}

/// Lex a line of text into its tokens, as `spec_lex` describes them; the
/// first invalid character, if any, is the error.
pub fn lex(text: &str) -> (r: Result<Vec<Token>, LexError>)
    ensures
        match r {
            Ok(tokens) => spec_lex(text@) == Ok::<Seq<SpecToken>, LexError>(toks(tokens@)),
            Err(e) => spec_lex(text@) == Err::<Seq<SpecToken>, LexError>(e),
        },
{
    let ghost s = text@;
    let mut tokens: Vec<Token> = Vec::new();
    let len = text.unicode_len();
    let mut i: usize = 0;
    proof {
        lemma_lex_inv_init(s);
    }
    while i < len
        invariant
            s == text@,
            len == s.len(),
            i <= len,
            lex_loop_inv(s, i as int, toks(tokens@)),
        decreases len - i,
    {
        let c = text.get_char(i);
        if is_space(c) {
            i = i + 1;
        } else if c == '+' || c == '-' || c == '*' || c == '(' || c == ')' {
            let value = text.substring_char(i, i + 1).to_owned();
            let ttype = if c == '+' {
                TokenType::Addition
            } else if c == '-' {
                TokenType::Subtraction
            } else if c == '*' {
                TokenType::Multiplication
            } else if c == '(' {
                TokenType::OpeningParen
            } else {
                TokenType::ClosingParen
            };
            let tok = Token { ttype, value, pos: i };
            proof {
                let tm = SpecToken {
                    ttype: operator_token_type(c),
                    value: s.subrange(i as int, i as int + 1),
                    pos: i as int,
                };
                assert(tok@ == tm);
                lemma_lex_inv_push(s, i as int, i as int + 1, toks(tokens@), tm);
                lemma_toks_push(tokens@, tok);
            }
            tokens.push(tok);
            i = i + 1;
        } else if is_digit(c) {
            let start = i;
            let mut j = i + 1;
            let mut done = false;
            while !done && j < len
                invariant
                    s == text@,
                    len == s.len(),
                    start < j <= len,
                    forall|k: int| start <= k < j ==> is_digit_char(s[k]),
                    done ==> j < len && !is_digit_char(s[j as int]),
                decreases len - j + (if done { 0int } else { 1int }),
            {
                let c2 = text.get_char(j);
                if is_digit(c2) {
                    j = j + 1;
                } else {
                    done = true;
                }
            }
            proof {
                lemma_digit_run_end_at(s, start as int, j as int);
            }
            let value = text.substring_char(start, j).to_owned();
            let tok = Token { ttype: TokenType::Number, value, pos: start };
            proof {
                let tm = SpecToken {
                    ttype: TokenType::Number,
                    value: s.subrange(start as int, j as int),
                    pos: start as int,
                };
                assert(tok@ == tm);
                lemma_lex_inv_push(s, start as int, j as int, toks(tokens@), tm);
                lemma_toks_push(tokens@, tok);
            }
            tokens.push(tok);
            i = j;
        } else if is_ascii_range(c) {
            let start = i;
            let mut j = i + 1;
            let mut done = false;
            while !done && j < len
                invariant
                    s == text@,
                    len == s.len(),
                    start < j <= len,
                    forall|k: int| start <= k < j ==> is_ident_char(s[k]),
                    done ==> j < len && !is_ident_char(s[j as int]),
                decreases len - j + (if done { 0int } else { 1int }),
            {
                let c2 = text.get_char(j);
                if !is_space(c2) && is_ascii_range(c2) {
                    j = j + 1;
                } else {
                    done = true;
                }
            }
            proof {
                lemma_ident_run_end_at(s, start as int, j as int);
            }
            let value = text.substring_char(start, j).to_owned();
            let tok = Token { ttype: TokenType::Identifier, value, pos: start };
            proof {
                let tm = SpecToken {
                    ttype: TokenType::Identifier,
                    value: s.subrange(start as int, j as int),
                    pos: start as int,
                };
                assert(tok@ == tm);
                lemma_lex_inv_push(s, start as int, j as int, toks(tokens@), tm);
                lemma_toks_push(tokens@, tok);
            }
            tokens.push(tok);
            i = j;
        } else {
            return Err(LexError::InvalidCharacter(c));
        }
    }
    proof {
        match spec_lex_from(s, i as int) {
            Ok(rest) => {
                assert(toks(tokens@) + rest =~= toks(tokens@));
            },
            Err(e) => {},
        }
    }
    Ok(tokens)
}

/// No token of the sequence is an identifier.
pub open spec fn no_identifier(ts: Seq<SpecToken>) -> bool {
    forall|i: int| 0 <= i < ts.len() ==> (#[trigger] ts[i]).ttype != TokenType::Identifier
}

/// The same tokens, each position moved right by `d`.
pub open spec fn shift_tokens(ts: Seq<SpecToken>, d: int) -> Seq<SpecToken> {
    ts.map_values(|t: SpecToken| SpecToken { ttype: t.ttype, value: t.value, pos: t.pos + d })
}

proof fn lemma_digit_run_end_shift(x: Seq<char>, y: Seq<char>, i: int)
    requires
        0 <= i <= y.len(),
    ensures
        digit_run_end(x + y, x.len() + i) == x.len() + digit_run_end(y, i),
    decreases y.len() - i,
{
    let w = x + y;
    if i < y.len() {
        assert(w[x.len() + i] == y[i]);
    }
    if i < y.len() && is_digit_char(y[i]) {
        lemma_digit_run_end_shift(x, y, i + 1);
    }
}

proof fn lemma_ident_run_end_shift(x: Seq<char>, y: Seq<char>, i: int)
    requires
        0 <= i <= y.len(),
    ensures
        ident_run_end(x + y, x.len() + i) == x.len() + ident_run_end(y, i),
    decreases y.len() - i,
{
    let w = x + y;
    if i < y.len() {
        assert(w[x.len() + i] == y[i]);
    }
    if i < y.len() && is_ident_char(y[i]) {
        lemma_ident_run_end_shift(x, y, i + 1);
    }
}

/// Lexing is insensitive to what stands before the scan position: behind a
/// prefix, the same tokens come out, their positions moved right.
proof fn lemma_lex_offset(x: Seq<char>, y: Seq<char>, i: int)
    requires
        0 <= i <= y.len(),
    ensures
        spec_lex_from(x + y, x.len() + i) == (match spec_lex_from(y, i) {
            Ok(ts) => Ok::<Seq<SpecToken>, LexError>(shift_tokens(ts, x.len() as int)),
            Err(e) => Err::<Seq<SpecToken>, LexError>(e),
        }),
    decreases y.len() - i,
{
    let w = x + y;
    let d = x.len() as int;
    if i == y.len() {
        assert(shift_tokens(Seq::empty(), d) =~= Seq::<SpecToken>::empty());
    } else {
        assert(w[d + i] == y[i]);
        let c = y[i];
        if is_space_char(c) {
            lemma_lex_offset(x, y, i + 1);
        } else if is_operator_char(c) {
            lemma_lex_offset(x, y, i + 1);
            match spec_lex_from(y, i + 1) {
                Ok(rest) => {
                    assert(w.subrange(d + i, d + i + 1) =~= y.subrange(i, i + 1));
                    let ty = SpecToken {
                        ttype: operator_token_type(c),
                        value: y.subrange(i, i + 1),
                        pos: i,
                    };
                    let tw = SpecToken {
                        ttype: operator_token_type(c),
                        value: w.subrange(d + i, d + i + 1),
                        pos: d + i,
                    };
                    assert(shift_tokens(seq![ty] + rest, d) =~= seq![tw] + shift_tokens(
                        rest,
                        d,
                    ));
                },
                Err(_) => {},
            }
        } else if is_digit_char(c) {
            lemma_digit_run_end_shift(x, y, i);
            lemma_digit_run_end(y, i + 1);
            assert(digit_run_end(y, i) == digit_run_end(y, i + 1));
            let j = digit_run_end(y, i);
            lemma_lex_offset(x, y, j);
            match spec_lex_from(y, j) {
                Ok(rest) => {
                    assert(w.subrange(d + i, d + j) =~= y.subrange(i, j));
                    let ty = SpecToken {
                        ttype: TokenType::Number,
                        value: y.subrange(i, j),
                        pos: i,
                    };
                    let tw = SpecToken {
                        ttype: TokenType::Number,
                        value: w.subrange(d + i, d + j),
                        pos: d + i,
                    };
                    assert(shift_tokens(seq![ty] + rest, d) =~= seq![tw] + shift_tokens(
                        rest,
                        d,
                    ));
                },
                Err(_) => {},
            }
        } else if is_ascii_char(c) {
            lemma_ident_run_end_shift(x, y, i);
            lemma_ident_run_end(y, i + 1);
            assert(ident_run_end(y, i) == ident_run_end(y, i + 1));
            let j = ident_run_end(y, i);
            lemma_lex_offset(x, y, j);
            match spec_lex_from(y, j) {
                Ok(rest) => {
                    assert(w.subrange(d + i, d + j) =~= y.subrange(i, j));
                    let ty = SpecToken {
                        ttype: TokenType::Identifier,
                        value: y.subrange(i, j),
                        pos: i,
                    };
                    let tw = SpecToken {
                        ttype: TokenType::Identifier,
                        value: w.subrange(d + i, d + j),
                        pos: d + i,
                    };
                    assert(shift_tokens(seq![ty] + rest, d) =~= seq![tw] + shift_tokens(
                        rest,
                        d,
                    ));
                },
                Err(_) => {},
            }
        } else {
        }
    }
}

proof fn lemma_digit_run_end_prefix(w: Seq<char>, m: int, i: int)
    requires
        0 <= i <= m <= w.len(),
        m < w.len() ==> !is_digit_char(w[m]),
    ensures
        digit_run_end(w.subrange(0, m), i) == digit_run_end(w, i),
    decreases m - i,
{
    let u = w.subrange(0, m);
    if i < m {
        assert(u[i] == w[i]);
    }
    if i < m && is_digit_char(w[i]) {
        lemma_digit_run_end_prefix(w, m, i + 1);
    }
}

/// Lexing a prefix that ends at an operator character agrees with lexing the
/// whole, as long as no identifier run could cross the cut.
proof fn lemma_lex_prefix(w: Seq<char>, m: int, i: int)
    requires
        0 <= i <= m <= w.len(),
        m < w.len() ==> is_operator_char(w[m]),
    ensures
        match spec_lex_from(w.subrange(0, m), i) {
            Ok(ts) => no_identifier(ts) ==> spec_lex_from(w, i) == (match spec_lex_from(w, m) {
                Ok(rest) => Ok::<Seq<SpecToken>, LexError>(ts + rest),
                Err(e) => Err::<Seq<SpecToken>, LexError>(e),
            }),
            Err(_) => true,
        },
    decreases m - i,
{
    let u = w.subrange(0, m);
    if i == m {
        match spec_lex_from(w, m) {
            Ok(rest) => {
                assert(Seq::<SpecToken>::empty() + rest =~= rest);
            },
            Err(_) => {},
        }
    } else {
        assert(u[i] == w[i]);
        let c = w[i];
        if is_space_char(c) {
            lemma_lex_prefix(w, m, i + 1);
        } else if is_operator_char(c) {
            lemma_lex_prefix(w, m, i + 1);
            match spec_lex_from(u, i + 1) {
                Ok(rest_u) => {
                    let tok = SpecToken {
                        ttype: operator_token_type(c),
                        value: u.subrange(i, i + 1),
                        pos: i,
                    };
                    assert(u.subrange(i, i + 1) =~= w.subrange(i, i + 1));
                    assert(spec_lex_from(u, i) == Ok::<Seq<SpecToken>, LexError>(
                        seq![tok] + rest_u,
                    ));
                    let ts = seq![tok] + rest_u;
                    if no_identifier(ts) {
                        assert forall|k: int|
                            0 <= k < rest_u.len() implies (#[trigger] rest_u[k]).ttype
                            != TokenType::Identifier by {
                            assert(ts[k + 1] == rest_u[k]);
                        }
                        match spec_lex_from(w, m) {
                            Ok(rest) => {
                                assert(seq![tok] + (rest_u + rest) =~= ts + rest);
                            },
                            Err(_) => {},
                        }
                    }
                },
                Err(_) => {},
            }
        } else if is_digit_char(c) {
            assert(m < w.len() ==> !is_digit_char(w[m]));
            lemma_digit_run_end_prefix(w, m, i);
            lemma_digit_run_end(u, i + 1);
            assert(digit_run_end(u, i) == digit_run_end(u, i + 1));
            let j = digit_run_end(u, i);
            lemma_lex_prefix(w, m, j);
            match spec_lex_from(u, j) {
                Ok(rest_u) => {
                    let tok = SpecToken {
                        ttype: TokenType::Number,
                        value: u.subrange(i, j),
                        pos: i,
                    };
                    assert(u.subrange(i, j) =~= w.subrange(i, j));
                    assert(spec_lex_from(u, i) == Ok::<Seq<SpecToken>, LexError>(
                        seq![tok] + rest_u,
                    ));
                    let ts = seq![tok] + rest_u;
                    if no_identifier(ts) {
                        assert forall|k: int|
                            0 <= k < rest_u.len() implies (#[trigger] rest_u[k]).ttype
                            != TokenType::Identifier by {
                            assert(ts[k + 1] == rest_u[k]);
                        }
                        match spec_lex_from(w, m) {
                            Ok(rest) => {
                                assert(seq![tok] + (rest_u + rest) =~= ts + rest);
                            },
                            Err(_) => {},
                        }
                    }
                },
                Err(_) => {},
            }
        } else if is_ascii_char(c) {
            match spec_lex_from(u, ident_run_end(u, i)) {
                Ok(rest_u) => {
                    let tok = SpecToken {
                        ttype: TokenType::Identifier,
                        value: u.subrange(i, ident_run_end(u, i)),
                        pos: i,
                    };
                    let ts = seq![tok] + rest_u;
                    assert(ts[0].ttype == TokenType::Identifier);
                    assert(!no_identifier(ts));
                },
                Err(_) => {},
            }
        } else {
        }
    }
}

proof fn lemma_shift_concat(u: Seq<SpecToken>, v: Seq<SpecToken>, d: int)
    ensures
        shift_tokens(u + v, d) == shift_tokens(u, d) + shift_tokens(v, d),
{
    assert(shift_tokens(u + v, d) =~= shift_tokens(u, d) + shift_tokens(v, d));
}

proof fn lemma_shift_shift(u: Seq<SpecToken>, d1: int, d2: int)
    ensures
        shift_tokens(shift_tokens(u, d1), d2) == shift_tokens(u, d1 + d2),
{
    assert(shift_tokens(shift_tokens(u, d1), d2) =~= shift_tokens(u, d1 + d2));
}

proof fn lemma_shift_single(t: SpecToken, d: int)
    ensures
        shift_tokens(seq![t], d) == seq![SpecToken { ttype: t.ttype, value: t.value, pos: t.pos + d }],
{
    assert(shift_tokens(seq![t], d) =~= seq![
        SpecToken { ttype: t.ttype, value: t.value, pos: t.pos + d },
    ]);
}

/// Lexing `( a ) op ( b )`: each operand's own tokens in order, kinds and
/// texts unchanged and positions moved right, with the five wrapping tokens
/// around and between them.
pub proof fn lemma_lex_wrapped_pair(
    a: Seq<char>,
    b: Seq<char>,
    op: char,
    ta: Seq<SpecToken>,
    tb: Seq<SpecToken>,
)
    requires
        spec_lex(a) == Ok::<Seq<SpecToken>, LexError>(ta),
        spec_lex(b) == Ok::<Seq<SpecToken>, LexError>(tb),
        no_identifier(ta),
        no_identifier(tb),
        is_operator_char(op),
    ensures
        spec_lex(seq!['('] + a + seq![')'] + seq![op] + seq!['('] + b + seq![')']) == Ok::<
            Seq<SpecToken>,
            LexError,
        >(
            seq![SpecToken { ttype: TokenType::OpeningParen, value: seq!['('], pos: 0 }]
                + shift_tokens(ta, 1)
                + seq![
                SpecToken {
                    ttype: TokenType::ClosingParen,
                    value: seq![')'],
                    pos: a.len() + 1int,
                },
            ] + seq![
                SpecToken {
                    ttype: operator_token_type(op),
                    value: seq![op],
                    pos: a.len() + 2int,
                },
            ] + seq![
                SpecToken {
                    ttype: TokenType::OpeningParen,
                    value: seq!['('],
                    pos: a.len() + 3int,
                },
            ] + shift_tokens(tb, a.len() + 4int) + seq![
                SpecToken {
                    ttype: TokenType::ClosingParen,
                    value: seq![')'],
                    pos: a.len() + b.len() + 4int,
                },
            ],
        ),
{
    let s = seq!['('] + a + seq![')'] + seq![op] + seq!['('] + b + seq![')'];
    let la = a.len() as int;
    let lb = b.len() as int;
    let cp = seq![')'];
    let r3 = b + cp;
    let r2 = cp + seq![op] + seq!['('] + b + cp;
    let tail1 = a + r2;
    assert(s =~= seq!['('] + tail1);

    // The closing paren alone.
    assert(cp[0] == ')');
    assert(spec_lex_from(cp, 1) == Ok::<Seq<SpecToken>, LexError>(Seq::empty()));
    let t_c2 = SpecToken { ttype: TokenType::ClosingParen, value: cp.subrange(0, 1), pos: 0 };
    assert(cp.subrange(0, 1) =~= cp);
    assert(spec_lex(cp) == Ok::<Seq<SpecToken>, LexError>(seq![t_c2] + Seq::empty()));
    assert(seq![t_c2] + Seq::<SpecToken>::empty() =~= seq![t_c2]);

    // `b )`: the b tokens, then the shifted closing paren.
    lemma_lex_offset(b, cp, 0);
    assert(r3.subrange(0, lb) =~= b);
    assert(r3[lb] == ')');
    lemma_lex_prefix(r3, lb, 0);
    let ts3 = tb + shift_tokens(seq![t_c2], lb);
    assert(spec_lex(r3) == Ok::<Seq<SpecToken>, LexError>(ts3));

    // `) op ( b )`: three operator tokens, then the shifted r3 tokens.
    assert(r2[0] == ')');
    assert(r2[1] == op);
    assert(r2[2] == '(');
    assert(r2.len() == lb + 4);
    assert(r2 =~= r2.subrange(0, 3) + r3);
    lemma_lex_offset(r2.subrange(0, 3), r3, 0);
    assert(spec_lex_from(r2.subrange(0, 3) + r3, 3) == Ok::<Seq<SpecToken>, LexError>(
        shift_tokens(ts3, 3),
    ));
    assert(spec_lex_from(r2, 3) == Ok::<Seq<SpecToken>, LexError>(shift_tokens(ts3, 3)));
    let t_o2 = SpecToken { ttype: TokenType::OpeningParen, value: r2.subrange(2, 3), pos: 2 };
    let t_p = SpecToken { ttype: operator_token_type(op), value: r2.subrange(1, 2), pos: 1 };
    let t_c1 = SpecToken { ttype: TokenType::ClosingParen, value: r2.subrange(0, 1), pos: 0 };
    assert(!is_space_char('(') && !is_space_char(')') && is_operator_char('(')
        && is_operator_char(')'));
    assert(!is_space_char(op));
    assert(spec_lex_from(r2, 2) == Ok::<Seq<SpecToken>, LexError>(
        seq![t_o2] + shift_tokens(ts3, 3),
    ));
    assert(spec_lex_from(r2, 1) == Ok::<Seq<SpecToken>, LexError>(
        seq![t_p] + (seq![t_o2] + shift_tokens(ts3, 3)),
    ));
    assert(spec_lex(r2) == Ok::<Seq<SpecToken>, LexError>(
        seq![t_c1] + (seq![t_p] + (seq![t_o2] + shift_tokens(ts3, 3))),
    ));
    let ts2 = seq![t_c1] + (seq![t_p] + (seq![t_o2] + shift_tokens(ts3, 3)));

    // `a ) op ( b )`: the a tokens, then the shifted r2 tokens.
    lemma_lex_offset(a, r2, 0);
    assert(tail1.subrange(0, la) =~= a);
    assert(tail1[la] == ')');
    lemma_lex_prefix(tail1, la, 0);
    let ts1 = ta + shift_tokens(ts2, la);
    assert(spec_lex(tail1) == Ok::<Seq<SpecToken>, LexError>(ts1));

    // The whole line.
    lemma_lex_offset(seq!['('], tail1, 0);
    assert((seq!['('] + tail1)[0] == '(');
    let t_o1 = SpecToken {
        ttype: TokenType::OpeningParen,
        value: (seq!['('] + tail1).subrange(0, 1),
        pos: 0,
    };
    assert(spec_lex(seq!['('] + tail1) == Ok::<Seq<SpecToken>, LexError>(
        seq![t_o1] + shift_tokens(ts1, 1),
    ));
    assert(spec_lex(s) == Ok::<Seq<SpecToken>, LexError>(seq![t_o1] + shift_tokens(ts1, 1)));

    // Flatten the nested shifts into the stated shape.
    lemma_shift_concat(ta, shift_tokens(ts2, la), 1);
    lemma_shift_shift(ts2, la, 1);
    lemma_shift_concat(seq![t_c1], seq![t_p] + (seq![t_o2] + shift_tokens(ts3, 3)), la + 1);
    lemma_shift_concat(seq![t_p], seq![t_o2] + shift_tokens(ts3, 3), la + 1);
    lemma_shift_concat(seq![t_o2], shift_tokens(ts3, 3), la + 1);
    lemma_shift_shift(ts3, 3, la + 1);
    lemma_shift_concat(tb, shift_tokens(seq![t_c2], lb), la + 4);
    lemma_shift_shift(seq![t_c2], lb, la + 4);
    lemma_shift_single(t_c1, la + 1);
    lemma_shift_single(t_p, la + 1);
    lemma_shift_single(t_o2, la + 1);
    lemma_shift_single(t_c2, lb + la + 4);
    assert(t_o1.value =~= seq!['(']);
    assert(r2.subrange(0, 1) =~= seq![')']);
    assert(r2.subrange(1, 2) =~= seq![op]);
    assert(r2.subrange(2, 3) =~= seq!['(']);
    assert(seq![t_o1] + shift_tokens(ts1, 1) =~= seq![
        SpecToken { ttype: TokenType::OpeningParen, value: seq!['('], pos: 0 },
    ] + shift_tokens(ta, 1) + seq![
        SpecToken { ttype: TokenType::ClosingParen, value: seq![')'], pos: a.len() + 1int },
    ] + seq![
        SpecToken { ttype: operator_token_type(op), value: seq![op], pos: a.len() + 2int },
    ] + seq![
        SpecToken { ttype: TokenType::OpeningParen, value: seq!['('], pos: a.len() + 3int },
    ] + shift_tokens(tb, a.len() + 4int) + seq![
        SpecToken {
            ttype: TokenType::ClosingParen,
            value: seq![')'],
            pos: a.len() + b.len() + 4int,
        },
    ]);
}

} // verus!

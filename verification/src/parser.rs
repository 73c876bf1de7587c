//! The surface parser: turns a line of text into a term tree.
//!
//! Whitespace and `.` separate tokens; `\` and the lambda character open a
//! linear lambda, `#` a duplicable one, `!` marks the next parenthesized
//! group as a suspension, `|b>` is a ket literal, `H`, `C`, `T` are gates and
//! `M` is the measurement operator.  Application is left-associative and
//! implicit by juxtaposition.

use vstd::prelude::*;
use vstd::string::StrSliceExecFns;
use crate::term::{Term, TermX, Const, ConstX, var, app, ket, nonlinear, clone_term};

verus! {

broadcast use vstd::string::group_string_axioms;

/// Relies on std's String::push: appends one character to the string.
pub assume_specification[ String::push ](s: &mut String, c: char)
    ensures
        final(s)@ == old(s)@.push(c),
;

/// A surface token, with the position its character had in the input.
#[derive(Debug)]
pub enum Token {
    LPar(usize),
    RPar(usize),
    LKet(usize),
    RKet(usize),
    Bit(usize, bool),
    Lam(usize),
    NonlinearLam(usize),
    Nonlinear,
    Gate(String),
    Var(String),
    Meas,
}

/// The model of a token.
pub enum TokenX {
    LPar(int),
    RPar(int),
    LKet(int),
    RKet(int),
    Bit(int, bool),
    Lam(int),
    NonlinearLam(int),
    Nonlinear,
    Gate(Seq<char>),
    Var(Seq<char>),
    Meas,
}

impl View for Token {
    type V = TokenX;

    open spec fn view(&self) -> TokenX {
        match self {
            Token::LPar(p) => TokenX::LPar(*p as int),
            Token::RPar(p) => TokenX::RPar(*p as int),
            Token::LKet(p) => TokenX::LKet(*p as int),
            Token::RKet(p) => TokenX::RKet(*p as int),
            Token::Bit(p, b) => TokenX::Bit(*p as int, *b),
            Token::Lam(p) => TokenX::Lam(*p as int),
            Token::NonlinearLam(p) => TokenX::NonlinearLam(*p as int),
            Token::Nonlinear => TokenX::Nonlinear,
            Token::Gate(g) => TokenX::Gate(g@),
            Token::Var(x) => TokenX::Var(x@),
            Token::Meas => TokenX::Meas,
        }
    }
}

/// The model of a token list.
pub open spec fn tokens_view(v: Seq<Token>) -> Seq<TokenX> {
    Seq::new(v.len(), |i: int| v[i]@)
}

/// A parse failure, with the position of the offending character where one
/// is known.
#[derive(Debug, Clone, PartialEq, Eq)]
pub enum ParseError {
    UnclosedPar(usize),
    UnopenedPar(usize),
    UnopenedKet(usize),
    UnclosedKet(usize),
    UnusedNonlinear,
    LoneQubit(usize),
    MissingVar(usize),
    MissingBody(usize),
    EmptyList,
}

/// The model of a parse failure.
pub enum ParseErrX {
    UnclosedPar(int),
    UnopenedPar(int),
    UnopenedKet(int),
    UnclosedKet(int),
    UnusedNonlinear,
    LoneQubit(int),
    MissingVar(int),
    MissingBody(int),
    EmptyList,
}

impl View for ParseError {
    type V = ParseErrX;

    open spec fn view(&self) -> ParseErrX {
        match self {
            ParseError::UnclosedPar(p) => ParseErrX::UnclosedPar(*p as int),
            ParseError::UnopenedPar(p) => ParseErrX::UnopenedPar(*p as int),
            ParseError::UnopenedKet(p) => ParseErrX::UnopenedKet(*p as int),
            ParseError::UnclosedKet(p) => ParseErrX::UnclosedKet(*p as int),
            ParseError::UnusedNonlinear => ParseErrX::UnusedNonlinear,
            ParseError::LoneQubit(p) => ParseErrX::LoneQubit(*p as int),
            ParseError::MissingVar(p) => ParseErrX::MissingVar(*p as int),
            ParseError::MissingBody(p) => ParseErrX::MissingBody(*p as int),
            ParseError::EmptyList => ParseErrX::EmptyList,
        }
    }
}

/// The White_Space characters, as Rust's char::is_whitespace has them.
pub open spec fn is_unicode_ws(c: char) -> bool {
    c == ' ' || c == '\t' || c == '\n' || c == '\u{b}' || c == '\u{c}' || c == '\r'
        || c == '\u{85}' || c == '\u{a0}' || c == '\u{1680}' || c == '\u{2000}'
        || c == '\u{2001}' || c == '\u{2002}' || c == '\u{2003}' || c == '\u{2004}'
        || c == '\u{2005}' || c == '\u{2006}' || c == '\u{2007}' || c == '\u{2008}'
        || c == '\u{2009}' || c == '\u{200a}' || c == '\u{2028}' || c == '\u{2029}'
        || c == '\u{202f}' || c == '\u{205f}' || c == '\u{3000}'
}

/// Decides `is_unicode_ws`.
pub fn unicode_ws(c: char) -> (r: bool)
    ensures
        r == is_unicode_ws(c),
{
    c == ' ' || c == '\t' || c == '\n' || c == '\u{b}' || c == '\u{c}' || c == '\r'
        || c == '\u{85}' || c == '\u{a0}' || c == '\u{1680}' || c == '\u{2000}'
        || c == '\u{2001}' || c == '\u{2002}' || c == '\u{2003}' || c == '\u{2004}'
        || c == '\u{2005}' || c == '\u{2006}' || c == '\u{2007}' || c == '\u{2008}'
        || c == '\u{2009}' || c == '\u{200a}' || c == '\u{2028}' || c == '\u{2029}'
        || c == '\u{202f}' || c == '\u{205f}' || c == '\u{3000}'
}

/// Whether a character separates tokens: whitespace or the dot.
pub open spec fn is_sep(c: char) -> bool {
    is_unicode_ws(c) || c == '.'
}

/// What a single special character tokenizes to, if it is special.
/// The lambda may be written `\` or the Greek letter.
pub open spec fn special_token(c: char, pos: int) -> Option<TokenX> {
    if c == '\\' || c == '\u{03bb}' {
        Some(TokenX::Lam(pos))
    } else if c == '#' {
        Some(TokenX::NonlinearLam(pos))
    } else if c == '!' {
        Some(TokenX::Nonlinear)
    } else if c == '(' {
        Some(TokenX::LPar(pos))
    } else if c == ')' {
        Some(TokenX::RPar(pos))
    } else if c == '|' {
        Some(TokenX::LKet(pos))
    } else if c == '>' {
        Some(TokenX::RKet(pos))
    } else if c == 'H' {
        Some(TokenX::Gate("H"@))
    } else if c == 'C' {
        Some(TokenX::Gate("C"@))
    } else if c == 'T' {
        Some(TokenX::Gate("T"@))
    } else if c == 'M' {
        Some(TokenX::Meas)
    } else {
        None
    }
}

/// One step of the tokenizer: reads the characters from `i` on, with `cur`
/// the identifier run collected so far and `acc` the tokens already made.
/// A digit `0` or `1` continues an identifier run when one is open, and is
/// a bit literal otherwise; any other unreserved character joins the run.
pub open spec fn tok_step(cs: Seq<char>, i: int, cur: Seq<char>, acc: Seq<TokenX>) -> Seq<TokenX>
    decreases cs.len() - i,
{
    if i < 0 || i >= cs.len() {
        if cur.len() > 0 {
            acc.push(TokenX::Var(cur))
        } else {
            acc
        }
    } else {
        let c = cs[i];
        let pos = i + 1;
        if is_sep(c) {
            let acc2 = if cur.len() > 0 {
                acc.push(TokenX::Var(cur))
            } else {
                acc
            };
            tok_step(cs, i + 1, Seq::empty(), acc2)
        } else if (c == '0' || c == '1') && cur.len() > 0 {
            tok_step(cs, i + 1, cur.push(c), acc)
        } else if c == '0' {
            let acc2 = if cur.len() > 0 {
                acc.push(TokenX::Var(cur))
            } else {
                acc
            };
            tok_step(cs, i + 1, Seq::empty(), acc2.push(TokenX::Bit(pos, false)))
        } else if c == '1' {
            let acc2 = if cur.len() > 0 {
                acc.push(TokenX::Var(cur))
            } else {
                acc
            };
            tok_step(cs, i + 1, Seq::empty(), acc2.push(TokenX::Bit(pos, true)))
        } else {
            match special_token(c, pos) {
                Some(tk) => {
                    let acc2 = if cur.len() > 0 {
                        acc.push(TokenX::Var(cur))
                    } else {
                        acc
                    };
                    tok_step(cs, i + 1, Seq::empty(), acc2.push(tk))
                },
                None => tok_step(cs, i + 1, cur.push(c), acc),
            }
        }
    }
}

/// The token list of an input.
pub open spec fn spec_tokenize(cs: Seq<char>) -> Seq<TokenX> {
    tok_step(cs, 0, Seq::empty(), Seq::empty())
}

/// Splits a line of input into tokens.
pub fn tokenize(input: &Vec<char>) -> (res: Vec<Token>)
    ensures
        tokens_view(res@) == spec_tokenize(input@),
{
    let mut res: Vec<Token> = Vec::new();
    let mut cur: Vec<char> = Vec::new();
    let mut i: usize = 0;
    proof {
        assert(tokens_view(res@) =~= Seq::empty());
        assert(cur@ =~= Seq::empty());
    }
    while i < input.len()
        invariant
            i <= input@.len(),
            tok_step(input@, i as int, cur@, tokens_view(res@)) == spec_tokenize(input@),
        decreases input@.len() - i,
    {
        let c = input[i];
        let pos = i + 1;
        let ghost pre_res = tokens_view(res@);
        let ghost pre_cur = cur@;
        let is_sep_c = unicode_ws(c) || c == '.';
        if is_sep_c {
            if cur.len() > 0 {
                let name = chars_to_string(&cur);
                res.push(Token::Var(name));
                cur = Vec::new();
                proof {
                    assert(tokens_view(res@) =~= pre_res.push(TokenX::Var(pre_cur)));
                    assert(cur@ =~= Seq::empty());
                }
            }
        } else if (c == '0' || c == '1') && cur.len() > 0 {
            cur.push(c);
            proof {
                assert(cur@ =~= pre_cur.push(c));
            }
        } else if c == '0' || c == '1' {
            if cur.len() > 0 {
                let name = chars_to_string(&cur);
                res.push(Token::Var(name));
                cur = Vec::new();
                proof {
                    assert(tokens_view(res@) =~= pre_res.push(TokenX::Var(pre_cur)));
                }
            }
            let ghost mid_res = tokens_view(res@);
            res.push(Token::Bit(pos, c == '1'));
            proof {
                assert(tokens_view(res@) =~= mid_res.push(TokenX::Bit(pos as int, c == '1')));
                assert(cur@ =~= Seq::empty());
            }
        } else {
            let special: Option<Token> = if c == '\\' || c == '\u{03bb}' {
                Some(Token::Lam(pos))
            } else if c == '#' {
                Some(Token::NonlinearLam(pos))
            } else if c == '!' {
                Some(Token::Nonlinear)
            } else if c == '(' {
                Some(Token::LPar(pos))
            } else if c == ')' {
                Some(Token::RPar(pos))
            } else if c == '|' {
                Some(Token::LKet(pos))
            } else if c == '>' {
                Some(Token::RKet(pos))
            } else if c == 'H' {
                Some(Token::Gate(String::from_str("H")))
            } else if c == 'C' {
                Some(Token::Gate(String::from_str("C")))
            } else if c == 'T' {
                Some(Token::Gate(String::from_str("T")))
            } else if c == 'M' {
                Some(Token::Meas)
            } else {
                None
            };
            match special {
                Some(tk) => {
                    proof {
                        assert(special_token(c, pos as int) == Some(tk@));
                    }
                    if cur.len() > 0 {
                        let name = chars_to_string(&cur);
                        res.push(Token::Var(name));
                        cur = Vec::new();
                        proof {
                            assert(tokens_view(res@) =~= pre_res.push(TokenX::Var(pre_cur)));
                        }
                    }
                    let ghost mid_res = tokens_view(res@);
                    res.push(tk);
                    proof {
                        assert(tokens_view(res@) =~= mid_res.push(
                            special_token(c, pos as int)->Some_0,
                        ));
                        assert(cur@ =~= Seq::empty());
                    }
                },
                None => {
                    proof {
                        assert(special_token(c, pos as int) is None);
                    }
                    cur.push(c);
                    proof {
                        assert(cur@ =~= pre_cur.push(c));
                    }
                },
            }
        }
        proof {
            if cur@.len() == 0 {
                assert(cur@ =~= Seq::empty());
            }
        }
        i = i + 1;
    }
    if cur.len() > 0 {
        let name = chars_to_string(&cur);
        let ghost pre_res = tokens_view(res@);
        res.push(Token::Var(name));
        proof {
            assert(tokens_view(res@) =~= pre_res.push(TokenX::Var(cur@)));
        }
    }
    res
}

/// The model of a parsed-term list.
pub open spec fn terms_view(v: Seq<Term>) -> Seq<TermX> {
    Seq::new(v.len(), |i: int| v[i]@)
}

/// The index of the parenthesis closing the group that started just before
/// `j`, scanning at nesting `depth`; -1 when the group never closes.
pub open spec fn find_close(ts: Seq<TokenX>, j: int, depth: int) -> int
    decreases ts.len() - j,
{
    if j < 0 || j >= ts.len() {
        -1
    } else {
        match ts[j] {
            TokenX::LPar(_) => find_close(ts, j + 1, depth + 1),
            TokenX::RPar(_) => if depth == 0 {
                j
            } else {
                find_close(ts, j + 1, depth - 1)
            },
            _ => find_close(ts, j + 1, depth),
        }
    }
}

pub proof fn lemma_find_close(ts: Seq<TokenX>, j: int, depth: int)
    ensures
        find_close(ts, j, depth) == -1 || j <= find_close(ts, j, depth) < ts.len(),
    decreases ts.len() - j,
{
    if 0 <= j < ts.len() {
        lemma_find_close(ts, j + 1, depth + 1);
        lemma_find_close(ts, j + 1, depth - 1);
        lemma_find_close(ts, j + 1, depth);
    }
}

/// Left-associative application of a run of terms.
pub open spec fn fold_app(acc: Seq<TermX>) -> TermX
    decreases acc.len(),
{
    if acc.len() <= 1 {
        if acc.len() == 1 {
            acc[0]
        } else {
            TermX::Var(Seq::empty())
        }
    } else {
        TermX::App(Box::new(fold_app(acc.drop_last())), Box::new(acc.last()))
    }
}

/// One step of the parser: reads the tokens from `i` on, with `acc` the run
/// of terms parsed so far and `nn` set when a bang is waiting for the next
/// parenthesized group.
pub open spec fn parse_step(ts: Seq<TokenX>, i: int, acc: Seq<TermX>, nn: bool) -> Result<
    TermX,
    ParseErrX,
>
    decreases ts.len(), ts.len() - i + 1,
{
    if i < 0 {
        Err(ParseErrX::EmptyList)
    } else if i >= ts.len() {
        if nn {
            Err(ParseErrX::UnusedNonlinear)
        } else if acc.len() == 0 {
            Err(ParseErrX::EmptyList)
        } else {
            Ok(fold_app(acc))
        }
    } else {
        match ts[i] {
            TokenX::Nonlinear => parse_step(ts, i + 1, acc, true),
            TokenX::LPar(pos) => {
                let j = find_close(ts, i + 1, 0);
                proof {
                    lemma_find_close(ts, i + 1, 0);
                }
                if j < 0 {
                    Err(ParseErrX::UnclosedPar(pos))
                } else {
                    match spec_parse_tokens(ts.subrange(i + 1, j)) {
                        Err(e) => Err(e),
                        Ok(inner) => {
                            let inner2 = if nn {
                                TermX::Nonlinear(Box::new(inner))
                            } else {
                                inner
                            };
                            parse_step(ts, j + 1, acc.push(inner2), false)
                        },
                    }
                }
            },
            TokenX::RPar(pos) => Err(ParseErrX::UnopenedPar(pos)),
            TokenX::LKet(pos) => {
                if i + 2 < ts.len() {
                    match (ts[i + 1], ts[i + 2]) {
                        (TokenX::Bit(_, b), TokenX::RKet(_)) => parse_step(
                            ts,
                            i + 3,
                            acc.push(TermX::Const(ConstX::Ket(b))),
                            nn,
                        ),
                        _ => Err(ParseErrX::UnclosedKet(pos)),
                    }
                } else {
                    Err(ParseErrX::UnclosedKet(pos))
                }
            },
            TokenX::RKet(pos) => Err(ParseErrX::UnopenedKet(pos)),
            TokenX::Bit(pos, _) => Err(ParseErrX::LoneQubit(pos)),
            TokenX::Lam(pos) => {
                if ts.len() <= i + 2 {
                    Err(ParseErrX::MissingBody(pos))
                } else {
                    match ts[i + 1] {
                        TokenX::Var(x) => {
                            match spec_parse_tokens(ts.subrange(i + 2, ts.len() as int)) {
                                Err(e) => Err(e),
                                Ok(rest) => parse_step(
                                    ts,
                                    ts.len() as int,
                                    acc.push(TermX::Abs(x, Box::new(rest))),
                                    nn,
                                ),
                            }
                        },
                        _ => Err(ParseErrX::MissingVar(pos)),
                    }
                }
            },
            TokenX::NonlinearLam(pos) => {
                if ts.len() <= i + 2 {
                    Err(ParseErrX::MissingBody(pos))
                } else {
                    match ts[i + 1] {
                        TokenX::Var(x) => {
                            match spec_parse_tokens(ts.subrange(i + 2, ts.len() as int)) {
                                Err(e) => Err(e),
                                Ok(rest) => parse_step(
                                    ts,
                                    ts.len() as int,
                                    acc.push(TermX::NonlinearAbs(x, Box::new(rest))),
                                    nn,
                                ),
                            }
                        },
                        _ => Err(ParseErrX::MissingVar(pos)),
                    }
                }
            },
            TokenX::Var(x) => parse_step(ts, i + 1, acc.push(TermX::Var(x)), nn),
            TokenX::Gate(g) => parse_step(ts, i + 1, acc.push(TermX::Const(ConstX::Gate(g))), nn),
            TokenX::Meas => parse_step(ts, i + 1, acc.push(TermX::Const(ConstX::Meas)), nn),
        }
    }
}

/// The term a token list parses to.
pub open spec fn spec_parse_tokens(ts: Seq<TokenX>) -> Result<TermX, ParseErrX>
    decreases ts.len(), ts.len() + 2,
{
    parse_step(ts, 0, Seq::empty(), false)
}

/// The term a line of input parses to.
pub open spec fn spec_parse(cs: Seq<char>) -> Result<TermX, ParseErrX> {
    spec_parse_tokens(spec_tokenize(cs))
}

/// Scans for the closing parenthesis within `ts[..hi]`, mirroring
/// `find_close` on the subrange `lo..hi`.
fn find_close_go(ts: &Vec<Token>, lo: usize, hi: usize, j: usize, depth: usize) -> (r: Option<
    usize,
>)
    requires
        lo <= j,
        lo <= hi,
        hi <= ts@.len(),
    ensures
        match r {
            Some(k) => lo <= j <= k < hi && k - lo == find_close(
                tokens_view(ts@).subrange(lo as int, hi as int),
                j - lo,
                depth as int,
            ),
            None => find_close(
                tokens_view(ts@).subrange(lo as int, hi as int),
                j - lo,
                depth as int,
            ) == -1,
        },
    decreases hi - j,
{
    let ghost sub = tokens_view(ts@).subrange(lo as int, hi as int);
    if j >= hi {
        return None;
    }
    proof {
        assert(sub[j - lo] == ts@[j as int]@);
    }
    match &ts[j] {
        Token::LPar(_) => {
            if depth == usize::MAX {
                proof {
                    lemma_find_close_depth_cap(sub, j - lo, depth as int);
                }
                return None;
            }
            find_close_go(ts, lo, hi, j + 1, depth + 1)
        },
        Token::RPar(_) => {
            if depth == 0 {
                Some(j)
            } else {
                find_close_go(ts, lo, hi, j + 1, depth - 1)
            }
        },
        _ => find_close_go(ts, lo, hi, j + 1, depth),
    }
}

/// A scan that has already nested deeper than the token count cannot close:
/// there are not enough tokens left to unwind the depth.
proof fn lemma_find_close_depth_cap(ts: Seq<TokenX>, j: int, depth: int)
    requires
        depth >= ts.len() - j,
    ensures
        find_close(ts, j, depth) == -1,
    decreases ts.len() - j,
{
    if 0 <= j < ts.len() {
        lemma_find_close_depth_cap(ts, j + 1, depth + 1);
        lemma_find_close_depth_cap(ts, j + 1, depth - 1);
        lemma_find_close_depth_cap(ts, j + 1, depth);
    }
}

/// Left-associative application of a parsed run of terms.
fn fold_app_exec(mut acc: Vec<Term>) -> (res: Term)
    requires
        acc@.len() >= 1,
    ensures
        res@ == fold_app(terms_view(acc@)),
{
    let ghost accv = terms_view(acc@);
    let n = acc.len();
    let mut out: Option<Term> = None;
    let mut k: usize = 0;
    while k < n
        invariant
            k <= n,
            n == acc@.len(),
            accv == terms_view(acc@),
            accv.len() == n,
            k == 0 ==> out is None,
            k > 0 ==> out is Some && out->Some_0@ == fold_app(accv.subrange(0, k as int)),
        decreases n - k,
    {
        let ghost pre = out;
        let next = clone_term(&acc[k]);
        proof {
            assert(accv[k as int] == acc@[k as int]@);
        }
        match out {
            None => {
                out = Some(next);
                proof {
                    assert(accv.subrange(0, 1) =~= seq![accv[0]]);
                }
            },
            Some(t) => {
                out = Some(app(t, next));
                proof {
                    assert(accv.subrange(0, k + 1).drop_last() =~= accv.subrange(0, k as int));
                    assert(accv.subrange(0, k + 1).last() == accv[k as int]);
                }
            },
        }
        k = k + 1;
    }
    proof {
        assert(accv.subrange(0, n as int) =~= accv);
    }
    match out {
        Some(t) => t,
        None => var(""),
    }
}

/// The parser's walk over `ts[lo..hi]` from position `i`, with `acc` the
/// terms parsed so far and `nn` set when a bang waits for the next group.
fn parse_go(ts: &Vec<Token>, lo: usize, hi: usize, i: usize, acc: Vec<Term>, nn: bool) -> (res:
    Result<Term, ParseError>)
    requires
        lo <= i <= hi,
        hi <= ts@.len(),
    ensures
        match res {
            Ok(t) => parse_step(
                tokens_view(ts@).subrange(lo as int, hi as int),
                i - lo,
                terms_view(acc@),
                nn,
            ) == Ok::<TermX, ParseErrX>(t@),
            Err(e) => parse_step(
                tokens_view(ts@).subrange(lo as int, hi as int),
                i - lo,
                terms_view(acc@),
                nn,
            ) == Err::<TermX, ParseErrX>(e@),
        },
    decreases hi - lo, hi - i, 0int,
{
    let ghost sub = tokens_view(ts@).subrange(lo as int, hi as int);
    let ghost accv = terms_view(acc@);
    if i >= hi {
        if nn {
            return Err(ParseError::UnusedNonlinear);
        }
        if acc.len() == 0 {
            return Err(ParseError::EmptyList);
        }
        let t = fold_app_exec(acc);
        return Ok(t);
    }
    proof {
        assert(sub[i - lo] == ts@[i as int]@);
    }
    match &ts[i] {
        Token::Nonlinear => {
            proof {
                assert(parse_step(sub, i - lo, accv, nn) == parse_step(sub, i + 1 - lo, accv, true));
            }
            parse_go(ts, lo, hi, i + 1, acc, true)
        },
        Token::LPar(pos) => {
            let pos = *pos;
            match find_close_go(ts, lo, hi, i + 1, 0) {
                None => Err(ParseError::UnclosedPar(pos)),
                Some(j) => {
                    proof {
                        assert(sub.subrange(i + 1 - lo, j - lo) =~= tokens_view(ts@).subrange(
                            i + 1,
                            j as int,
                        ));
                    }
                    match parse_go(ts, i + 1, j, i + 1, Vec::new(), false) {
                        Err(e) => {
                            proof {
                                assert(terms_view(Seq::<Term>::empty()) =~= Seq::<TermX>::empty());
                            }
                            Err(e)
                        },
                        Ok(inner) => {
                            proof {
                                assert(terms_view(Seq::<Term>::empty()) =~= Seq::<TermX>::empty());
                                assert(parse_step(
                                    tokens_view(ts@).subrange(i + 1, j as int),
                                    0,
                                    Seq::empty(),
                                    false,
                                ) == Ok::<TermX, ParseErrX>(inner@));
                                assert(spec_parse_tokens(sub.subrange(i + 1 - lo, j - lo))
                                    == Ok::<TermX, ParseErrX>(inner@));
                            }
                            let inner2 = if nn {
                                nonlinear(inner)
                            } else {
                                inner
                            };
                            let mut acc2 = acc;
                            let ghost inner2v = inner2@;
                            acc2.push(inner2);
                            proof {
                                assert(terms_view(acc2@) =~= accv.push(
                                    inner2v,
                                ));
                                assert(parse_step(sub, i - lo, accv, nn) == parse_step(
                                    sub,
                                    j + 1 - lo,
                                    accv.push(inner2v),
                                    false,
                                ));
                            }
                            parse_go(ts, lo, hi, j + 1, acc2, false)
                        },
                    }
                },
            }
        },
        Token::RPar(pos) => Err(ParseError::UnopenedPar(*pos)),
        Token::LKet(pos) => {
            let pos = *pos;
            if hi - i > 2 {
                let bit = match &ts[i + 1] {
                    Token::Bit(_, b) => Some(*b),
                    _ => None,
                };
                let closed = match &ts[i + 2] {
                    Token::RKet(_) => true,
                    _ => false,
                };
                proof {
                    assert(sub[i + 1 - lo] == ts@[i + 1]@);
                    assert(sub[i + 2 - lo] == ts@[i + 2]@);
                }
                match (bit, closed) {
                    (Some(b), true) => {
                        let mut acc2 = acc;
                        acc2.push(ket(b));
                        proof {
                            assert(terms_view(acc2@) =~= accv.push(
                                TermX::Const(ConstX::Ket(b)),
                            ));
                            assert(parse_step(sub, i - lo, accv, nn) == parse_step(
                                sub,
                                i + 3 - lo,
                                accv.push(TermX::Const(ConstX::Ket(b))),
                                nn,
                            ));
                        }
                        parse_go(ts, lo, hi, i + 3, acc2, nn)
                    },
                    _ => Err(ParseError::UnclosedKet(pos)),
                }
            } else {
                Err(ParseError::UnclosedKet(pos))
            }
        },
        Token::RKet(pos) => Err(ParseError::UnopenedKet(*pos)),
        Token::Bit(pos, _) => Err(ParseError::LoneQubit(*pos)),
        Token::Lam(pos) => {
            let pos = *pos;
            if hi - i <= 2 {
                Err(ParseError::MissingBody(pos))
            } else {
                proof {
                    assert(sub[i + 1 - lo] == ts@[i + 1]@);
                }
                let name = match &ts[i + 1] {
                    Token::Var(x) => Some(x.clone()),
                    _ => None,
                };
                match name {
                    None => Err(ParseError::MissingVar(pos)),
                    Some(x) => {
                        proof {
                            assert(sub.subrange(i + 2 - lo, hi - lo) =~= tokens_view(
                                ts@,
                            ).subrange(i + 2, hi as int));
                        }
                        match parse_go(ts, i + 2, hi, i + 2, Vec::new(), false) {
                            Err(e) => {
                                proof {
                                    assert(terms_view(Seq::<Term>::empty()) =~= Seq::<
                                        TermX,
                                    >::empty());
                                }
                                Err(e)
                            },
                            Ok(rest) => {
                                proof {
                                    assert(terms_view(Seq::<Term>::empty()) =~= Seq::<
                                        TermX,
                                    >::empty());
                                    assert(parse_step(
                                        tokens_view(ts@).subrange(i + 2, hi as int),
                                        0,
                                        Seq::empty(),
                                        false,
                                    ) == Ok::<TermX, ParseErrX>(rest@));
                                    assert(spec_parse_tokens(sub.subrange(i + 2 - lo, hi - lo))
                                        == Ok::<TermX, ParseErrX>(rest@));
                                }
                                let ghost restv = rest@;
                                let mut acc2 = acc;
                                acc2.push(Term::Abs(x, Box::new(rest)));
                                proof {
                                    assert(terms_view(acc2@)
                                        =~= accv.push(TermX::Abs(ts@[i + 1]@->Var_0, Box::new(restv))));
                                }
                                {
                                    proof {
                                        assert(parse_step(sub, i - lo, accv, nn) == parse_step(
                                            sub,
                                            hi - lo,
                                            accv.push(
                                                TermX::Abs(ts@[i + 1]@->Var_0, Box::new(restv)),
                                            ),
                                            nn,
                                        ));
                                    }
                                    parse_go(ts, lo, hi, hi, acc2, nn)
                                }
                            },
                        }
                    },
                }
            }
        },
        Token::NonlinearLam(pos) => {
            let pos = *pos;
            if hi - i <= 2 {
                Err(ParseError::MissingBody(pos))
            } else {
                proof {
                    assert(sub[i + 1 - lo] == ts@[i + 1]@);
                }
                let name = match &ts[i + 1] {
                    Token::Var(x) => Some(x.clone()),
                    _ => None,
                };
                match name {
                    None => Err(ParseError::MissingVar(pos)),
                    Some(x) => {
                        proof {
                            assert(sub.subrange(i + 2 - lo, hi - lo) =~= tokens_view(
                                ts@,
                            ).subrange(i + 2, hi as int));
                        }
                        match parse_go(ts, i + 2, hi, i + 2, Vec::new(), false) {
                            Err(e) => {
                                proof {
                                    assert(terms_view(Seq::<Term>::empty()) =~= Seq::<
                                        TermX,
                                    >::empty());
                                }
                                Err(e)
                            },
                            Ok(rest) => {
                                proof {
                                    assert(terms_view(Seq::<Term>::empty()) =~= Seq::<
                                        TermX,
                                    >::empty());
                                    assert(parse_step(
                                        tokens_view(ts@).subrange(i + 2, hi as int),
                                        0,
                                        Seq::empty(),
                                        false,
                                    ) == Ok::<TermX, ParseErrX>(rest@));
                                    assert(spec_parse_tokens(sub.subrange(i + 2 - lo, hi - lo))
                                        == Ok::<TermX, ParseErrX>(rest@));
                                }
                                let ghost restv = rest@;
                                let mut acc2 = acc;
                                acc2.push(Term::NonlinearAbs(x, Box::new(rest)));
                                proof {
                                    assert(terms_view(acc2@)
                                        =~= accv.push(
                                        TermX::NonlinearAbs(ts@[i + 1]@->Var_0, Box::new(restv)),
                                    ));
                                }
                                {
                                    proof {
                                        assert(parse_step(sub, i - lo, accv, nn) == parse_step(
                                            sub,
                                            hi - lo,
                                            accv.push(
                                                TermX::NonlinearAbs(
                                                    ts@[i + 1]@->Var_0,
                                                    Box::new(restv),
                                                ),
                                            ),
                                            nn,
                                        ));
                                    }
                                    parse_go(ts, lo, hi, hi, acc2, nn)
                                }
                            },
                        }
                    },
                }
            }
        },
        Token::Var(x) => {
            let mut acc2 = acc;
            acc2.push(Term::Var(x.clone()));
            proof {
                assert(terms_view(acc2@) =~= accv.push(
                    TermX::Var(x@),
                ));
                assert(parse_step(sub, i - lo, accv, nn) == parse_step(
                    sub,
                    i + 1 - lo,
                    accv.push(TermX::Var(x@)),
                    nn,
                ));
            }
            parse_go(ts, lo, hi, i + 1, acc2, nn)
        },
        Token::Gate(g) => {
            let mut acc2 = acc;
            acc2.push(Term::Const(Const::Gate(g.clone())));
            proof {
                assert(terms_view(acc2@) =~= accv.push(
                    TermX::Const(ConstX::Gate(g@)),
                ));
                assert(parse_step(sub, i - lo, accv, nn) == parse_step(
                    sub,
                    i + 1 - lo,
                    accv.push(TermX::Const(ConstX::Gate(g@))),
                    nn,
                ));
            }
            parse_go(ts, lo, hi, i + 1, acc2, nn)
        },
        Token::Meas => {
            let mut acc2 = acc;
            acc2.push(Term::Const(Const::Meas));
            proof {
                assert(terms_view(acc2@) =~= accv.push(
                    TermX::Const(ConstX::Meas),
                ));
                assert(parse_step(sub, i - lo, accv, nn) == parse_step(
                    sub,
                    i + 1 - lo,
                    accv.push(TermX::Const(ConstX::Meas)),
                    nn,
                ));
            }
            parse_go(ts, lo, hi, i + 1, acc2, nn)
        },
    }
}

/// Parses a token list into a term.
pub fn parse_tokens(ts: &Vec<Token>) -> (res: Result<Term, ParseError>)
    ensures
        match res {
            Ok(t) => spec_parse_tokens(tokens_view(ts@)) == Ok::<TermX, ParseErrX>(t@),
            Err(e) => spec_parse_tokens(tokens_view(ts@)) == Err::<TermX, ParseErrX>(e@),
        },
{
    proof {
        assert(tokens_view(ts@).subrange(0, ts@.len() as int) =~= tokens_view(ts@));
        assert(terms_view(Seq::<Term>::empty()) =~= Seq::<TermX>::empty());
    }
    let r = parse_go(ts, 0, ts.len(), 0, Vec::new(), false);
    r
}

/// Parses a line of input into a term.
pub fn parse(input: &Vec<char>) -> (res: Result<Term, ParseError>)
    ensures
        match res {
            Ok(t) => spec_parse(input@) == Ok::<TermX, ParseErrX>(t@),
            Err(e) => spec_parse(input@) == Err::<TermX, ParseErrX>(e@),
        },
{
    let tokens = tokenize(input);
    parse_tokens(&tokens)
}

/// The characters of a string slice, in order.
pub fn str_chars(s: &str) -> (v: Vec<char>)
    ensures
        v@ == s@,
{
    let mut v: Vec<char> = Vec::new();
    let n = s.unicode_len();
    let mut i: usize = 0;
    proof {
        assert(v@ =~= s@.subrange(0, 0));
    }
    while i < n
        invariant
            i <= n,
            n == s@.len(),
            v@ == s@.subrange(0, i as int),
        decreases n - i,
    {
        let c = s.get_char(i);
        v.push(c);
        proof {
            assert(s@.subrange(0, i + 1) =~= s@.subrange(0, i as int).push(s@[i as int]));
        }
        i = i + 1;
    }
    proof {
        assert(s@.subrange(0, s@.len() as int) =~= s@);
    }
    v
}

/// Builds a string from collected characters.
fn chars_to_string(cs: &Vec<char>) -> (r: String)
    ensures
        r@ == cs@,
{
    let mut s = String::new();
    let mut i: usize = 0;
    while i < cs.len()
        invariant
            i <= cs@.len(),
            s@ == cs@.subrange(0, i as int),
        decreases cs@.len() - i,
    {
        s.push(cs[i]);
        proof {
            assert(cs@.subrange(0, i + 1) =~= cs@.subrange(0, i as int).push(cs@[i as int]));
        }
        i = i + 1;
    }
    proof {
        assert(cs@.subrange(0, cs@.len() as int) =~= cs@);
    }
    s
}

} // verus!

//! The abstract syntax tree of the expression language, and the
//! recursive-descent parser that builds it from source text.
//!
//! Accepted tokens: decimal digits, ASCII letters and digits for
//! identifiers, the symbols `+ - * / = ( ) { } , ;` and the keywords
//! `fn`, `if`, `else` and `while`.  Whitespace is insignificant between
//! tokens.  The parser consumes the longest valid prefix of its input;
//! deciding whether trailing input is an error is the caller's business.
//!
//! The grammar itself is written down as the `spec_*` functions, one per
//! rule; each executable parse function returns exactly what its rule
//! says.  The specification functions check every position they recurse
//! from (`pos < 0`, `p1 <= pos` and the like).  Those branches return
//! `None` and are never reached — a rule only ever moves forward, as the
//! executable parser's contracts show — but they make the recursion's
//! termination immediate.
use crate::lex::{char_len, digits_end, ident_at, ident_bounds, is_digit_char, is_space_char,
    kw_end, kw_match, lemma_num_val_grows, lemma_scan_ascii, lemma_scan_digits, lemma_skip_seps,
    num_val, scan_alnum, ascii_run_end,
    scan_ascii, scan_digits, seps_end, skip_seps, skip_ws, ws_end};
use vstd::string::StrSliceExecFns;
use vstd::prelude::*;

verus! {

/// One node of the abstract syntax tree.  A node owns its children
/// outright; it is built once by the parser and never changed afterwards.
#[derive(Debug)]
pub enum Expr {
    /// A decimal integer literal.
    Number(i64),
    /// A bare name used as an expression: a variable reference.
    Ident(String),
    /// A variable reference under another tag; evaluated exactly as `Ident`.
    Var(String),
    /// `name = value`: binds `name` and yields the bound value.
    Assign(String, Box<Expr>),
    Add(Box<Expr>, Box<Expr>),
    Sub(Box<Expr>, Box<Expr>),
    Mul(Box<Expr>, Box<Expr>),
    Div(Box<Expr>, Box<Expr>),
    /// `if cond { then } else { other }`; the else branch is optional.
    If(Box<Expr>, Box<Expr>, Option<Box<Expr>>),
    /// `while cond { body }`.
    While(Box<Expr>, Box<Expr>),
    /// `{ stmt; stmt; ... }`: sequential evaluation, value of the last one.
    Block(Vec<Expr>),
    /// `fn name(params) { body }`: registers a function definition.
    FuncDef(String, Vec<String>, Box<Expr>),
    /// `name(args)`: calls a registered function.
    FuncCall(String, Vec<Expr>),
}

/// The mathematical shape of an [`Expr`]: names are character sequences,
/// child lists are `Seq`.  Contracts and the evaluator's specification
/// speak of this type.
pub enum ExprSpec {
    Number(i64),
    Ident(Seq<char>),
    Var(Seq<char>),
    Assign(Seq<char>, Box<ExprSpec>),
    Add(Box<ExprSpec>, Box<ExprSpec>),
    Sub(Box<ExprSpec>, Box<ExprSpec>),
    Mul(Box<ExprSpec>, Box<ExprSpec>),
    Div(Box<ExprSpec>, Box<ExprSpec>),
    If(Box<ExprSpec>, Box<ExprSpec>, Option<Box<ExprSpec>>),
    While(Box<ExprSpec>, Box<ExprSpec>),
    Block(Seq<ExprSpec>),
    FuncDef(Seq<char>, Seq<Seq<char>>, Box<ExprSpec>),
    FuncCall(Seq<char>, Seq<ExprSpec>),
}

/// The views of a sequence of nodes, in order.
pub open spec fn view_exprs(s: Seq<Expr>) -> Seq<ExprSpec>
    decreases s,
{
    if s.len() == 0 {
        Seq::empty()
    } else {
        seq![s[0]@] + view_exprs(s.subrange(1, s.len() as int))
    }
}

/// The views of a sequence of names, in order.
pub open spec fn view_names(s: Seq<String>) -> Seq<Seq<char>> {
    Seq::new(s.len(), |i: int| s[i]@)
}

impl View for Expr {
    type V = ExprSpec;

    open spec fn view(&self) -> ExprSpec
        decreases self,
    {
        match self {
            Expr::Number(n) => ExprSpec::Number(*n),
            Expr::Ident(s) => ExprSpec::Ident(s@),
            Expr::Var(s) => ExprSpec::Var(s@),
            Expr::Assign(s, e) => ExprSpec::Assign(s@, Box::new((**e)@)),
            Expr::Add(a, b) => ExprSpec::Add(Box::new((**a)@), Box::new((**b)@)),
            Expr::Sub(a, b) => ExprSpec::Sub(Box::new((**a)@), Box::new((**b)@)),
            Expr::Mul(a, b) => ExprSpec::Mul(Box::new((**a)@), Box::new((**b)@)),
            Expr::Div(a, b) => ExprSpec::Div(Box::new((**a)@), Box::new((**b)@)),
            Expr::If(c, t, e) => ExprSpec::If(
                Box::new((**c)@),
                Box::new((**t)@),
                (match e {
                    Some(b) => Some(Box::new((**b)@)),
                    None => None,
                }),
            ),
            Expr::While(c, b) => ExprSpec::While(Box::new((**c)@), Box::new((**b)@)),
            Expr::Block(v) => ExprSpec::Block(view_exprs(v@)),
            Expr::FuncDef(s, p, b) => ExprSpec::FuncDef(s@, view_names(p@), Box::new((**b)@)),
            Expr::FuncCall(s, a) => ExprSpec::FuncCall(s@, view_exprs(a@)),
        }
    }
}

/// `view_exprs` maps the view over the sequence, element by element.
pub proof fn lemma_view_exprs(s: Seq<Expr>)
    ensures
        view_exprs(s).len() == s.len(),
        forall|i: int| 0 <= i < s.len() ==> view_exprs(s)[i] == #[trigger] s[i]@,
    decreases s,
{
    if s.len() > 0 {
        let rest = s.subrange(1, s.len() as int);
        lemma_view_exprs(rest);
        assert(view_exprs(s) == seq![s[0]@] + view_exprs(rest));
        assert forall|i: int| 0 <= i < s.len() implies view_exprs(s)[i] == #[trigger] s[i]@ by {
            if i > 0 {
                assert(rest[i - 1] == s[i]);
                assert(view_exprs(s)[i] == view_exprs(rest)[i - 1]);
            }
        }
    }
}

impl Clone for Expr {
    /// A clone has the very same view, children and names included.
    fn clone(&self) -> (res: Self)
        ensures
            res@ == self@,
        decreases self,
    {
        match self {
            Expr::Number(n) => Expr::Number(*n),
            Expr::Ident(s) => Expr::Ident(s.clone()),
            Expr::Var(s) => Expr::Var(s.clone()),
            Expr::Assign(s, e) => Expr::Assign(s.clone(), Box::new((**e).clone())),
            Expr::Add(a, b) => Expr::Add(Box::new((**a).clone()), Box::new((**b).clone())),
            Expr::Sub(a, b) => Expr::Sub(Box::new((**a).clone()), Box::new((**b).clone())),
            Expr::Mul(a, b) => Expr::Mul(Box::new((**a).clone()), Box::new((**b).clone())),
            Expr::Div(a, b) => Expr::Div(Box::new((**a).clone()), Box::new((**b).clone())),
            Expr::If(c, t, e) => Expr::If(
                Box::new((**c).clone()),
                Box::new((**t).clone()),
                (match e {
                    Some(b) => Some(Box::new((**b).clone())),
                    None => None,
                }),
            ),
            Expr::While(c, b) => Expr::While(Box::new((**c).clone()), Box::new((**b).clone())),
            Expr::Block(v) => Expr::Block(clone_exprs(v)),
            Expr::FuncDef(s, p, b) => Expr::FuncDef(
                s.clone(),
                clone_names(p),
                Box::new((**b).clone()),
            ),
            Expr::FuncCall(s, a) => Expr::FuncCall(s.clone(), clone_exprs(a)),
        }
    }
}

/// Clones every node of a child list; the list of views is unchanged.
pub(crate) fn clone_exprs(v: &Vec<Expr>) -> (res: Vec<Expr>)
    ensures
        view_exprs(res@) == view_exprs(v@),
    decreases v,
{
    let mut out: Vec<Expr> = Vec::new();
    let mut i: usize = 0;
    while i < v.len()
        invariant
            i <= v.len(),
            out@.len() == i,
            forall|j: int| 0 <= j < i ==> out@[j]@ == #[trigger] v@[j]@,
        decreases v@.len() - i,
    {
        let e = v[i].clone();
        out.push(e);
        i += 1;
    }
    proof {
        lemma_view_exprs(out@);
        lemma_view_exprs(v@);
        assert forall|j: int| 0 <= j < v@.len() implies view_exprs(out@)[j] == view_exprs(v@)[j] by {
            assert(out@[j]@ == v@[j]@);
        }
        assert(view_exprs(out@) =~= view_exprs(v@));
    }
    out
}

/// Clones a list of names; the list of views is unchanged.
pub(crate) fn clone_names(v: &Vec<String>) -> (res: Vec<String>)
    ensures
        view_names(res@) == view_names(v@),
{
    let mut out: Vec<String> = Vec::new();
    let mut i: usize = 0;
    while i < v.len()
        invariant
            i <= v.len(),
            out@.len() == i,
            forall|j: int| 0 <= j < i ==> out@[j]@ == #[trigger] v@[j]@,
        decreases v@.len() - i,
    {
        let s = v[i].clone();
        out.push(s);
        i += 1;
    }
    proof {
        assert(view_names(out@) =~= view_names(v@));
    }
    out
}

/// A number literal at `pos`, after whitespace: a nonempty digit run
/// whose value fits a 64-bit signed integer.  An overlarge literal is a
/// parse failure, never a wrap-around.
pub open spec fn spec_number(t: Seq<char>, pos: int) -> Option<(ExprSpec, int)> {
    let q = skip_ws(t, pos);
    let e = scan_digits(t, q);
    if e > q && num_val(t, q, e) <= i64::MAX as nat {
        Some((ExprSpec::Number(num_val(t, q, e) as i64), e))
    } else {
        None
    }
}

/// A parameter list continuation: `, name` repeated.
pub open spec fn spec_params_rest(t: Seq<char>, pos: int, acc: Seq<Seq<char>>) -> Option<
    (Seq<Seq<char>>, int),
>
    decreases t.len() - pos,
{
    if pos < 0 || pos > t.len() {
        None
    } else {
        let q = skip_ws(t, pos);
        if q < pos || q > t.len() {
            None
        } else if q < t.len() && t[q] == ',' {
            match ident_at(t, q + 1) {
                None => None,
                Some((a, e)) => if e <= pos || e > t.len() {
                    None
                } else {
                    spec_params_rest(t, e, acc.push(t.subrange(a, e)))
                },
            }
        } else {
            Some((acc, pos))
        }
    }
}

/// A parameter list: empty, or names separated by commas.  Ends before
/// the closing parenthesis, which the caller checks.
pub open spec fn spec_params(t: Seq<char>, pos: int) -> Option<(Seq<Seq<char>>, int)> {
    if pos < 0 || pos > t.len() {
        None
    } else {
        let q = skip_ws(t, pos);
        if q < t.len() && t[q] == ')' {
            Some((Seq::empty(), pos))
        } else {
            match ident_at(t, pos) {
                None => None,
                Some((a, e)) => spec_params_rest(t, e, seq![t.subrange(a, e)]),
            }
        }
    }
}

/// A factor: a number, a parenthesized expression, a function call, or a
/// variable reference — the highest-precedence rule.
pub open spec fn spec_factor(t: Seq<char>, pos: int) -> Option<(ExprSpec, int)>
    decreases t.len() - pos, 1int,
{
    if pos < 0 || pos > t.len() {
        None
    } else {
        let q = skip_ws(t, pos);
        if q < pos || q > t.len() {
            None
        } else if q < t.len() && is_digit_char(t[q]) {
            spec_number(t, pos)
        } else if q < t.len() && t[q] == '(' {
            match spec_arith(t, q + 1) {
                None => None,
                Some((e1, p2)) => {
                    let p3 = skip_ws(t, p2);
                    if 0 <= p3 < t.len() && t[p3] == ')' {
                        Some((e1, p3 + 1))
                    } else {
                        None
                    }
                },
            }
        } else {
            match ident_at(t, pos) {
                None => None,
                Some((a, e)) => {
                    let name = t.subrange(a, e);
                    let p1 = skip_ws(t, e);
                    if 0 <= p1 < t.len() && t[p1] == '(' {
                        if p1 < q {
                            None
                        } else {
                            match spec_args(t, p1 + 1) {
                                None => None,
                                Some((args, p2)) => {
                                    let p3 = skip_ws(t, p2);
                                    if 0 <= p3 < t.len() && t[p3] == ')' {
                                        Some((ExprSpec::FuncCall(name, args), p3 + 1))
                                    } else {
                                        None
                                    }
                                },
                            }
                        }
                    } else {
                        Some((ExprSpec::Ident(name), e))
                    }
                },
            }
        }
    }
}

/// An argument list: empty, or full expressions separated by commas.
/// Ends before the closing parenthesis, which the caller checks.
pub open spec fn spec_args(t: Seq<char>, pos: int) -> Option<(Seq<ExprSpec>, int)>
    decreases t.len() - pos, 4int,
{
    if pos < 0 || pos > t.len() {
        None
    } else {
        let q = skip_ws(t, pos);
        if q < pos || q > t.len() {
            None
        } else if q < t.len() && t[q] == ')' {
            Some((Seq::empty(), pos))
        } else {
            match spec_arith(t, pos) {
                None => None,
                Some((e1, p1)) => if p1 <= pos || p1 > t.len() {
                    None
                } else {
                    spec_args_rest(t, p1, seq![e1])
                },
            }
        }
    }
}

/// An argument list continuation: `, expression` repeated.
pub open spec fn spec_args_rest(t: Seq<char>, pos: int, acc: Seq<ExprSpec>) -> Option<
    (Seq<ExprSpec>, int),
>
    decreases t.len() - pos, 0int,
{
    if pos < 0 || pos > t.len() {
        None
    } else {
        let q = skip_ws(t, pos);
        if q < pos || q > t.len() {
            None
        } else if q < t.len() && t[q] == ',' {
            match spec_arith(t, q + 1) {
                None => None,
                Some((e1, p1)) => if p1 <= pos || p1 > t.len() {
                    None
                } else {
                    spec_args_rest(t, p1, acc.push(e1))
                },
            }
        } else {
            Some((acc, pos))
        }
    }
}

/// A term: factors joined by `*` and `/`, folded to the left.
pub open spec fn spec_term(t: Seq<char>, pos: int) -> Option<(ExprSpec, int)>
    decreases t.len() - pos, 2int,
{
    if pos < 0 || pos > t.len() {
        None
    } else {
        match spec_factor(t, pos) {
            None => None,
            Some((e1, p1)) => if p1 <= pos || p1 > t.len() {
                None
            } else {
                spec_term_rest(t, p1, e1)
            },
        }
    }
}

/// A term continuation: `* factor` and `/ factor`, folded onto `acc`.
pub open spec fn spec_term_rest(t: Seq<char>, pos: int, acc: ExprSpec) -> Option<(ExprSpec, int)>
    decreases t.len() - pos, 0int,
{
    if pos < 0 || pos > t.len() {
        None
    } else {
        let q = skip_ws(t, pos);
        if q < pos || q > t.len() {
            None
        } else if q < t.len() && (t[q] == '*' || t[q] == '/') {
            match spec_factor(t, q + 1) {
                None => None,
                Some((r, p1)) => if p1 <= pos || p1 > t.len() {
                    None
                } else if t[q] == '*' {
                    spec_term_rest(t, p1, ExprSpec::Mul(Box::new(acc), Box::new(r)))
                } else {
                    spec_term_rest(t, p1, ExprSpec::Div(Box::new(acc), Box::new(r)))
                },
            }
        } else {
            Some((acc, pos))
        }
    }
}

/// An arithmetic expression: terms joined by `+` and `-`, folded to the
/// left, so `10 - 3 - 2` reads as `(10 - 3) - 2`.
pub open spec fn spec_arith(t: Seq<char>, pos: int) -> Option<(ExprSpec, int)>
    decreases t.len() - pos, 3int,
{
    if pos < 0 || pos > t.len() {
        None
    } else {
        match spec_term(t, pos) {
            None => None,
            Some((e1, p1)) => if p1 <= pos || p1 > t.len() {
                None
            } else {
                spec_arith_rest(t, p1, e1)
            },
        }
    }
}

/// An arithmetic continuation: `+ term` and `- term`, folded onto `acc`.
pub open spec fn spec_arith_rest(t: Seq<char>, pos: int, acc: ExprSpec) -> Option<(ExprSpec, int)>
    decreases t.len() - pos, 0int,
{
    if pos < 0 || pos > t.len() {
        None
    } else {
        let q = skip_ws(t, pos);
        if q < pos || q > t.len() {
            None
        } else if q < t.len() && (t[q] == '+' || t[q] == '-') {
            match spec_term(t, q + 1) {
                None => None,
                Some((r, p1)) => if p1 <= pos || p1 > t.len() {
                    None
                } else if t[q] == '+' {
                    spec_arith_rest(t, p1, ExprSpec::Add(Box::new(acc), Box::new(r)))
                } else {
                    spec_arith_rest(t, p1, ExprSpec::Sub(Box::new(acc), Box::new(r)))
                },
            }
        } else {
            Some((acc, pos))
        }
    }
}

/// A braced block: `{ statement* }`.
pub open spec fn spec_block(t: Seq<char>, pos: int) -> Option<(ExprSpec, int)>
    decreases t.len() - pos, 5int,
{
    if pos < 0 || pos > t.len() {
        None
    } else {
        let q = skip_ws(t, pos);
        if q < pos || q > t.len() {
            None
        } else if q < t.len() && t[q] == '{' {
            let (ss, p) = spec_stmts(t, q + 1);
            if 0 <= p < t.len() && t[p] == '}' {
                Some((ExprSpec::Block(ss), p + 1))
            } else {
                None
            }
        } else {
            None
        }
    }
}

/// `if condition { then } else { other }`, the else part optional.  An
/// `else` keyword not followed by a block is a parse failure.
pub open spec fn spec_if(t: Seq<char>, pos: int) -> Option<(ExprSpec, int)>
    decreases t.len() - pos, 5int,
{
    if pos < 0 || pos > t.len() {
        None
    } else {
        match kw_end(t, pos, seq!['i', 'f']) {
            None => None,
            Some(pk) => if pk <= pos || pk > t.len() {
                None
            } else {
                match spec_arith(t, pk) {
                    None => None,
                    Some((cond, p1)) => if p1 <= pos || p1 > t.len() {
                        None
                    } else {
                        match spec_block(t, p1) {
                            None => None,
                            Some((thn, p2)) => if p2 <= pos || p2 > t.len() {
                                None
                            } else {
                                match kw_end(t, p2, seq!['e', 'l', 's', 'e']) {
                                    None => Some(
                                        (ExprSpec::If(Box::new(cond), Box::new(thn), None), p2),
                                    ),
                                    Some(p3) => if p3 <= pos || p3 > t.len() {
                                        None
                                    } else {
                                        match spec_block(t, p3) {
                                            None => None,
                                            Some((els, p4)) => Some(
                                                (
                                                    ExprSpec::If(
                                                        Box::new(cond),
                                                        Box::new(thn),
                                                        Some(Box::new(els)),
                                                    ),
                                                    p4,
                                                ),
                                            ),
                                        }
                                    },
                                }
                            },
                        }
                    },
                }
            },
        }
    }
}

/// `while condition { body }`.
pub open spec fn spec_while(t: Seq<char>, pos: int) -> Option<(ExprSpec, int)>
    decreases t.len() - pos, 5int,
{
    if pos < 0 || pos > t.len() {
        None
    } else {
        match kw_end(t, pos, seq!['w', 'h', 'i', 'l', 'e']) {
            None => None,
            Some(pk) => if pk <= pos || pk > t.len() {
                None
            } else {
                match spec_arith(t, pk) {
                    None => None,
                    Some((cond, p1)) => if p1 <= pos || p1 > t.len() {
                        None
                    } else {
                        match spec_block(t, p1) {
                            None => None,
                            Some((body, p2)) => Some(
                                (ExprSpec::While(Box::new(cond), Box::new(body)), p2),
                            ),
                        }
                    },
                }
            },
        }
    }
}

/// `fn name(params) { body }`.
pub open spec fn spec_fndef(t: Seq<char>, pos: int) -> Option<(ExprSpec, int)>
    decreases t.len() - pos, 5int,
{
    if pos < 0 || pos > t.len() {
        None
    } else {
        match kw_end(t, pos, seq!['f', 'n']) {
            None => None,
            Some(pk) => if pk <= pos || pk > t.len() {
                None
            } else {
                match ident_at(t, pk) {
                    None => None,
                    Some((a, e)) => {
                        let name = t.subrange(a, e);
                        let q1 = skip_ws(t, e);
                        if 0 <= q1 < t.len() && t[q1] == '(' {
                            if q1 < pk {
                                None
                            } else {
                                match spec_params(t, q1 + 1) {
                                    None => None,
                                    Some((ps, p2)) => {
                                        let p3 = skip_ws(t, p2);
                                        if 0 <= p3 < t.len() && t[p3] == ')' {
                                            if p3 + 1 <= pos {
                                                None
                                            } else {
                                                match spec_block(t, p3 + 1) {
                                                    None => None,
                                                    Some((body, p4)) => Some(
                                                        (
                                                            ExprSpec::FuncDef(
                                                                name,
                                                                ps,
                                                                Box::new(body),
                                                            ),
                                                            p4,
                                                        ),
                                                    ),
                                                }
                                            }
                                        } else {
                                            None
                                        }
                                    },
                                }
                            }
                        } else {
                            None
                        }
                    },
                }
            },
        }
    }
}

/// One statement: a definition or control form first, then an
/// assignment, then a plain arithmetic expression — so a leading `fn`,
/// `if`, `while` or `{` is never misread as an identifier.
pub open spec fn spec_stmt(t: Seq<char>, pos: int) -> Option<(ExprSpec, int)>
    decreases t.len() - pos, 6int,
{
    if pos < 0 || pos > t.len() {
        None
    } else if spec_fndef(t, pos) is Some {
        spec_fndef(t, pos)
    } else if spec_if(t, pos) is Some {
        spec_if(t, pos)
    } else if spec_while(t, pos) is Some {
        spec_while(t, pos)
    } else if spec_block(t, pos) is Some {
        spec_block(t, pos)
    } else {
        match ident_at(t, pos) {
            Some((a, e)) => {
                let r = skip_ws(t, e);
                if 0 <= r < t.len() && t[r] == '=' {
                    if r < pos {
                        None
                    } else {
                        match spec_arith(t, r + 1) {
                            None => None,
                            Some((v, p)) => Some(
                                (ExprSpec::Assign(t.subrange(a, e), Box::new(v)), p),
                            ),
                        }
                    }
                } else {
                    spec_arith(t, pos)
                }
            },
            None => spec_arith(t, pos),
        }
    }
}

/// Whether the executable result `r` is the specified one `sr`, ending
/// past `pos` and within the text.
pub open spec fn agrees(r: Option<(Expr, usize)>, sr: Option<(ExprSpec, int)>, pos: int, len: int) -> bool {
    match r {
        None => sr is None,
        Some(ep) => sr == Some((ep.0@, ep.1 as int)) && pos < ep.1 && ep.1 as int <= len,
    }
}

/// As [`agrees`], for continuations that may consume nothing.
pub open spec fn agrees_from(
    r: Option<(Expr, usize)>,
    sr: Option<(ExprSpec, int)>,
    pos: int,
    len: int,
) -> bool {
    match r {
        None => sr is None,
        Some(ep) => sr == Some((ep.0@, ep.1 as int)) && pos <= ep.1 && ep.1 as int <= len,
    }
}

/// A statement sequence: statements separated by whitespace and `;`,
/// as many as parse; the result also gives where the sequence stopped,
/// with trailing separators consumed.
pub open spec fn spec_stmts(t: Seq<char>, pos: int) -> (Seq<ExprSpec>, int)
    decreases t.len() - pos, 7int,
{
    if pos < 0 || pos > t.len() {
        (Seq::empty(), pos)
    } else {
        let q = skip_seps(t, pos);
        if q < pos || q > t.len() {
            (Seq::empty(), q)
        } else {
            match spec_stmt(t, q) {
                None => (Seq::empty(), q),
                Some((e, p)) => if p <= pos || p > t.len() {
                    (seq![e], p)
                } else {
                    let (rest, p2) = spec_stmts(t, p);
                    (seq![e] + rest, p2)
                },
            }
        }
    }
}

/// Parses a number literal at `pos`.
#[verifier::loop_isolation(false)]
fn parse_number(s: &str, pos: usize) -> (r: Option<(Expr, usize)>)
    requires
        s.is_ascii(),
        pos as int <= s@.len(),
    ensures
        agrees(r, spec_number(s@, pos as int), pos as int, s@.len() as int),
{
    let q = ws_end(s, pos);
    let e = digits_end(s, q);
    if e == q {
        return None;
    }
    proof {
        lemma_scan_digits(s@, q as int);
    }
    let mut acc: u128 = 0;
    let mut i = q;
    while i < e
        invariant
            q <= i <= e,
            acc == num_val(s@, q as int, i as int),
            acc <= 0x7FFF_FFFF_FFFF_FFFFu128,
        decreases e - i,
    {
        let b = s.get_ascii(i);
        proof {
            assert(is_digit_char(s@[i as int]));
            assert('\0' <= s@[i as int] <= '\u{7f}');
            assert(b as u32 == s@[i as int] as u32);
        }
        let d = (b - 48) as u128;
        acc = acc * 10 + d;
        proof {
            assert(acc == num_val(s@, q as int, i as int + 1));
        }
        i += 1;
        if acc > 0x7FFF_FFFF_FFFF_FFFFu128 {
            proof {
                lemma_num_val_grows(s@, q as int, i as int, e as int);
            }
            return None;
        }
    }
    Some((Expr::Number(acc as i64), e))
}

/// Parses a factor at `pos`.
fn parse_factor(s: &str, pos: usize) -> (r: Option<(Expr, usize)>)
    requires
        s.is_ascii(),
        pos as int <= s@.len(),
    ensures
        agrees(r, spec_factor(s@, pos as int), pos as int, s@.len() as int),
    decreases s@.len() - pos, 1int,
{
    let n = char_len(s);
    let q = ws_end(s, pos);
    if q < n {
        let b = s.get_ascii(q);
        proof {
            assert('\0' <= s@[q as int] <= '\u{7f}');
        }
        if 48 <= b && b <= 57 {
            proof {
                assert(is_digit_char(s@[q as int]));
            }
            return parse_number(s, pos);
        }
        proof {
            assert(!is_digit_char(s@[q as int]));
        }
        if b == 40 {
            proof {
                assert(s@[q as int] == '(');
            }
            return match parse_arith(s, q + 1) {
                None => None,
                Some((e1, p2)) => {
                    let p3 = ws_end(s, p2);
                    if p3 < n && s.get_ascii(p3) == 41 {
                        proof {
                            assert('\0' <= s@[p3 as int] <= '\u{7f}');
                            assert(s@[p3 as int] == ')');
                        }
                        Some((e1, p3 + 1))
                    } else {
                        proof {
                            if p3 < n {
                                assert('\0' <= s@[p3 as int] <= '\u{7f}');
                                assert(s@[p3 as int] != ')');
                            }
                        }
                        None
                    }
                },
            };
        }
        proof {
            assert(s@[q as int] != '(');
        }
    }
    match ident_bounds(s, pos) {
        None => None,
        Some((a, e)) => {
            let p1 = ws_end(s, e);
            if p1 < n && s.get_ascii(p1) == 40 {
                proof {
                    assert('\0' <= s@[p1 as int] <= '\u{7f}');
                    assert(s@[p1 as int] == '(');
                }
                match parse_args(s, p1 + 1) {
                    None => None,
                    Some((args, p2)) => {
                        let p3 = ws_end(s, p2);
                        if p3 < n && s.get_ascii(p3) == 41 {
                            proof {
                                assert('\0' <= s@[p3 as int] <= '\u{7f}');
                                assert(s@[p3 as int] == ')');
                            }
                            let name = s.substring_ascii(a, e).to_owned();
                            Some((Expr::FuncCall(name, args), p3 + 1))
                        } else {
                            proof {
                                if p3 < n {
                                    assert('\0' <= s@[p3 as int] <= '\u{7f}');
                                    assert(s@[p3 as int] != ')');
                                }
                            }
                            None
                        }
                    },
                }
            } else {
                proof {
                    if p1 < n {
                        assert('\0' <= s@[p1 as int] <= '\u{7f}');
                        assert(s@[p1 as int] != '(');
                    }
                }
                let name = s.substring_ascii(a, e).to_owned();
                Some((Expr::Ident(name), e))
            }
        },
    }
}

/// Parses an argument list at `pos`.
fn parse_args(s: &str, pos: usize) -> (r: Option<(Vec<Expr>, usize)>)
    requires
        s.is_ascii(),
        pos as int <= s@.len(),
    ensures
        (match r {
            None => spec_args(s@, pos as int) is None,
            Some(ep) => spec_args(s@, pos as int) == Some((view_exprs(ep.0@), ep.1 as int)) && pos
                <= ep.1 && ep.1 as int <= s@.len(),
        }),
    decreases s@.len() - pos, 4int,
{
    let n = char_len(s);
    let q = ws_end(s, pos);
    if q < n && s.get_ascii(q) == 41 {
        proof {
            assert('\0' <= s@[q as int] <= '\u{7f}');
            assert(s@[q as int] == ')');
            assert(view_exprs(Seq::<Expr>::empty()) == Seq::<ExprSpec>::empty());
        }
        return Some((Vec::new(), pos));
    }
    proof {
        if q < n {
            assert('\0' <= s@[q as int] <= '\u{7f}');
            assert(s@[q as int] != ')');
        }
    }
    match parse_arith(s, pos) {
        None => None,
        Some((e1, p1)) => {
            let mut acc: Vec<Expr> = Vec::new();
            let ghost ev = e1@;
            acc.push(e1);
            proof {
                lemma_view_exprs(acc@);
                assert(view_exprs(acc@) =~= seq![ev]);
            }
            parse_args_rest(s, p1, acc)
        },
    }
}

/// Parses an argument-list continuation at `pos`.
fn parse_args_rest(s: &str, pos: usize, acc: Vec<Expr>) -> (r: Option<(Vec<Expr>, usize)>)
    requires
        s.is_ascii(),
        pos as int <= s@.len(),
    ensures
        (match r {
            None => spec_args_rest(s@, pos as int, view_exprs(acc@)) is None,
            Some(ep) => spec_args_rest(s@, pos as int, view_exprs(acc@)) == Some(
                (view_exprs(ep.0@), ep.1 as int),
            ) && pos <= ep.1 && ep.1 as int <= s@.len(),
        }),
    decreases s@.len() - pos, 0int,
{
    let n = char_len(s);
    let q = ws_end(s, pos);
    if q < n && s.get_ascii(q) == 44 {
        proof {
            assert('\0' <= s@[q as int] <= '\u{7f}');
            assert(s@[q as int] == ',');
        }
        match parse_arith(s, q + 1) {
            None => None,
            Some((e1, p1)) => {
                let mut acc2 = acc;
                let ghost olds = acc2@;
                let ghost av = view_exprs(olds);
                let ghost ev = e1@;
                acc2.push(e1);
                proof {
                    lemma_view_exprs(acc2@);
                    lemma_view_exprs(olds);
                    assert forall|j: int| 0 <= j < acc2@.len() implies view_exprs(acc2@)[j]
                        == av.push(ev)[j] by {
                        assert(view_exprs(acc2@)[j] == acc2@[j]@);
                        if j < olds.len() {
                            assert(acc2@[j] == olds[j]);
                            assert(av[j] == olds[j]@);
                        } else {
                            assert(acc2@[j] == e1);
                        }
                    }
                    assert(view_exprs(acc2@) =~= av.push(ev));
                }
                parse_args_rest(s, p1, acc2)
            },
        }
    } else {
        proof {
            if q < n {
                assert('\0' <= s@[q as int] <= '\u{7f}');
                assert(s@[q as int] != ',');
            }
        }
        Some((acc, pos))
    }
}

/// Parses a term at `pos`.
fn parse_term(s: &str, pos: usize) -> (r: Option<(Expr, usize)>)
    requires
        s.is_ascii(),
        pos as int <= s@.len(),
    ensures
        agrees(r, spec_term(s@, pos as int), pos as int, s@.len() as int),
    decreases s@.len() - pos, 2int,
{
    match parse_factor(s, pos) {
        None => None,
        Some((e1, p1)) => parse_term_rest(s, p1, e1),
    }
}

/// Parses a term continuation at `pos`, folding onto `acc`.
fn parse_term_rest(s: &str, pos: usize, acc: Expr) -> (r: Option<(Expr, usize)>)
    requires
        s.is_ascii(),
        pos as int <= s@.len(),
    ensures
        agrees_from(r, spec_term_rest(s@, pos as int, acc@), pos as int, s@.len() as int),
    decreases s@.len() - pos, 0int,
{
    let n = char_len(s);
    let q = ws_end(s, pos);
    if q < n {
        let b = s.get_ascii(q);
        proof {
            assert('\0' <= s@[q as int] <= '\u{7f}');
        }
        if b == 42 || b == 47 {
            proof {
                assert(s@[q as int] == '*' || s@[q as int] == '/');
            }
            return match parse_factor(s, q + 1) {
                None => None,
                Some((rhs, p1)) => {
                    let node = if b == 42 {
                        proof {
                            assert(s@[q as int] == '*');
                        }
                        Expr::Mul(Box::new(acc), Box::new(rhs))
                    } else {
                        proof {
                            assert(s@[q as int] == '/');
                        }
                        Expr::Div(Box::new(acc), Box::new(rhs))
                    };
                    parse_term_rest(s, p1, node)
                },
            };
        }
        proof {
            assert(s@[q as int] != '*' && s@[q as int] != '/');
        }
    }
    Some((acc, pos))
}

/// Parses an arithmetic expression at `pos`.
fn parse_arith(s: &str, pos: usize) -> (r: Option<(Expr, usize)>)
    requires
        s.is_ascii(),
        pos as int <= s@.len(),
    ensures
        agrees(r, spec_arith(s@, pos as int), pos as int, s@.len() as int),
    decreases s@.len() - pos, 3int,
{
    match parse_term(s, pos) {
        None => None,
        Some((e1, p1)) => parse_arith_rest(s, p1, e1),
    }
}

/// Parses an arithmetic continuation at `pos`, folding onto `acc`.
fn parse_arith_rest(s: &str, pos: usize, acc: Expr) -> (r: Option<(Expr, usize)>)
    requires
        s.is_ascii(),
        pos as int <= s@.len(),
    ensures
        agrees_from(r, spec_arith_rest(s@, pos as int, acc@), pos as int, s@.len() as int),
    decreases s@.len() - pos, 0int,
{
    let n = char_len(s);
    let q = ws_end(s, pos);
    if q < n {
        let b = s.get_ascii(q);
        proof {
            assert('\0' <= s@[q as int] <= '\u{7f}');
        }
        if b == 43 || b == 45 {
            proof {
                assert(s@[q as int] == '+' || s@[q as int] == '-');
            }
            return match parse_term(s, q + 1) {
                None => None,
                Some((rhs, p1)) => {
                    let node = if b == 43 {
                        proof {
                            assert(s@[q as int] == '+');
                        }
                        Expr::Add(Box::new(acc), Box::new(rhs))
                    } else {
                        proof {
                            assert(s@[q as int] == '-');
                        }
                        Expr::Sub(Box::new(acc), Box::new(rhs))
                    };
                    parse_arith_rest(s, p1, node)
                },
            };
        }
        proof {
            assert(s@[q as int] != '+' && s@[q as int] != '-');
        }
    }
    Some((acc, pos))
}

/// Parses a parameter list at `pos`.
fn parse_params(s: &str, pos: usize) -> (r: Option<(Vec<String>, usize)>)
    requires
        s.is_ascii(),
        pos as int <= s@.len(),
    ensures
        (match r {
            None => spec_params(s@, pos as int) is None,
            Some(ep) => spec_params(s@, pos as int) == Some((view_names(ep.0@), ep.1 as int))
                && pos <= ep.1 && ep.1 as int <= s@.len(),
        }),
{
    let n = char_len(s);
    let q = ws_end(s, pos);
    if q < n && s.get_ascii(q) == 41 {
        proof {
            assert('\0' <= s@[q as int] <= '\u{7f}');
            assert(s@[q as int] == ')');
            assert(view_names(Seq::<String>::empty()) =~= Seq::<Seq<char>>::empty());
        }
        return Some((Vec::new(), pos));
    }
    proof {
        if q < n {
            assert('\0' <= s@[q as int] <= '\u{7f}');
            assert(s@[q as int] != ')');
        }
    }
    match ident_bounds(s, pos) {
        None => None,
        Some((a, e)) => {
            let name = s.substring_ascii(a, e).to_owned();
            let mut acc: Vec<String> = Vec::new();
            let ghost nv = name@;
            acc.push(name);
            proof {
                assert(view_names(acc@) =~= seq![nv]);
            }
            parse_params_rest(s, e, acc)
        },
    }
}

/// Parses a parameter-list continuation at `pos`.
fn parse_params_rest(s: &str, pos: usize, acc: Vec<String>) -> (r: Option<(Vec<String>, usize)>)
    requires
        s.is_ascii(),
        pos as int <= s@.len(),
    ensures
        (match r {
            None => spec_params_rest(s@, pos as int, view_names(acc@)) is None,
            Some(ep) => spec_params_rest(s@, pos as int, view_names(acc@)) == Some(
                (view_names(ep.0@), ep.1 as int),
            ) && pos <= ep.1 && ep.1 as int <= s@.len(),
        }),
    decreases s@.len() - pos,
{
    let n = char_len(s);
    let q = ws_end(s, pos);
    if q < n && s.get_ascii(q) == 44 {
        proof {
            assert('\0' <= s@[q as int] <= '\u{7f}');
            assert(s@[q as int] == ',');
        }
        match ident_bounds(s, q + 1) {
            None => None,
            Some((a, e)) => {
                let name = s.substring_ascii(a, e).to_owned();
                let mut acc2 = acc;
                let ghost olds = acc2@;
                let ghost av = view_names(olds);
                let ghost nv = name@;
                acc2.push(name);
                proof {
                    assert(view_names(acc2@) =~= av.push(nv));
                }
                parse_params_rest(s, e, acc2)
            },
        }
    } else {
        proof {
            if q < n {
                assert('\0' <= s@[q as int] <= '\u{7f}');
                assert(s@[q as int] != ',');
            }
        }
        Some((acc, pos))
    }
}

/// Parses a braced block at `pos`.
fn parse_block(s: &str, pos: usize) -> (r: Option<(Expr, usize)>)
    requires
        s.is_ascii(),
        pos as int <= s@.len(),
    ensures
        agrees(r, spec_block(s@, pos as int), pos as int, s@.len() as int),
    decreases s@.len() - pos, 5int,
{
    let n = char_len(s);
    let q = ws_end(s, pos);
    if q < n && s.get_ascii(q) == 123 {
        proof {
            assert('\0' <= s@[q as int] <= '\u{7f}');
            assert(s@[q as int] == '{');
        }
        let (ss, p) = parse_stmts(s, q + 1);
        if p < n && s.get_ascii(p) == 125 {
            proof {
                assert('\0' <= s@[p as int] <= '\u{7f}');
                assert(s@[p as int] == '}');
            }
            Some((Expr::Block(ss), p + 1))
        } else {
            proof {
                if p < n {
                    assert('\0' <= s@[p as int] <= '\u{7f}');
                    assert(s@[p as int] != '}');
                }
            }
            None
        }
    } else {
        proof {
            if q < n {
                assert('\0' <= s@[q as int] <= '\u{7f}');
                assert(s@[q as int] != '{');
            }
        }
        None
    }
}

/// Parses an `if` form at `pos`.
fn parse_if(s: &str, pos: usize) -> (r: Option<(Expr, usize)>)
    requires
        s.is_ascii(),
        pos as int <= s@.len(),
    ensures
        agrees(r, spec_if(s@, pos as int), pos as int, s@.len() as int),
    decreases s@.len() - pos, 5int,
{
    proof {
        assert(seq!['i', 'f'].len() == 2);
        assert(seq!['i', 'f'][0] == 'i' && seq!['i', 'f'][1] == 'f');
    }
    let ghost kwseq = seq!['i', 'f'];
    let pk = match kw_match(s, pos, &[105u8, 102u8], Ghost(kwseq)) {
        None => {
            return None;
        },
        Some(pk) => pk,
    };
    match parse_arith(s, pk) {
        None => None,
        Some((cond, p1)) => {
            match parse_block(s, p1) {
                None => None,
                Some((thn, p2)) => {
                    proof {
                        assert(seq!['e', 'l', 's', 'e'].len() == 4);
                        assert(seq!['e', 'l', 's', 'e'][0] == 'e' && seq!['e', 'l', 's', 'e'][1]
                            == 'l' && seq!['e', 'l', 's', 'e'][2] == 's' && seq!['e', 'l', 's', 'e'][3]
                            == 'e');
                    }
                    let ghost kwelse = seq!['e', 'l', 's', 'e'];
                    match kw_match(s, p2, &[101u8, 108u8, 115u8, 101u8], Ghost(kwelse)) {
                        None => Some((Expr::If(Box::new(cond), Box::new(thn), None), p2)),
                        Some(p3) => {
                            match parse_block(s, p3) {
                                None => None,
                                Some((els, p4)) => Some(
                                    (
                                        Expr::If(Box::new(cond), Box::new(thn), Some(Box::new(els))),
                                        p4,
                                    ),
                                ),
                            }
                        },
                    }
                },
            }
        },
    }
}

/// Parses a `while` form at `pos`.
fn parse_while(s: &str, pos: usize) -> (r: Option<(Expr, usize)>)
    requires
        s.is_ascii(),
        pos as int <= s@.len(),
    ensures
        agrees(r, spec_while(s@, pos as int), pos as int, s@.len() as int),
    decreases s@.len() - pos, 5int,
{
    proof {
        assert(seq!['w', 'h', 'i', 'l', 'e'].len() == 5);
        assert(seq!['w', 'h', 'i', 'l', 'e'][0] == 'w' && seq!['w', 'h', 'i', 'l', 'e'][1] == 'h'
            && seq!['w', 'h', 'i', 'l', 'e'][2] == 'i' && seq!['w', 'h', 'i', 'l', 'e'][3] == 'l'
            && seq!['w', 'h', 'i', 'l', 'e'][4] == 'e');
    }
    let ghost kwseq = seq!['w', 'h', 'i', 'l', 'e'];
    let pk = match kw_match(s, pos, &[119u8, 104u8, 105u8, 108u8, 101u8], Ghost(kwseq)) {
        None => {
            return None;
        },
        Some(pk) => pk,
    };
    match parse_arith(s, pk) {
        None => None,
        Some((cond, p1)) => {
            match parse_block(s, p1) {
                None => None,
                Some((body, p2)) => Some((Expr::While(Box::new(cond), Box::new(body)), p2)),
            }
        },
    }
}

/// Parses a function definition at `pos`.
fn parse_fndef(s: &str, pos: usize) -> (r: Option<(Expr, usize)>)
    requires
        s.is_ascii(),
        pos as int <= s@.len(),
    ensures
        agrees(r, spec_fndef(s@, pos as int), pos as int, s@.len() as int),
    decreases s@.len() - pos, 5int,
{
    proof {
        assert(seq!['f', 'n'].len() == 2);
        assert(seq!['f', 'n'][0] == 'f' && seq!['f', 'n'][1] == 'n');
    }
    let ghost kwseq = seq!['f', 'n'];
    let pk = match kw_match(s, pos, &[102u8, 110u8], Ghost(kwseq)) {
        None => {
            return None;
        },
        Some(pk) => pk,
    };
    let n = char_len(s);
    match ident_bounds(s, pk) {
        None => None,
        Some((a, e)) => {
            let q1 = ws_end(s, e);
            if q1 < n && s.get_ascii(q1) == 40 {
                proof {
                    assert('\0' <= s@[q1 as int] <= '\u{7f}');
                    assert(s@[q1 as int] == '(');
                }
                match parse_params(s, q1 + 1) {
                    None => None,
                    Some((ps, p2)) => {
                        let p3 = ws_end(s, p2);
                        if p3 < n && s.get_ascii(p3) == 41 {
                            proof {
                                assert('\0' <= s@[p3 as int] <= '\u{7f}');
                                assert(s@[p3 as int] == ')');
                            }
                            match parse_block(s, p3 + 1) {
                                None => None,
                                Some((body, p4)) => {
                                    let name = s.substring_ascii(a, e).to_owned();
                                    Some((Expr::FuncDef(name, ps, Box::new(body)), p4))
                                },
                            }
                        } else {
                            proof {
                                if p3 < n {
                                    assert('\0' <= s@[p3 as int] <= '\u{7f}');
                                    assert(s@[p3 as int] != ')');
                                }
                            }
                            None
                        }
                    },
                }
            } else {
                proof {
                    if q1 < n {
                        assert('\0' <= s@[q1 as int] <= '\u{7f}');
                        assert(s@[q1 as int] != '(');
                    }
                }
                None
            }
        },
    }
}

/// Parses one statement at `pos`.
fn parse_stmt(s: &str, pos: usize) -> (r: Option<(Expr, usize)>)
    requires
        s.is_ascii(),
        pos as int <= s@.len(),
    ensures
        agrees(r, spec_stmt(s@, pos as int), pos as int, s@.len() as int),
    decreases s@.len() - pos, 6int,
{
    match parse_fndef(s, pos) {
        Some(v) => {
            return Some(v);
        },
        None => {},
    }
    match parse_if(s, pos) {
        Some(v) => {
            return Some(v);
        },
        None => {},
    }
    match parse_while(s, pos) {
        Some(v) => {
            return Some(v);
        },
        None => {},
    }
    match parse_block(s, pos) {
        Some(v) => {
            return Some(v);
        },
        None => {},
    }
    let n = char_len(s);
    match ident_bounds(s, pos) {
        Some((a, e)) => {
            let q = ws_end(s, e);
            if q < n && s.get_ascii(q) == 61 {
                proof {
                    assert('\0' <= s@[q as int] <= '\u{7f}');
                    assert(s@[q as int] == '=');
                }
                match parse_arith(s, q + 1) {
                    None => None,
                    Some((v, p)) => {
                        let name = s.substring_ascii(a, e).to_owned();
                        Some((Expr::Assign(name, Box::new(v)), p))
                    },
                }
            } else {
                proof {
                    if q < n {
                        assert('\0' <= s@[q as int] <= '\u{7f}');
                        assert(s@[q as int] != '=');
                    }
                }
                parse_arith(s, pos)
            }
        },
        None => parse_arith(s, pos),
    }
}

/// Parses a statement sequence at `pos`; never fails, and consumes
/// trailing separators.
fn parse_stmts(s: &str, pos: usize) -> (r: (Vec<Expr>, usize))
    requires
        s.is_ascii(),
        pos as int <= s@.len(),
    ensures
        spec_stmts(s@, pos as int) == (view_exprs(r.0@), r.1 as int),
        pos <= r.1,
        r.1 as int <= s@.len(),
    decreases s@.len() - pos, 7int,
{
    let q = seps_end(s, pos);
    match parse_stmt(s, q) {
        None => (Vec::new(), q),
        Some((e, p)) => {
            let (rest, p2) = parse_stmts(s, p);
            let ghost eex = e;
            let ghost restv = rest@;
            let mut out: Vec<Expr> = Vec::new();
            out.push(e);
            let mut rest2 = rest;
            out.append(&mut rest2);
            proof {
                let outv = out@;
                assert(outv.len() == 1 + restv.len());
                assert(outv[0] == eex);
                assert(outv.subrange(1, outv.len() as int) =~= restv);
                assert(view_exprs(outv) == seq![outv[0]@] + view_exprs(
                    outv.subrange(1, outv.len() as int),
                ));
                assert(view_exprs(outv) == seq![eex@] + view_exprs(restv));
            }
            (out, p2)
        },
    }
}

/// At the very end of the text no statement parses: every rule needs at
/// least one more character.
proof fn lemma_no_stmt_at_end(t: Seq<char>)
    ensures
        spec_stmt(t, t.len() as int) is None,
{
    let n = t.len() as int;
    assert(skip_ws(t, n) == n);
    assert(scan_alnum(t, n) == n);
    assert(ident_at(t, n) is None);
    assert(kw_end(t, n, seq!['f', 'n']) is None);
    assert(kw_end(t, n, seq!['i', 'f']) is None);
    assert(kw_end(t, n, seq!['w', 'h', 'i', 'l', 'e']) is None);
    assert(spec_fndef(t, n) is None);
    assert(spec_if(t, n) is None);
    assert(spec_while(t, n) is None);
    assert(spec_block(t, n) is None);
    assert(spec_factor(t, n) is None);
    assert(spec_term(t, n) is None);
    assert(spec_arith(t, n) is None);
}

/// Parser totality on blank input: text that is nothing but whitespace
/// is the empty program — statement parsing consumes it whole and
/// yields no statements, so `parse_program` returns an empty block with
/// nothing left over, never a failure.
pub proof fn lemma_whitespace_is_empty_program(t: Seq<char>)
    requires
        forall|i: int| 0 <= i < t.len() ==> is_space_char(#[trigger] t[i]),
    ensures
        spec_stmts(t, 0) == (Seq::<ExprSpec>::empty(), t.len() as int),
{
    let n = t.len() as int;
    lemma_skip_seps(t, 0);
    let q = skip_seps(t, 0);
    if q < n {
        assert(is_space_char(t[q]));
        assert(false);
    }
    lemma_no_stmt_at_end(t);
}

/// A parse failure; it carries the text that could not be consumed.
#[derive(Debug)]
pub struct ParseError<'a> {
    pub remaining: &'a str,
}

/// The part of the text that the grammar can see: its leading ASCII
/// run.  The token set is ASCII, so the first character outside it ends
/// every token and every statement; whatever follows is unconsumed
/// remainder.
pub open spec fn ascii_head(t: Seq<char>) -> Seq<char> {
    t.subrange(0, scan_ascii(t, 0))
}

/// Cuts the input at its first character outside ASCII, returning the
/// head the grammar works on.
fn split_ascii_head<'a>(input: &'a str) -> (head: &'a str)
    ensures
        head@ == ascii_head(input@),
        head.is_ascii(),
        head@.len() <= input@.len(),
{
    proof {
        lemma_scan_ascii(input@, 0);
    }
    let k = ascii_run_end(input);
    let head = input.substring_char(0, k);
    proof {
        assert forall|i: int| 0 <= i < head@.len() implies '\0' <= #[trigger] head@[i]
            <= '\u{7f}' by {
            assert(head@[i] == input@[i]);
            assert(crate::lex::is_ascii_char(input@[i]));
        }
    }
    head
}

/// Parses one statement-level expression from the start of `input`:
/// a function definition, an `if`, a `while`, a block, an assignment or
/// an arithmetic expression, whichever the grammar makes of it.
///
/// On success the unconsumed rest of the input is returned with the
/// tree; trailing text is the caller's to judge.  The token set is
/// ASCII, so text from the first character outside ASCII on is always
/// part of that rest.  On failure — nothing parseable at the start of
/// the input — the error carries the whole input, and nothing has been
/// consumed.
pub fn parse_expr<'a>(input: &'a str) -> (r: Result<(&'a str, Expr), ParseError<'a>>)
    ensures
        (match r {
            Ok(re) => (spec_stmt(ascii_head(input@), 0) matches Some(ep) && ep.0 == re.1@ && 0
                < ep.1 <= input@.len() && re.0@ == input@.subrange(ep.1, input@.len() as int)),
            Err(pe) => spec_stmt(ascii_head(input@), 0) is None && pe.remaining@ == input@,
        }),
{
    let head = split_ascii_head(input);
    match parse_stmt(head, 0) {
        None => Err(ParseError { remaining: input }),
        Some((e, p)) => {
            let n = input.unicode_len();
            let rest = input.substring_char(p, n);
            Ok((rest, e))
        },
    }
}

/// Parses a whole program: statements separated by whitespace or `;`,
/// as many as the grammar can make of the input, gathered into a block.
///
/// This never fails.  The statements of the longest parseable prefix
/// are returned, and everything after them — a text holding no
/// statement at all gives the empty block — is the unconsumed
/// remainder, for the caller to judge.  The token set is ASCII, so the
/// remainder includes everything from the first character outside
/// ASCII on.
pub fn parse_program<'a>(input: &'a str) -> (r: Result<(&'a str, Expr), ParseError<'a>>)
    ensures
        r is Ok,
        (r matches Ok(re) ==> ({
            let (sv, p) = spec_stmts(ascii_head(input@), 0);
            re.1@ == ExprSpec::Block(sv) && 0 <= p <= input@.len() && re.0@ == input@.subrange(
                p,
                input@.len() as int,
            )
        })),
{
    let head = split_ascii_head(input);
    let (ss, p) = parse_stmts(head, 0);
    let n = input.unicode_len();
    let rest = input.substring_char(p, n);
    Ok((rest, Expr::Block(ss)))
}

} // verus!

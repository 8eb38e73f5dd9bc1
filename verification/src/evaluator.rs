//! The tree-walking evaluator.
//!
//! `eval` walks an abstract syntax tree and produces a 64-bit signed
//! integer, mutating the environment as it goes.  Its whole behaviour is
//! given by the specification function [`eval_spec`].
//!
//! Policy choices, applied uniformly:
//! - an unbound variable reads as 0 (the permissive policy);
//! - arithmetic that leaves the 64-bit signed range is an
//!   [`EvalError::IntegerOverflow`], never a wrap-around;
//! - division truncates toward zero, as the grammar's host machine does,
//!   and a zero divisor is an [`EvalError::DivisionByZero`];
//! - loop iterations and nested calls each spend one unit of `fuel`, so
//!   that a runaway program stops with [`EvalError::OutOfFuel`] instead of
//!   running forever; nothing else costs fuel.
use crate::environment::{EnvModel, Environment, FuncSpec};
use crate::parser::{lemma_view_exprs, view_exprs, view_names, Expr, ExprSpec};
use vstd::prelude::*;

verus! {

/// Why an evaluation stopped without producing a value.
#[derive(Clone, Copy, Debug, PartialEq, Eq, Structural)]
pub enum EvalError {
    /// A division with a zero divisor.
    DivisionByZero,
    /// A call of a name with no registered definition.
    UndefinedFunction,
    /// A call whose argument count differs from the parameter count.
    ArityMismatch,
    /// An arithmetic result outside the 64-bit signed range.
    IntegerOverflow,
    /// The fuel bound was spent before evaluation finished.
    OutOfFuel,
}

/// The value of `name` in the variable map: its binding, or 0.
pub open spec fn lookup_var(env: EnvModel, name: Seq<char>) -> i64 {
    if env.vars.contains_key(name) {
        env.vars[name]
    } else {
        0i64
    }
}

/// Packs an exact integer back into `i64`, or reports overflow.
pub open spec fn clamp_result(v: int, env: EnvModel) -> (EnvModel, Result<i64, EvalError>) {
    if i64::MIN <= v <= i64::MAX {
        (env, Ok(v as i64))
    } else {
        (env, Err(EvalError::IntegerOverflow))
    }
}

/// Integer division truncated toward zero, the host machine's rule for
/// signed operands.
pub open spec fn truncate_div(a: int, b: int) -> int {
    if (a < 0) == (b < 0) {
        (vstd::math::abs(a) / vstd::math::abs(b)) as int
    } else {
        -((vstd::math::abs(a) / vstd::math::abs(b)) as int)
    }
}

/// Binds parameter names to argument values, left to right.
pub open spec fn bind_params(
    params: Seq<Seq<char>>,
    vals: Seq<i64>,
    vars: Map<Seq<char>, i64>,
) -> Map<Seq<char>, i64>
    decreases params.len(),
{
    if params.len() == 0 || vals.len() == 0 {
        vars
    } else {
        bind_params(
            params.subrange(1, params.len() as int),
            vals.subrange(1, vals.len() as int),
            vars.insert(params[0], vals[0]),
        )
    }
}

/// What evaluating `e` in `env` does: the environment afterwards, and
/// either the value or the error.  Errors leave the mutations made up to
/// the failure point in place, matching strict left-to-right order.
pub open spec fn eval_spec(e: ExprSpec, env: EnvModel, fuel: nat) -> (EnvModel, Result<
    i64,
    EvalError,
>)
    decreases fuel, e, 1int,
{
    match e {
        ExprSpec::Number(n) => (env, Ok(n)),
        ExprSpec::Ident(name) => (env, Ok(lookup_var(env, name))),
        ExprSpec::Var(name) => (env, Ok(lookup_var(env, name))),
        ExprSpec::Assign(name, rhs) => {
            let (env1, r) = eval_spec(*rhs, env, fuel);
            match r {
                Err(er) => (env1, Err(er)),
                Ok(v) => (
                    (EnvModel { vars: env1.vars.insert(name, v), funcs: env1.funcs }),
                    Ok(v),
                ),
            }
        },
        ExprSpec::Add(a, b) => {
            let (env1, ra) = eval_spec(*a, env, fuel);
            match ra {
                Err(er) => (env1, Err(er)),
                Ok(va) => {
                    let (env2, rb) = eval_spec(*b, env1, fuel);
                    match rb {
                        Err(er) => (env2, Err(er)),
                        Ok(vb) => clamp_result(va + vb, env2),
                    }
                },
            }
        },
        ExprSpec::Sub(a, b) => {
            let (env1, ra) = eval_spec(*a, env, fuel);
            match ra {
                Err(er) => (env1, Err(er)),
                Ok(va) => {
                    let (env2, rb) = eval_spec(*b, env1, fuel);
                    match rb {
                        Err(er) => (env2, Err(er)),
                        Ok(vb) => clamp_result(va - vb, env2),
                    }
                },
            }
        },
        ExprSpec::Mul(a, b) => {
            let (env1, ra) = eval_spec(*a, env, fuel);
            match ra {
                Err(er) => (env1, Err(er)),
                Ok(va) => {
                    let (env2, rb) = eval_spec(*b, env1, fuel);
                    match rb {
                        Err(er) => (env2, Err(er)),
                        Ok(vb) => clamp_result(va * vb, env2),
                    }
                },
            }
        },
        ExprSpec::Div(a, b) => {
            let (env1, ra) = eval_spec(*a, env, fuel);
            match ra {
                Err(er) => (env1, Err(er)),
                Ok(va) => {
                    let (env2, rb) = eval_spec(*b, env1, fuel);
                    match rb {
                        Err(er) => (env2, Err(er)),
                        Ok(vb) => if vb == 0 {
                            (env2, Err(EvalError::DivisionByZero))
                        } else {
                            clamp_result(truncate_div(va as int, vb as int), env2)
                        },
                    }
                },
            }
        },
        ExprSpec::If(c, t, els) => {
            let (env1, rc) = eval_spec(*c, env, fuel);
            match rc {
                Err(er) => (env1, Err(er)),
                Ok(vc) => if vc != 0 {
                    eval_spec(*t, env1, fuel)
                } else {
                    match els {
                        Some(e2) => eval_spec(*e2, env1, fuel),
                        None => (env1, Ok(0i64)),
                    }
                },
            }
        },
        ExprSpec::While(_c, _b) => eval_while_spec(e, env, fuel, 0i64),
        ExprSpec::Block(stmts) => eval_stmts_spec(stmts, 0, 0i64, env, fuel),
        ExprSpec::FuncDef(name, params, body) => (
            (EnvModel {
                vars: env.vars,
                funcs: env.funcs.insert(name, (FuncSpec { params, body: *body })),
            }),
            Ok(0i64),
        ),
        ExprSpec::FuncCall(name, args) => {
            if !env.funcs.contains_key(name) {
                (env, Err(EvalError::UndefinedFunction))
            } else {
                let fdef = env.funcs[name];
                let (env1, ra) = eval_args_spec(args, 0, Seq::empty(), env, fuel);
                match ra {
                    Err(er) => (env1, Err(er)),
                    Ok(vals) => if fdef.params.len() != vals.len() {
                        (env1, Err(EvalError::ArityMismatch))
                    } else if fuel == 0 {
                        (env1, Err(EvalError::OutOfFuel))
                    } else {
                        let callee = EnvModel {
                            vars: bind_params(fdef.params, vals, env1.vars),
                            funcs: env1.funcs,
                        };
                        let (_env2, rb) = eval_spec(fdef.body, callee, (fuel - 1) as nat);
                        (env1, rb)
                    },
                }
            }
        },
    }
}

/// One round of a `while`: the condition, then perhaps the body and the
/// next round.  `last` is the value of the most recent body evaluation,
/// 0 if the body has not run.
pub open spec fn eval_while_spec(w: ExprSpec, env: EnvModel, fuel: nat, last: i64) -> (
    EnvModel,
    Result<i64, EvalError>,
)
    decreases fuel, w, 0int,
{
    match w {
        ExprSpec::While(c, b) => {
            let (env1, rc) = eval_spec(*c, env, fuel);
            match rc {
                Err(er) => (env1, Err(er)),
                Ok(vc) => if vc == 0 {
                    (env1, Ok(last))
                } else {
                    let (env2, rb) = eval_spec(*b, env1, fuel);
                    match rb {
                        Err(er) => (env2, Err(er)),
                        Ok(vb) => if fuel == 0 {
                            (env2, Err(EvalError::OutOfFuel))
                        } else {
                            eval_while_spec(w, env2, (fuel - 1) as nat, vb)
                        },
                    }
                },
            }
        },
        _ => (env, Ok(last)),
    }
}

/// The statements of a block from position `i` on, in order; the value is
/// that of the last statement, `last` if none remain.
pub open spec fn eval_stmts_spec(
    stmts: Seq<ExprSpec>,
    i: int,
    last: i64,
    env: EnvModel,
    fuel: nat,
) -> (EnvModel, Result<i64, EvalError>)
    decreases fuel, stmts, stmts.len() - i,
{
    if 0 <= i < stmts.len() {
        let (env1, r) = eval_spec(stmts[i], env, fuel);
        match r {
            Err(er) => (env1, Err(er)),
            Ok(v) => eval_stmts_spec(stmts, i + 1, v, env1, fuel),
        }
    } else {
        (env, Ok(last))
    }
}

/// The argument list of a call from position `i` on, evaluated in the
/// caller's environment, left to right.
pub open spec fn eval_args_spec(
    args: Seq<ExprSpec>,
    i: int,
    acc: Seq<i64>,
    env: EnvModel,
    fuel: nat,
) -> (EnvModel, Result<Seq<i64>, EvalError>)
    decreases fuel, args, args.len() - i,
{
    if 0 <= i < args.len() {
        let (env1, r) = eval_spec(args[i], env, fuel);
        match r {
            Err(er) => (env1, Err(er)),
            Ok(v) => eval_args_spec(args, i + 1, acc.push(v), env1, fuel),
        }
    } else {
        (env, Ok(acc))
    }
}

/// Function isolation: whatever a call's body does to its own derived
/// environment, the caller's environment afterwards is exactly what
/// evaluating the arguments left — when the name is unknown, it is not
/// touched at all.
pub proof fn lemma_call_isolation(name: Seq<char>, args: Seq<ExprSpec>, env: EnvModel, fuel: nat)
    ensures
        env.funcs.contains_key(name) ==> eval_spec(ExprSpec::FuncCall(name, args), env, fuel).0
            == eval_args_spec(args, 0, Seq::empty(), env, fuel).0,
        !env.funcs.contains_key(name) ==> eval_spec(ExprSpec::FuncCall(name, args), env, fuel).0
            == env,
{
}

/// Division by zero is fatal: when the divisor evaluates to zero (after
/// a successful left operand), the division returns no value, whatever
/// the operands were.
pub proof fn lemma_div_by_zero_is_fatal(a: ExprSpec, b: ExprSpec, env: EnvModel, fuel: nat)
    ensures
        ({
            let (env1, ra) = eval_spec(a, env, fuel);
            let (env2, rb) = eval_spec(b, env1, fuel);
            (ra matches Ok(va) && rb matches Ok(vb) && vb == 0) ==> eval_spec(
                ExprSpec::Div(Box::new(a), Box::new(b)),
                env,
                fuel,
            ).1 == Err::<i64, EvalError>(EvalError::DivisionByZero)
        }),
{
}

/// Division of `va` by `vb`, truncated toward zero.  The one overflowing
/// case is the most negative value divided by minus one.
fn div_trunc(va: i64, vb: i64) -> (r: Result<i64, EvalError>)
    requires
        vb != 0,
    ensures
        r == (if i64::MIN <= truncate_div(va as int, vb as int) <= i64::MAX {
            Ok::<i64, EvalError>(truncate_div(va as int, vb as int) as i64)
        } else {
            Err::<i64, EvalError>(EvalError::IntegerOverflow)
        }),
{
    let neg = (va < 0) != (vb < 0);
    let ua: u64 = if va >= 0 {
        va as u64
    } else {
        (-(va as i128)) as u64
    };
    let ub: u64 = if vb >= 0 {
        vb as u64
    } else {
        (-(vb as i128)) as u64
    };
    let q: u64 = ua / ub;
    if neg {
        if q <= 0x7FFF_FFFF_FFFF_FFFFu64 {
            Ok(-(q as i64))
        } else {
            Ok(i64::MIN)
        }
    } else {
        if q <= 0x7FFF_FFFF_FFFF_FFFFu64 {
            Ok(q as i64)
        } else {
            Err(EvalError::IntegerOverflow)
        }
    }
}

/// Walks `expr` and returns its value, mutating `env` as the tree says;
/// the result and the mutation are exactly those of [`eval_spec`].
///
/// `fuel` bounds loop iterations and call depth, each round costing one
/// unit; parsing and plain arithmetic cost none.
#[verifier::loop_isolation(false)]
#[verifier::rlimit(100)]
pub fn eval(expr: &Expr, env: &mut Environment, fuel: u64) -> (r: Result<i64, EvalError>)
    ensures
        eval_spec(expr@, old(env)@, fuel as nat).0 == final(env)@,
        eval_spec(expr@, old(env)@, fuel as nat).1 == r,
    decreases fuel, expr, 1int,
{
    match expr {
        Expr::Number(n) => Ok(*n),
        Expr::Ident(name) => Ok(env.get(name.as_str())),
        Expr::Var(name) => Ok(env.get(name.as_str())),
        Expr::Assign(name, rhs) => {
            match eval(&**rhs, env, fuel) {
                Err(er) => Err(er),
                Ok(v) => {
                    env.set(name.clone(), v);
                    proof {
                        assert(eval_spec(expr@, old(env)@, fuel as nat).0 =~= env@);
                    }
                    Ok(v)
                },
            }
        },
        Expr::Add(a, b) => {
            let va = match eval(&**a, env, fuel) {
                Err(er) => {
                    return Err(er);
                },
                Ok(v) => v,
            };
            let vb = match eval(&**b, env, fuel) {
                Err(er) => {
                    return Err(er);
                },
                Ok(v) => v,
            };
            let sum: i128 = (va as i128) + (vb as i128);
            if sum < (i64::MIN as i128) || sum > (i64::MAX as i128) {
                Err(EvalError::IntegerOverflow)
            } else {
                Ok(sum as i64)
            }
        },
        Expr::Sub(a, b) => {
            let va = match eval(&**a, env, fuel) {
                Err(er) => {
                    return Err(er);
                },
                Ok(v) => v,
            };
            let vb = match eval(&**b, env, fuel) {
                Err(er) => {
                    return Err(er);
                },
                Ok(v) => v,
            };
            let diff: i128 = (va as i128) - (vb as i128);
            if diff < (i64::MIN as i128) || diff > (i64::MAX as i128) {
                Err(EvalError::IntegerOverflow)
            } else {
                Ok(diff as i64)
            }
        },
        Expr::Mul(a, b) => {
            let va = match eval(&**a, env, fuel) {
                Err(er) => {
                    return Err(er);
                },
                Ok(v) => v,
            };
            let vb = match eval(&**b, env, fuel) {
                Err(er) => {
                    return Err(er);
                },
                Ok(v) => v,
            };
            proof {
                assert((i128::MIN as int) < (va as int) * (vb as int) < (i128::MAX as int))
                    by (nonlinear_arith)
                    requires
                        (i64::MIN as int) <= va <= (i64::MAX as int),
                        (i64::MIN as int) <= vb <= (i64::MAX as int),
                ;
            }
            let prod: i128 = (va as i128) * (vb as i128);
            if prod < (i64::MIN as i128) || prod > (i64::MAX as i128) {
                Err(EvalError::IntegerOverflow)
            } else {
                Ok(prod as i64)
            }
        },
        Expr::Div(a, b) => {
            let va = match eval(&**a, env, fuel) {
                Err(er) => {
                    return Err(er);
                },
                Ok(v) => v,
            };
            let vb = match eval(&**b, env, fuel) {
                Err(er) => {
                    return Err(er);
                },
                Ok(v) => v,
            };
            if vb == 0 {
                Err(EvalError::DivisionByZero)
            } else {
                div_trunc(va, vb)
            }
        },
        Expr::If(c, t, els) => {
            let vc = match eval(&**c, env, fuel) {
                Err(er) => {
                    return Err(er);
                },
                Ok(v) => v,
            };
            if vc != 0 {
                eval(&**t, env, fuel)
            } else {
                match els {
                    Some(e2) => eval(&**e2, env, fuel),
                    None => Ok(0),
                }
            }
        },
        Expr::While(_c, _b) => eval_loop(expr, env, fuel),
        Expr::Block(_stmts) => eval_block(expr, env, fuel),
        Expr::FuncDef(name, params, body) => {
            let pclone = crate::parser::clone_names(params);
            let bclone = (**body).clone();
            env.set_func(name.clone(), pclone, bclone);
            proof {
                assert(eval_spec(expr@, old(env)@, fuel as nat).0 =~= env@);
            }
            Ok(0)
        },
        Expr::FuncCall(_name, _args) => eval_call(expr, env, fuel),
    }
}

/// The `while` form: rounds of condition and body, one unit of fuel each.
#[verifier::loop_isolation(false)]
#[verifier::rlimit(100)]
fn eval_loop(expr: &Expr, env: &mut Environment, fuel: u64) -> (r: Result<i64, EvalError>)
    requires
        expr matches Expr::While(..),
    ensures
        eval_spec(expr@, old(env)@, fuel as nat).0 == final(env)@,
        eval_spec(expr@, old(env)@, fuel as nat).1 == r,
    decreases fuel, expr, 0int,
{
    match expr {
        Expr::While(c, b) => {
            let ghost w = expr@;
            let mut last: i64 = 0;
            let mut f: u64 = fuel;
            loop
                invariant
                    f <= fuel,
                    w == expr@,
                    (w matches ExprSpec::While(wc, wb) && *wc == (**c)@ && *wb == (**b)@),
                    eval_while_spec(w, old(env)@, fuel as nat, 0i64) == eval_while_spec(
                        w,
                        env@,
                        f as nat,
                        last,
                    ),
                decreases f,
            {
                match eval(&**c, env, f) {
                    Err(er) => {
                        return Err(er);
                    },
                    Ok(vc) => {
                        if vc == 0 {
                            return Ok(last);
                        }
                        match eval(&**b, env, f) {
                            Err(er) => {
                                return Err(er);
                            },
                            Ok(vb) => {
                                last = vb;
                                if f == 0 {
                                    return Err(EvalError::OutOfFuel);
                                }
                                f = f - 1;
                            },
                        }
                    },
                }
            }
        },
        _ => unreached(),
    }
}

/// The block form: the statements in order, the value of the last one.
#[verifier::loop_isolation(false)]
#[verifier::rlimit(100)]
fn eval_block(expr: &Expr, env: &mut Environment, fuel: u64) -> (r: Result<i64, EvalError>)
    requires
        expr matches Expr::Block(..),
    ensures
        eval_spec(expr@, old(env)@, fuel as nat).0 == final(env)@,
        eval_spec(expr@, old(env)@, fuel as nat).1 == r,
    decreases fuel, expr, 0int,
{
    match expr {
        Expr::Block(stmts) => {
            let ghost sv = view_exprs(stmts@);
            proof {
                lemma_view_exprs(stmts@);
            }
            let mut last: i64 = 0;
            let mut i: usize = 0;
            let n = stmts.len();
            while i < n
                invariant
                    i <= n,
                    n == stmts.len(),
                    sv == view_exprs(stmts@),
                    sv.len() == n,
                    forall|k: int| 0 <= k < n ==> sv[k] == #[trigger] stmts@[k]@,
                    eval_stmts_spec(sv, 0, 0i64, old(env)@, fuel as nat) == eval_stmts_spec(
                        sv,
                        i as int,
                        last,
                        env@,
                        fuel as nat,
                    ),
                decreases n - i,
            {
                match eval(&stmts[i], env, fuel) {
                    Err(er) => {
                        return Err(er);
                    },
                    Ok(v) => {
                        last = v;
                        i += 1;
                    },
                }
            }
            Ok(last)
        },
        _ => unreached(),
    }
}

/// The call form: arguments in the caller's environment, then the body in
/// a derived copy; the caller's environment never sees the body's work.
#[verifier::loop_isolation(false)]
#[verifier::rlimit(100)]
fn eval_call(expr: &Expr, env: &mut Environment, fuel: u64) -> (r: Result<i64, EvalError>)
    requires
        expr matches Expr::FuncCall(..),
    ensures
        eval_spec(expr@, old(env)@, fuel as nat).0 == final(env)@,
        eval_spec(expr@, old(env)@, fuel as nat).1 == r,
    decreases fuel, expr, 0int,
{
    match expr {
        Expr::FuncCall(name, args) => {
            let fdef = match env.get_func(name.as_str()) {
                None => {
                    return Err(EvalError::UndefinedFunction);
                },
                Some(pb) => pb,
            };
            let ghost fspec = old(env)@.funcs[name@];
            let ghost av = view_exprs(args@);
            proof {
                lemma_view_exprs(args@);
            }
            let mut vals: Vec<i64> = Vec::new();
            let mut i: usize = 0;
            let n = args.len();
            while i < n
                invariant
                    i <= n,
                    n == args.len(),
                    av == view_exprs(args@),
                    av.len() == n,
                    forall|k: int| 0 <= k < n ==> av[k] == #[trigger] args@[k]@,
                    vals@.len() == i,
                    eval_args_spec(av, 0, Seq::empty(), old(env)@, fuel as nat) == eval_args_spec(
                        av,
                        i as int,
                        vals@,
                        env@,
                        fuel as nat,
                    ),
                decreases n - i,
            {
                match eval(&args[i], env, fuel) {
                    Err(er) => {
                        return Err(er);
                    },
                    Ok(v) => {
                        vals.push(v);
                        i += 1;
                    },
                }
            }
            if fdef.0.len() != vals.len() {
                return Err(EvalError::ArityMismatch);
            }
            if fuel == 0 {
                return Err(EvalError::OutOfFuel);
            }
            let ghost env_args = env@;
            let ghost ps = fspec.params;
            let mut callee = env.clone();
            let mut j: usize = 0;
            let m = vals.len();
            proof {
                assert(ps.subrange(0, m as int) =~= ps);
                assert(vals@.subrange(0, m as int) =~= vals@);
            }
            while j < m
                invariant
                    j <= m,
                    m == vals.len(),
                    m == fdef.0.len(),
                    ps == view_names(fdef.0@),
                    ps.len() == m,
                    callee@.funcs == env_args.funcs,
                    bind_params(ps, vals@, env_args.vars) == bind_params(
                        ps.subrange(j as int, m as int),
                        vals@.subrange(j as int, m as int),
                        callee@.vars,
                    ),
                decreases m - j,
            {
                proof {
                    let psub = ps.subrange(j as int, m as int);
                    let vsub = vals@.subrange(j as int, m as int);
                    assert(psub[0] == ps[j as int]);
                    assert(vsub[0] == vals@[j as int]);
                    assert(psub.subrange(1, psub.len() as int) =~= ps.subrange(
                        j as int + 1,
                        m as int,
                    ));
                    assert(vsub.subrange(1, vsub.len() as int) =~= vals@.subrange(
                        j as int + 1,
                        m as int,
                    ));
                }
                let pname = fdef.0[j].clone();
                let v = vals[j];
                callee.set(pname, v);
                j += 1;
            }
            proof {
                assert(ps.subrange(m as int, m as int) =~= Seq::<Seq<char>>::empty());
                assert(vals@.subrange(m as int, m as int) =~= Seq::<i64>::empty());
                assert(callee@ =~= (EnvModel {
                    vars: bind_params(fspec.params, vals@, env_args.vars),
                    funcs: env_args.funcs,
                }));
            }
            let r = eval(&fdef.1, &mut callee, fuel - 1);
            r
        },
        _ => unreached(),
    }
}

} // verus!

//! The mutable binding environment: variable bindings and the function
//! table, both keyed by name.
//!
//! Looking up a variable that was never bound yields 0; the language is
//! deliberately permissive there.  Looking up an unknown function is an
//! error, reported by the evaluator; there is no sensible default for code.
use crate::parser::{view_names, Expr, ExprSpec};
use vstd::prelude::*;
use vstd::string::StringExecFns;

verus! {

/// What the function table stores for one name: the ordered parameter
/// names and the body.
pub struct FuncSpec {
    pub params: Seq<Seq<char>>,
    pub body: ExprSpec,
}

/// The mathematical content of an [`Environment`]: two finite maps.
#[verifier::ext_equal]
pub struct EnvModel {
    pub vars: Map<Seq<char>, i64>,
    pub funcs: Map<Seq<char>, FuncSpec>,
}

/// Mutable store of variable bindings and function definitions.
pub struct Environment {
    vars: Vec<(String, i64)>,
    funcs: Vec<(String, (Vec<String>, Expr))>,
}

/// The map described by an association list of variables; the earliest
/// entry for a name wins.  The store keeps at most one entry per name,
/// so the choice never shows.
pub open spec fn vars_map(l: Seq<(String, i64)>) -> Map<Seq<char>, i64>
    decreases l,
{
    if l.len() == 0 {
        Map::empty()
    } else {
        vars_map(l.subrange(1, l.len() as int)).insert(l[0].0@, l[0].1)
    }
}

/// The function-table view of one association-list entry.
pub open spec fn func_val(e: (String, (Vec<String>, Expr))) -> FuncSpec {
    FuncSpec { params: view_names(e.1.0@), body: e.1.1@ }
}

/// The map described by an association list of function definitions.
pub open spec fn funcs_map(l: Seq<(String, (Vec<String>, Expr))>) -> Map<Seq<char>, FuncSpec>
    decreases l,
{
    if l.len() == 0 {
        Map::empty()
    } else {
        funcs_map(l.subrange(1, l.len() as int)).insert(l[0].0@, func_val(l[0]))
    }
}

impl View for Environment {
    type V = EnvModel;

    closed spec fn view(&self) -> EnvModel {
        EnvModel { vars: vars_map(self.vars@), funcs: funcs_map(self.funcs@) }
    }
}

proof fn lemma_vars_absent(l: Seq<(String, i64)>, k: Seq<char>)
    requires
        forall|j: int| 0 <= j < l.len() ==> (#[trigger] l[j]).0@ != k,
    ensures
        !vars_map(l).contains_key(k),
    decreases l,
{
    if l.len() > 0 {
        let rest = l.subrange(1, l.len() as int);
        lemma_vars_absent(rest, k);
    }
}

proof fn lemma_vars_first(l: Seq<(String, i64)>, k: Seq<char>, i: int)
    requires
        0 <= i < l.len(),
        l[i].0@ == k,
        forall|j: int| 0 <= j < i ==> (#[trigger] l[j]).0@ != k,
    ensures
        vars_map(l).contains_key(k),
        vars_map(l)[k] == l[i].1,
    decreases l,
{
    let rest = l.subrange(1, l.len() as int);
    if i > 0 {
        assert(rest[i - 1] == l[i]);
        assert(forall|j: int| 0 <= j < i - 1 ==> (#[trigger] rest[j]).0@ != k);
        lemma_vars_first(rest, k, i - 1);
    }
}

proof fn lemma_vars_update(l: Seq<(String, i64)>, k: Seq<char>, i: int, p: (String, i64))
    requires
        0 <= i < l.len(),
        l[i].0@ == k,
        forall|j: int| 0 <= j < i ==> (#[trigger] l[j]).0@ != k,
        p.0@ == k,
    ensures
        vars_map(l.update(i, p)) == vars_map(l).insert(k, p.1),
    decreases l,
{
    let lu = l.update(i, p);
    let rest = l.subrange(1, l.len() as int);
    if i == 0 {
        assert(lu.subrange(1, lu.len() as int) =~= rest);
        assert(vars_map(lu) == vars_map(rest).insert(k, p.1));
        assert(vars_map(rest).insert(k, l[0].1).insert(k, p.1) =~= vars_map(rest).insert(
            k,
            p.1,
        ));
    } else {
        assert(rest[i - 1] == l[i]);
        assert(forall|j: int| 0 <= j < i - 1 ==> (#[trigger] rest[j]).0@ != k);
        lemma_vars_update(rest, k, i - 1, p);
        assert(lu.subrange(1, lu.len() as int) =~= rest.update(i - 1, p));
        assert(lu[0] == l[0]);
        assert(vars_map(lu) == vars_map(rest).insert(k, p.1).insert(l[0].0@, l[0].1));
        assert(vars_map(rest).insert(k, p.1).insert(l[0].0@, l[0].1) =~= vars_map(rest).insert(
            l[0].0@,
            l[0].1,
        ).insert(k, p.1));
    }
}

proof fn lemma_vars_push(l: Seq<(String, i64)>, p: (String, i64))
    requires
        forall|j: int| 0 <= j < l.len() ==> (#[trigger] l[j]).0@ != p.0@,
    ensures
        vars_map(l.push(p)) == vars_map(l).insert(p.0@, p.1),
    decreases l,
{
    let lp = l.push(p);
    let rest = l.subrange(1, l.len() as int);
    if l.len() == 0 {
        assert(lp.subrange(1, lp.len() as int) =~= l);
        assert(lp[0] == p);
        assert(vars_map(lp) =~= vars_map(l).insert(p.0@, p.1));
    } else {
        lemma_vars_push(rest, p);
        assert(lp.subrange(1, lp.len() as int) =~= rest.push(p));
        assert(lp[0] == l[0]);
        assert(vars_map(lp) == vars_map(rest).insert(p.0@, p.1).insert(l[0].0@, l[0].1));
        assert(vars_map(rest).insert(p.0@, p.1).insert(l[0].0@, l[0].1) =~= vars_map(rest).insert(
            l[0].0@,
            l[0].1,
        ).insert(p.0@, p.1));
    }
}

proof fn lemma_funcs_absent(l: Seq<(String, (Vec<String>, Expr))>, k: Seq<char>)
    requires
        forall|j: int| 0 <= j < l.len() ==> (#[trigger] l[j]).0@ != k,
    ensures
        !funcs_map(l).contains_key(k),
    decreases l,
{
    if l.len() > 0 {
        let rest = l.subrange(1, l.len() as int);
        lemma_funcs_absent(rest, k);
    }
}

proof fn lemma_funcs_first(l: Seq<(String, (Vec<String>, Expr))>, k: Seq<char>, i: int)
    requires
        0 <= i < l.len(),
        l[i].0@ == k,
        forall|j: int| 0 <= j < i ==> (#[trigger] l[j]).0@ != k,
    ensures
        funcs_map(l).contains_key(k),
        funcs_map(l)[k] == func_val(l[i]),
    decreases l,
{
    let rest = l.subrange(1, l.len() as int);
    if i > 0 {
        assert(rest[i - 1] == l[i]);
        assert(forall|j: int| 0 <= j < i - 1 ==> (#[trigger] rest[j]).0@ != k);
        lemma_funcs_first(rest, k, i - 1);
    }
}

proof fn lemma_funcs_update(
    l: Seq<(String, (Vec<String>, Expr))>,
    k: Seq<char>,
    i: int,
    p: (String, (Vec<String>, Expr)),
)
    requires
        0 <= i < l.len(),
        l[i].0@ == k,
        forall|j: int| 0 <= j < i ==> (#[trigger] l[j]).0@ != k,
        p.0@ == k,
    ensures
        funcs_map(l.update(i, p)) == funcs_map(l).insert(k, func_val(p)),
    decreases l,
{
    let lu = l.update(i, p);
    let rest = l.subrange(1, l.len() as int);
    if i == 0 {
        assert(lu.subrange(1, lu.len() as int) =~= rest);
        assert(funcs_map(lu) == funcs_map(rest).insert(k, func_val(p)));
        assert(funcs_map(rest).insert(k, func_val(l[0])).insert(k, func_val(p)) =~= funcs_map(
            rest,
        ).insert(k, func_val(p)));
    } else {
        assert(rest[i - 1] == l[i]);
        assert(forall|j: int| 0 <= j < i - 1 ==> (#[trigger] rest[j]).0@ != k);
        lemma_funcs_update(rest, k, i - 1, p);
        assert(lu.subrange(1, lu.len() as int) =~= rest.update(i - 1, p));
        assert(lu[0] == l[0]);
        assert(funcs_map(lu) == funcs_map(rest).insert(k, func_val(p)).insert(
            l[0].0@,
            func_val(l[0]),
        ));
        assert(funcs_map(rest).insert(k, func_val(p)).insert(l[0].0@, func_val(l[0]))
            =~= funcs_map(rest).insert(l[0].0@, func_val(l[0])).insert(k, func_val(p)));
    }
}

proof fn lemma_funcs_push(l: Seq<(String, (Vec<String>, Expr))>, p: (String, (Vec<String>, Expr)))
    requires
        forall|j: int| 0 <= j < l.len() ==> (#[trigger] l[j]).0@ != p.0@,
    ensures
        funcs_map(l.push(p)) == funcs_map(l).insert(p.0@, func_val(p)),
    decreases l,
{
    let lp = l.push(p);
    let rest = l.subrange(1, l.len() as int);
    if l.len() == 0 {
        assert(lp.subrange(1, lp.len() as int) =~= l);
        assert(lp[0] == p);
        assert(funcs_map(lp) =~= funcs_map(l).insert(p.0@, func_val(p)));
    } else {
        lemma_funcs_push(rest, p);
        assert(lp.subrange(1, lp.len() as int) =~= rest.push(p));
        assert(lp[0] == l[0]);
        assert(funcs_map(lp) == funcs_map(rest).insert(p.0@, func_val(p)).insert(
            l[0].0@,
            func_val(l[0]),
        ));
        assert(funcs_map(rest).insert(p.0@, func_val(p)).insert(l[0].0@, func_val(l[0]))
            =~= funcs_map(rest).insert(l[0].0@, func_val(l[0])).insert(p.0@, func_val(p)));
    }
}

/// Two association lists whose entries agree in view describe one map.
proof fn lemma_funcs_congruent(
    a: Seq<(String, (Vec<String>, Expr))>,
    b: Seq<(String, (Vec<String>, Expr))>,
)
    requires
        a.len() == b.len(),
        forall|j: int|
            0 <= j < a.len() ==> (#[trigger] a[j]).0@ == b[j].0@ && func_val(a[j]) == func_val(
                b[j],
            ),
    ensures
        funcs_map(a) == funcs_map(b),
    decreases a,
{
    if a.len() > 0 {
        let ra = a.subrange(1, a.len() as int);
        let rb = b.subrange(1, b.len() as int);
        assert(forall|j: int|
            0 <= j < ra.len() ==> (#[trigger] ra[j]).0@ == rb[j].0@ && func_val(ra[j]) == func_val(
                rb[j],
            )) by {
            assert(forall|j: int| 0 <= j < ra.len() ==> ra[j] == a[j + 1] && rb[j] == b[j + 1]);
        }
        lemma_funcs_congruent(ra, rb);
        assert(a[0].0@ == b[0].0@ && func_val(a[0]) == func_val(b[0]));
    }
}

impl Environment {
    /// A fresh environment: no variables, no functions.
    pub fn new() -> (res: Self)
        ensures
            res@.vars == Map::<Seq<char>, i64>::empty(),
            res@.funcs == Map::<Seq<char>, FuncSpec>::empty(),
    {
        Environment { vars: Vec::new(), funcs: Vec::new() }
    }

    /// The current binding of `var`, or 0 if the name was never bound.
    pub fn get(&self, var: &str) -> (r: i64)
        ensures
            r == (if self@.vars.contains_key(var@) {
                self@.vars[var@]
            } else {
                0i64
            }),
    {
        let key = String::from_str(var);
        let n = self.vars.len();
        let mut i: usize = 0;
        while i < n
            invariant
                n == self.vars.len(),
                i <= n,
                key@ == var@,
                forall|j: int| 0 <= j < i ==> (#[trigger] self.vars@[j]).0@ != var@,
            decreases n - i,
        {
            if self.vars[i].0 == key {
                proof {
                    lemma_vars_first(self.vars@, var@, i as int);
                }
                return self.vars[i].1;
            }
            i += 1;
        }
        proof {
            lemma_vars_absent(self.vars@, var@);
        }
        0
    }

    /// Binds `var` to `value`, replacing any earlier binding.
    pub fn set(&mut self, var: String, value: i64)
        ensures
            final(self)@.vars == old(self)@.vars.insert(var@, value),
            final(self)@.funcs == old(self)@.funcs,
    {
        let n = self.vars.len();
        let mut i: usize = 0;
        while i < n
            invariant
                n == self.vars.len(),
                i <= n,
                *self == *old(self),
                forall|j: int| 0 <= j < i ==> (#[trigger] self.vars@[j]).0@ != var@,
            decreases n - i,
        {
            if self.vars[i].0 == var {
                proof {
                    lemma_vars_update(self.vars@, var@, i as int, (var, value));
                }
                let ghost l = self.vars@;
                self.vars.remove(i);
                self.vars.insert(i, (var, value));
                proof {
                    assert(self.vars@ =~= l.update(i as int, (var, value)));
                }
                return ;
            }
            i += 1;
        }
        proof {
            lemma_vars_push(self.vars@, (var, value));
        }
        self.vars.push((var, value));
    }

    /// Registers `(params, body)` under `name`, replacing any earlier
    /// definition of that name.
    pub fn set_func(&mut self, name: String, params: Vec<String>, body: Expr)
        ensures
            final(self)@.funcs == old(self)@.funcs.insert(
                name@,
                (FuncSpec { params: view_names(params@), body: body@ }),
            ),
            final(self)@.vars == old(self)@.vars,
    {
        let entry = (name, (params, body));
        let n = self.funcs.len();
        let mut i: usize = 0;
        while i < n
            invariant
                n == self.funcs.len(),
                i <= n,
                *self == *old(self),
                entry.0@ == name@,
                func_val(entry) == (FuncSpec { params: view_names(params@), body: body@ }),
                forall|j: int| 0 <= j < i ==> (#[trigger] self.funcs@[j]).0@ != entry.0@,
            decreases n - i,
        {
            if self.funcs[i].0 == entry.0 {
                proof {
                    lemma_funcs_update(self.funcs@, entry.0@, i as int, entry);
                }
                let ghost l = self.funcs@;
                self.funcs.remove(i);
                self.funcs.insert(i, entry);
                proof {
                    assert(self.funcs@ =~= l.update(i as int, entry));
                    assert(funcs_map(self.funcs@) == funcs_map(l).insert(
                        entry.0@,
                        func_val(entry),
                    ));
                    assert(entry.0@ == name@);
                    assert(func_val(entry) == (FuncSpec {
                        params: view_names(params@),
                        body: body@,
                    }));
                }
                return ;
            }
            i += 1;
        }
        proof {
            lemma_funcs_push(self.funcs@, entry);
        }
        self.funcs.push(entry);
    }

    /// The definition registered under `name`: its parameter names and a
    /// copy of its body.  `None` exactly when no such function exists.
    pub fn get_func(&self, name: &str) -> (r: Option<(Vec<String>, Expr)>)
        ensures
            (match r {
                Option::None => !self@.funcs.contains_key(name@),
                Option::Some(pb) => self@.funcs.contains_key(name@) && (FuncSpec {
                    params: view_names(pb.0@),
                    body: pb.1@,
                }) == self@.funcs[name@],
            }),
    {
        let key = String::from_str(name);
        let n = self.funcs.len();
        let mut i: usize = 0;
        while i < n
            invariant
                n == self.funcs.len(),
                i <= n,
                key@ == name@,
                forall|j: int| 0 <= j < i ==> (#[trigger] self.funcs@[j]).0@ != name@,
            decreases n - i,
        {
            if self.funcs[i].0 == key {
                proof {
                    lemma_funcs_first(self.funcs@, name@, i as int);
                }
                let params = crate::parser::clone_names(&self.funcs[i].1 .0);
                let body = self.funcs[i].1 .1.clone();
                return Some((params, body));
            }
            i += 1;
        }
        proof {
            lemma_funcs_absent(self.funcs@, name@);
        }
        None
    }
}

impl Clone for Environment {
    /// A clone has the very same view: both maps are kept exactly.
    fn clone(&self) -> (res: Self)
        ensures
            res@ == self@,
    {
        let mut vars: Vec<(String, i64)> = Vec::new();
        let mut i: usize = 0;
        while i < self.vars.len()
            invariant
                i <= self.vars.len(),
                vars@.len() == i,
                forall|j: int| 0 <= j < i ==> vars@[j] == #[trigger] self.vars@[j],
            decreases self.vars@.len() - i,
        {
            let name = self.vars[i].0.clone();
            let value = self.vars[i].1;
            vars.push((name, value));
            i += 1;
        }
        let mut funcs: Vec<(String, (Vec<String>, Expr))> = Vec::new();
        let mut j: usize = 0;
        while j < self.funcs.len()
            invariant
                j <= self.funcs.len(),
                funcs@.len() == j,
                forall|t: int|
                    0 <= t < j ==> (#[trigger] funcs@[t]).0@ == self.funcs@[t].0@ && func_val(
                        funcs@[t],
                    ) == func_val(self.funcs@[t]),
            decreases self.funcs@.len() - j,
        {
            let name = self.funcs[j].0.clone();
            let params = crate::parser::clone_names(&self.funcs[j].1 .0);
            let body = self.funcs[j].1 .1.clone();
            funcs.push((name, (params, body)));
            j += 1;
        }
        proof {
            assert(vars@ =~= self.vars@);
            lemma_funcs_congruent(funcs@, self.funcs@);
        }
        Environment { vars, funcs }
    }
}

} // verus!

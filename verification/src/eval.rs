//! The expression evaluator.
//!
//! Evaluation is total: it consumes a fuel budget (one unit per expression
//! node visited, function bodies included) and yields the error value when
//! the budget runs out, when a name is unbound, on a type mismatch, on
//! division by zero and on arithmetic overflow. The error value propagates:
//! every operator whose evaluated operand is the error value is itself the
//! error value, except that `&&` and `||` short-circuit before evaluating
//! their second operand. Property access, indexing and membership are
//! reserved extension points and evaluate to the error value.

use std::rc::Rc;

use vstd::prelude::*;

use crate::ast::Expr;
use crate::values::Function;
use crate::values::Scope;
use crate::values::Value;
use crate::values::ValueV;
use crate::values::env_get;
use crate::values::rc_dup;

verus! {

/// Truncated division, as the runtime performs it.
pub open spec fn tdiv(x: int, y: int) -> int {
    let q = abs(x) / abs(y);
    if (x < 0) != (y < 0) {
        -q
    } else {
        q
    }
}

/// Remainder with the dividend's sign, as the runtime performs it.
pub open spec fn tmod(x: int, y: int) -> int {
    let r = abs(x) % abs(y);
    if x < 0 {
        -r
    } else {
        r
    }
}

pub open spec fn abs(x: int) -> int {
    if x < 0 {
        -x
    } else {
        x
    }
}

pub open spec fn arith_add(a: ValueV, b: ValueV) -> ValueV {
    match (a, b) {
        (ValueV::IntV(x), ValueV::IntV(y)) => if i64::MIN <= x + y <= i64::MAX {
            ValueV::IntV((x + y) as i64)
        } else {
            ValueV::ErrorV
        },
        _ => ValueV::ErrorV,
    }
}

pub open spec fn arith_sub(a: ValueV, b: ValueV) -> ValueV {
    match (a, b) {
        (ValueV::IntV(x), ValueV::IntV(y)) => if i64::MIN <= x - y <= i64::MAX {
            ValueV::IntV((x - y) as i64)
        } else {
            ValueV::ErrorV
        },
        _ => ValueV::ErrorV,
    }
}

pub open spec fn arith_mul(a: ValueV, b: ValueV) -> ValueV {
    match (a, b) {
        (ValueV::IntV(x), ValueV::IntV(y)) => if i64::MIN <= x * y <= i64::MAX {
            ValueV::IntV((x * y) as i64)
        } else {
            ValueV::ErrorV
        },
        _ => ValueV::ErrorV,
    }
}

pub open spec fn arith_div(a: ValueV, b: ValueV) -> ValueV {
    match (a, b) {
        (ValueV::IntV(x), ValueV::IntV(y)) => if y == 0 || (x == i64::MIN && y == -1) {
            ValueV::ErrorV
        } else {
            ValueV::IntV(tdiv(x as int, y as int) as i64)
        },
        _ => ValueV::ErrorV,
    }
}

pub open spec fn arith_mod(a: ValueV, b: ValueV) -> ValueV {
    match (a, b) {
        (ValueV::IntV(x), ValueV::IntV(y)) => if y == 0 {
            ValueV::ErrorV
        } else {
            ValueV::IntV(tmod(x as int, y as int) as i64)
        },
        _ => ValueV::ErrorV,
    }
}

/// Integer power by repeated multiplication; any intermediate overflow is
/// the error value.
pub open spec fn powv(base: i64, e: nat) -> ValueV
    decreases e,
{
    if e == 0 {
        ValueV::IntV(1)
    } else {
        match powv(base, (e - 1) as nat) {
            ValueV::IntV(p) => if i64::MIN <= p * base <= i64::MAX {
                ValueV::IntV((p * base) as i64)
            } else {
                ValueV::ErrorV
            },
            _ => ValueV::ErrorV,
        }
    }
}

pub open spec fn arith_pow(a: ValueV, b: ValueV) -> ValueV {
    match (a, b) {
        (ValueV::IntV(x), ValueV::IntV(y)) => if y < 0 {
            ValueV::ErrorV
        } else {
            powv(x, y as nat)
        },
        _ => ValueV::ErrorV,
    }
}

pub open spec fn cmp_lt(a: ValueV, b: ValueV) -> ValueV {
    match (a, b) {
        (ValueV::IntV(x), ValueV::IntV(y)) => ValueV::BoolV(x < y),
        _ => ValueV::ErrorV,
    }
}

pub open spec fn cmp_le(a: ValueV, b: ValueV) -> ValueV {
    match (a, b) {
        (ValueV::IntV(x), ValueV::IntV(y)) => ValueV::BoolV(x <= y),
        _ => ValueV::ErrorV,
    }
}

/// Equality is defined within one primitive type; everything else, function
/// and L-system values included, is the error value.
pub open spec fn val_eq(a: ValueV, b: ValueV) -> ValueV {
    match (a, b) {
        (ValueV::IntV(x), ValueV::IntV(y)) => ValueV::BoolV(x == y),
        (ValueV::BoolV(x), ValueV::BoolV(y)) => ValueV::BoolV(x == y),
        (ValueV::StrV(x), ValueV::StrV(y)) => ValueV::BoolV(x == y),
        (ValueV::NullV, ValueV::NullV) => ValueV::BoolV(true),
        _ => ValueV::ErrorV,
    }
}

pub open spec fn bit_and(a: ValueV, b: ValueV) -> ValueV {
    match (a, b) {
        (ValueV::IntV(x), ValueV::IntV(y)) => ValueV::IntV(x & y),
        _ => ValueV::ErrorV,
    }
}

pub open spec fn bit_or(a: ValueV, b: ValueV) -> ValueV {
    match (a, b) {
        (ValueV::IntV(x), ValueV::IntV(y)) => ValueV::IntV(x | y),
        _ => ValueV::ErrorV,
    }
}

pub open spec fn bit_xor(a: ValueV, b: ValueV) -> ValueV {
    match (a, b) {
        (ValueV::IntV(x), ValueV::IntV(y)) => ValueV::IntV(x ^ y),
        _ => ValueV::ErrorV,
    }
}

/// The parameter bindings of a call, in declaration order.
pub open spec fn bind_seq(ps: Seq<Seq<char>>, vs: Seq<ValueV>) -> Seq<(Seq<char>, ValueV)> {
    Seq::new(ps.len(), |i: int| (ps[i], vs[i]))
}

/// What the evaluator computes: one fuel unit is consumed per expression
/// node visited, and an exhausted budget is the error value.
pub open spec fn eval_spec(e: Expr, env: Seq<(Seq<char>, ValueV)>, fuel: nat) -> ValueV
    decreases fuel, 0int,
{
    if fuel == 0 {
        ValueV::ErrorV
    } else {
        let f = (fuel - 1) as nat;
        match e {
            Expr::Int(i) => ValueV::IntV(i),
            Expr::Str(s) => ValueV::StrV(s@),
            Expr::Bool(b) => ValueV::BoolV(b),
            Expr::Null => ValueV::NullV,
            Expr::ID(n) => match env_get(env, n@) {
                Some(v) => v,
                None => ValueV::ErrorV,
            },
            Expr::PropAcc(_, _) => ValueV::ErrorV,
            Expr::IndexExpr(_, _) => ValueV::ErrorV,
            Expr::In(_, _, _) => ValueV::ErrorV,
            Expr::Plus(a) => match eval_spec(*a, env, f) {
                ValueV::IntV(x) => ValueV::IntV(x),
                _ => ValueV::ErrorV,
            },
            Expr::Minus(a) => match eval_spec(*a, env, f) {
                ValueV::IntV(x) => if x == i64::MIN {
                    ValueV::ErrorV
                } else {
                    ValueV::IntV((-x) as i64)
                },
                _ => ValueV::ErrorV,
            },
            Expr::Not(a) => match eval_spec(*a, env, f) {
                ValueV::BoolV(x) => ValueV::BoolV(!x),
                _ => ValueV::ErrorV,
            },
            Expr::BitNot(a) => match eval_spec(*a, env, f) {
                ValueV::IntV(x) => ValueV::IntV(!x),
                _ => ValueV::ErrorV,
            },
            Expr::Pow(a, b) => arith_pow(eval_spec(*a, env, f), eval_spec(*b, env, f)),
            Expr::Mul(a, b) => arith_mul(eval_spec(*a, env, f), eval_spec(*b, env, f)),
            Expr::Div(a, b) => arith_div(eval_spec(*a, env, f), eval_spec(*b, env, f)),
            Expr::Mod(a, b) => arith_mod(eval_spec(*a, env, f), eval_spec(*b, env, f)),
            Expr::Add(a, b) => arith_add(eval_spec(*a, env, f), eval_spec(*b, env, f)),
            Expr::Sub(a, b) => arith_sub(eval_spec(*a, env, f), eval_spec(*b, env, f)),
            Expr::LT(a, b) => cmp_lt(eval_spec(*a, env, f), eval_spec(*b, env, f)),
            Expr::LE(a, b) => cmp_le(eval_spec(*a, env, f), eval_spec(*b, env, f)),
            Expr::GT(a, b) => cmp_lt(eval_spec(*b, env, f), eval_spec(*a, env, f)),
            Expr::GE(a, b) => cmp_le(eval_spec(*b, env, f), eval_spec(*a, env, f)),
            Expr::EQ(a, b) => val_eq(eval_spec(*a, env, f), eval_spec(*b, env, f)),
            Expr::NE(a, b) => match val_eq(eval_spec(*a, env, f), eval_spec(*b, env, f)) {
                ValueV::BoolV(x) => ValueV::BoolV(!x),
                _ => ValueV::ErrorV,
            },
            Expr::BitAnd(a, b) => bit_and(eval_spec(*a, env, f), eval_spec(*b, env, f)),
            Expr::BitXor(a, b) => bit_xor(eval_spec(*a, env, f), eval_spec(*b, env, f)),
            Expr::BitOr(a, b) => bit_or(eval_spec(*a, env, f), eval_spec(*b, env, f)),
            Expr::And(a, b) => match eval_spec(*a, env, f) {
                ValueV::BoolV(false) => ValueV::BoolV(false),
                ValueV::BoolV(true) => match eval_spec(*b, env, f) {
                    ValueV::BoolV(y) => ValueV::BoolV(y),
                    _ => ValueV::ErrorV,
                },
                _ => ValueV::ErrorV,
            },
            Expr::Or(a, b) => match eval_spec(*a, env, f) {
                ValueV::BoolV(true) => ValueV::BoolV(true),
                ValueV::BoolV(false) => match eval_spec(*b, env, f) {
                    ValueV::BoolV(y) => ValueV::BoolV(y),
                    _ => ValueV::ErrorV,
                },
                _ => ValueV::ErrorV,
            },
            Expr::IfElse(c, t, u) => match eval_spec(*c, env, f) {
                ValueV::BoolV(true) => eval_spec(*t, env, f),
                ValueV::BoolV(false) => eval_spec(*u, env, f),
                _ => ValueV::ErrorV,
            },
            Expr::Lambda(ps, body) => ValueV::FuncV(
                ps@.map_values(|p: crate::values::Parameter| p.name@),
                *body,
            ),
            Expr::FnCall(callee, args) => match eval_spec(*callee, env, f) {
                ValueV::FuncV(ps, body) => {
                    let vs = eval_args_spec(args@, env, f);
                    if ps.len() != vs.len() {
                        ValueV::ErrorV
                    } else {
                        eval_spec(body, env + bind_seq(ps, vs), f)
                    }
                },
                _ => ValueV::ErrorV,
            },
        }
    }
}

/// The argument values of a call, evaluated left to right, each with the
/// call's remaining budget.
pub open spec fn eval_args_spec(es: Seq<Expr>, env: Seq<(Seq<char>, ValueV)>, fuel: nat) -> Seq<
    ValueV,
>
    decreases fuel, es.len() + 1,
{
    if es.len() == 0 {
        Seq::empty()
    } else {
        seq![eval_spec(es[0], env, fuel)] + eval_args_spec(es.drop_first(), env, fuel)
    }
}

/// The magnitude of a signed value, in an unsigned word.
fn unsigned_abs64(x: i64) -> (r: u64)
    ensures
        r == abs(x as int),
{
    if x >= 0 {
        x as u64
    } else if x == i64::MIN {
        9223372036854775808u64
    } else {
        (-x) as u64
    }
}

/// Division of runtime values: truncated quotient, error on a divisor of
/// zero and on the one overflowing pair.
fn div_vals(x: i64, y: i64) -> (r: Value)
    ensures
        r@ == arith_div(ValueV::IntV(x), ValueV::IntV(y)),
{
    if y == 0 || (x == i64::MIN && y == -1) {
        Value::Error
    } else {
        let ux = unsigned_abs64(x);
        let uy = unsigned_abs64(y);
        let q = ux / uy;
        proof {
            assert(q <= ux) by (nonlinear_arith)
                requires
                    uy >= 1,
                    q == ux / uy,
            ;
        }
        if (x < 0) != (y < 0) {
            if q == 9223372036854775808u64 {
                Value::Int(i64::MIN)
            } else {
                Value::Int(-(q as i64))
            }
        } else {
            proof {
                assert(x == i64::MIN ==> uy >= 2);
                assert(uy >= 2 ==> q <= ux / 2) by (nonlinear_arith)
                    requires
                        q == ux / uy,
                ;
            }
            Value::Int(q as i64)
        }
    }
}

/// Remainder of runtime values: the dividend's sign, error on a divisor of
/// zero.
fn mod_vals(x: i64, y: i64) -> (r: Value)
    ensures
        r@ == arith_mod(ValueV::IntV(x), ValueV::IntV(y)),
{
    if y == 0 {
        Value::Error
    } else {
        let ux = unsigned_abs64(x);
        let uy = unsigned_abs64(y);
        let m = ux % uy;
        proof {
            assert(m < uy) by (nonlinear_arith)
                requires
                    uy >= 1,
                    m == ux % uy,
            ;
        }
        if x < 0 {
            if m == 0 {
                Value::Int(0)
            } else {
                Value::Int(-(m as i64))
            }
        } else {
            Value::Int(m as i64)
        }
    }
}

/// Once an intermediate power overflows, every later power is the error
/// value.
proof fn lemma_powv_error(base: i64, k: nat, e: nat)
    requires
        k <= e,
        !(powv(base, k) is IntV),
    ensures
        !(powv(base, e) is IntV),
    decreases e,
{
    if e > k {
        lemma_powv_error(base, k, (e - 1) as nat);
    }
}

/// Power of runtime values by repeated multiplication.
fn pow_vals(x: i64, y: i64) -> (r: Value)
    ensures
        r@ == arith_pow(ValueV::IntV(x), ValueV::IntV(y)),
{
    if y < 0 {
        return Value::Error;
    }
    let mut acc: i64 = 1;
    let mut k: u64 = 0;
    let yu = y as u64;
    while k < yu
        invariant
            k <= yu,
            yu == y,
            y >= 0,
            powv(x, k as nat) == ValueV::IntV(acc),
        decreases yu - k,
    {
        proof {
            assert(i128::MIN <= (acc as i128) * (x as i128) <= i128::MAX) by (nonlinear_arith)
                requires
                    i64::MIN <= acc <= i64::MAX,
                    i64::MIN <= x <= i64::MAX,
            ;
        }
        let wide: i128 = (acc as i128) * (x as i128);
        if wide < i64::MIN as i128 || wide > i64::MAX as i128 {
            proof {
                lemma_powv_error(x, (k + 1) as nat, y as nat);
            }
            return Value::Error;
        }
        acc = wide as i64;
        k = k + 1;
    }
    Value::Int(acc)
}

/// Evaluates an expression tree against a scope, spending at most `fuel`
/// expression-node visits.
pub fn eval(e: &Expr, scope: &Scope<'_>, fuel: u64) -> (r: Value)
    ensures
        r@ == eval_spec(*e, scope.flat(), fuel as nat),
    decreases fuel, 0int,
{
    if fuel == 0 {
        return Value::Error;
    }
    let f = fuel - 1;
    match e {
        Expr::Int(i) => Value::Int(*i),
        Expr::Str(s) => Value::Str(s.clone()),
        Expr::Bool(b) => Value::Bool(*b),
        Expr::Null => Value::Null,
        Expr::ID(n) => match scope.get(n) {
            Some(v) => v.dup(),
            None => Value::Error,
        },
        Expr::PropAcc(_, _) => Value::Error,
        Expr::IndexExpr(_, _) => Value::Error,
        Expr::In(_, _, _) => Value::Error,
        Expr::Plus(a) => match eval(a, scope, f) {
            Value::Int(x) => Value::Int(x),
            _ => Value::Error,
        },
        Expr::Minus(a) => match eval(a, scope, f) {
            Value::Int(x) => if x == i64::MIN {
                Value::Error
            } else {
                Value::Int(-x)
            },
            _ => Value::Error,
        },
        Expr::Not(a) => match eval(a, scope, f) {
            Value::Bool(x) => Value::Bool(!x),
            _ => Value::Error,
        },
        Expr::BitNot(a) => match eval(a, scope, f) {
            Value::Int(x) => Value::Int(!x),
            _ => Value::Error,
        },
        Expr::Pow(a, b) => match (eval(a, scope, f), eval(b, scope, f)) {
            (Value::Int(x), Value::Int(y)) => pow_vals(x, y),
            _ => Value::Error,
        },
        Expr::Mul(a, b) => match (eval(a, scope, f), eval(b, scope, f)) {
            (Value::Int(x), Value::Int(y)) => {
                proof {
                    assert(i128::MIN <= (x as i128) * (y as i128) <= i128::MAX)
                        by (nonlinear_arith)
                        requires
                            i64::MIN <= x <= i64::MAX,
                            i64::MIN <= y <= i64::MAX,
                    ;
                }
                let wide: i128 = (x as i128) * (y as i128);
                if wide < i64::MIN as i128 || wide > i64::MAX as i128 {
                    Value::Error
                } else {
                    Value::Int(wide as i64)
                }
            },
            _ => Value::Error,
        },
        Expr::Div(a, b) => match (eval(a, scope, f), eval(b, scope, f)) {
            (Value::Int(x), Value::Int(y)) => div_vals(x, y),
            _ => Value::Error,
        },
        Expr::Mod(a, b) => match (eval(a, scope, f), eval(b, scope, f)) {
            (Value::Int(x), Value::Int(y)) => mod_vals(x, y),
            _ => Value::Error,
        },
        Expr::Add(a, b) => match (eval(a, scope, f), eval(b, scope, f)) {
            (Value::Int(x), Value::Int(y)) => {
                let wide: i128 = (x as i128) + (y as i128);
                if wide < i64::MIN as i128 || wide > i64::MAX as i128 {
                    Value::Error
                } else {
                    Value::Int(wide as i64)
                }
            },
            _ => Value::Error,
        },
        Expr::Sub(a, b) => match (eval(a, scope, f), eval(b, scope, f)) {
            (Value::Int(x), Value::Int(y)) => {
                let wide: i128 = (x as i128) - (y as i128);
                if wide < i64::MIN as i128 || wide > i64::MAX as i128 {
                    Value::Error
                } else {
                    Value::Int(wide as i64)
                }
            },
            _ => Value::Error,
        },
        Expr::LT(a, b) => match (eval(a, scope, f), eval(b, scope, f)) {
            (Value::Int(x), Value::Int(y)) => Value::Bool(x < y),
            _ => Value::Error,
        },
        Expr::LE(a, b) => match (eval(a, scope, f), eval(b, scope, f)) {
            (Value::Int(x), Value::Int(y)) => Value::Bool(x <= y),
            _ => Value::Error,
        },
        Expr::GT(a, b) => match (eval(a, scope, f), eval(b, scope, f)) {
            (Value::Int(x), Value::Int(y)) => Value::Bool(y < x),
            _ => Value::Error,
        },
        Expr::GE(a, b) => match (eval(a, scope, f), eval(b, scope, f)) {
            (Value::Int(x), Value::Int(y)) => Value::Bool(y <= x),
            _ => Value::Error,
        },
        Expr::EQ(a, b) => eq_vals(eval(a, scope, f), eval(b, scope, f)),
        Expr::NE(a, b) => match eq_vals(eval(a, scope, f), eval(b, scope, f)) {
            Value::Bool(x) => Value::Bool(!x),
            _ => Value::Error,
        },
        Expr::BitAnd(a, b) => match (eval(a, scope, f), eval(b, scope, f)) {
            (Value::Int(x), Value::Int(y)) => Value::Int(x & y),
            _ => Value::Error,
        },
        Expr::BitXor(a, b) => match (eval(a, scope, f), eval(b, scope, f)) {
            (Value::Int(x), Value::Int(y)) => Value::Int(x ^ y),
            _ => Value::Error,
        },
        Expr::BitOr(a, b) => match (eval(a, scope, f), eval(b, scope, f)) {
            (Value::Int(x), Value::Int(y)) => Value::Int(x | y),
            _ => Value::Error,
        },
        Expr::And(a, b) => match eval(a, scope, f) {
            Value::Bool(false) => Value::Bool(false),
            Value::Bool(true) => match eval(b, scope, f) {
                Value::Bool(y) => Value::Bool(y),
                _ => Value::Error,
            },
            _ => Value::Error,
        },
        Expr::Or(a, b) => match eval(a, scope, f) {
            Value::Bool(true) => Value::Bool(true),
            Value::Bool(false) => match eval(b, scope, f) {
                Value::Bool(y) => Value::Bool(y),
                _ => Value::Error,
            },
            _ => Value::Error,
        },
        Expr::IfElse(c, t, u) => match eval(c, scope, f) {
            Value::Bool(true) => eval(t, scope, f),
            Value::Bool(false) => eval(u, scope, f),
            _ => Value::Error,
        },
        Expr::Lambda(ps, body) => {
            let mut names: Vec<crate::values::Parameter> = Vec::new();
            let mut i: usize = 0;
            while i < ps.len()
                invariant
                    i <= ps@.len(),
                    names@.len() == i,
                    forall|j: int| 0 <= j < i ==> names@[j].name@ == ps@[j].name@,
                decreases ps@.len() - i,
            {
                names.push(crate::values::Parameter { name: ps[i].name.clone() });
                i = i + 1;
            }
            proof {
                assert(names@.map_values(|p: crate::values::Parameter| p.name@) =~= ps@.map_values(
                    |p: crate::values::Parameter| p.name@,
                ));
            }
            let func = Function { params: names, expr: rc_dup(body) };
            Value::Func(Rc::new(func))
        },
        Expr::FnCall(callee, args) => match eval(callee, scope, f) {
            Value::Func(rc) => call_function(&rc, args, scope, f),
            _ => Value::Error,
        },
    }
}

/// `eval_args_spec` is the pointwise evaluation of the argument list.
pub proof fn lemma_eval_args_index(es: Seq<Expr>, env: Seq<(Seq<char>, ValueV)>, fuel: nat)
    ensures
        eval_args_spec(es, env, fuel).len() == es.len(),
        forall|j: int|
            0 <= j < es.len() ==> eval_args_spec(es, env, fuel)[j] == eval_spec(es[j], env, fuel),
    decreases es.len(),
{
    if es.len() > 0 {
        lemma_eval_args_index(es.drop_first(), env, fuel);
    }
}

/// Evaluates a call of a function value: evaluates the arguments left to
/// right, binds each parameter to its argument in a child of the caller's
/// scope, and evaluates the body there. An argument count that differs from
/// the parameter count is the error value.
fn call_function(func: &Rc<Function>, args: &Vec<Expr>, scope: &Scope<'_>, fuel: u64) -> (r: Value)
    ensures
        ({
            let ps = (**func).params@.map_values(|p: crate::values::Parameter| p.name@);
            let vs = eval_args_spec(args@, scope.flat(), fuel as nat);
            r@ == if ps.len() != vs.len() {
                ValueV::ErrorV
            } else {
                eval_spec(*(**func).expr, scope.flat() + bind_seq(ps, vs), fuel as nat)
            }
        }),
    decreases fuel, 1int,
{
    let ghost ps = (**func).params@.map_values(|p: crate::values::Parameter| p.name@);
    let ghost vseq = eval_args_spec(args@, scope.flat(), fuel as nat);
    proof {
        lemma_eval_args_index(args@, scope.flat(), fuel as nat);
    }
    if func.params.len() != args.len() {
        return Value::Error;
    }
    let n = args.len();
    let mut vals: Vec<Value> = Vec::new();
    let mut i: usize = 0;
    while i < n
        invariant
            n == args@.len(),
            i <= n,
            vals@.len() == i,
            forall|j: int| 0 <= j < i ==> vals@[j]@ == vseq[j],
            vseq == eval_args_spec(args@, scope.flat(), fuel as nat),
            vseq.len() == n,
            forall|j: int|
                0 <= j < n ==> vseq[j] == eval_spec(args@[j], scope.flat(), fuel as nat),
        decreases n - i,
    {
        let v = eval(&args[i], scope, fuel);
        vals.push(v);
        i = i + 1;
    }
    let mut child = Scope::child_of(scope);
    let mut k: usize = 0;
    while k < n
        invariant
            n == (**func).params@.len(),
            k <= n,
            vals@.len() == n - k,
            forall|j: int| 0 <= j < n - k ==> vals@[j]@ == vseq[k + j],
            vseq.len() == n,
            ps == (**func).params@.map_values(|p: crate::values::Parameter| p.name@),
            child.flat() == scope.flat() + bind_seq(ps, vseq).take(k as int),
        decreases n - k,
    {
        let ghost preflat = child.flat();
        let name = func.params[k].name.clone();
        let v = vals.remove(0);
        child.set(name, v);
        proof {
            assert(child.flat() =~= scope.flat() + bind_seq(ps, vseq).take(k as int + 1));
        }
        k = k + 1;
    }
    proof {
        assert(bind_seq(ps, vseq).take(n as int) =~= bind_seq(ps, vseq));
    }
    eval(rc_expr(func), &child, fuel)
}

/// The body expression of a function value.
fn rc_expr<'x>(func: &'x Rc<Function>) -> (r: &'x Expr)
    ensures
        *r == *(**func).expr,
{
    &func.expr
}

/// Comparing two runtime values for equality.
fn eq_vals(a: Value, b: Value) -> (r: Value)
    ensures
        r@ == val_eq(a@, b@),
{
    match (a, b) {
        (Value::Int(x), Value::Int(y)) => Value::Bool(x == y),
        (Value::Bool(x), Value::Bool(y)) => Value::Bool(x == y),
        (Value::Str(x), Value::Str(y)) => Value::Bool(x.eq(&y)),
        (Value::Null, Value::Null) => Value::Bool(true),
        _ => Value::Error,
    }
}


impl Function {
    /// Calls the function on already-evaluated argument values: binds each
    /// parameter to its argument in a child of the caller's scope and
    /// evaluates the body there. An argument count that differs from the
    /// parameter count is the error value.
    pub fn call(&self, args: Vec<Value>, scope: &Scope<'_>, fuel: u64) -> (r: Value)
        ensures
            ({
                let ps = self.params@.map_values(|p: crate::values::Parameter| p.name@);
                let vs = args@.map_values(|v: Value| v@);
                r@ == if ps.len() != vs.len() {
                    ValueV::ErrorV
                } else {
                    eval_spec(*self.expr, scope.flat() + bind_seq(ps, vs), fuel as nat)
                }
            }),
    {
        let ghost ps = self.params@.map_values(|p: crate::values::Parameter| p.name@);
        let ghost vs = args@.map_values(|v: Value| v@);
        if self.params.len() != args.len() {
            return Value::Error;
        }
        let n = args.len();
        let mut child = Scope::child_of(scope);
        let mut rest = args;
        let mut k: usize = 0;
        while k < n
            invariant
                n == (self).params@.len(),
                n <= usize::MAX,
                k <= n,
                rest@.len() == n - k,
                ps == self.params@.map_values(|p: crate::values::Parameter| p.name@),
                vs.len() == n,
                forall|j: int| 0 <= j < n - k ==> rest@[j]@ == vs[k + j],
                child.flat() == scope.flat() + bind_seq(ps, vs).take(k as int),
            decreases n - k,
        {
            let name = self.params[k].name.clone();
            let v = rest.remove(0);
            child.set(name, v);
            proof {
                assert(child.flat() =~= scope.flat() + bind_seq(ps, vs).take(k as int + 1));
            }
            k = k + 1;
        }
        proof {
            assert(bind_seq(ps, vs).take(n as int) =~= bind_seq(ps, vs));
        }
        eval(rc_expr_ref(&self.expr), &child, fuel)
    }
}

/// The expression behind a shared handle.
fn rc_expr_ref<'x>(e: &'x Rc<Expr>) -> (r: &'x Expr)
    ensures
        *r == **e,
{
    &**e
}

} // verus!

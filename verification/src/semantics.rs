//! What a program means: the value of every expression, told without regard
//! to how it is compiled.
//!
//! An expression is evaluated in an environment that gives the names in
//! scope their values. The body of a conditional whose condition is false
//! is not run, but the names that it defines are in scope behind it all the
//! same: they stand for what the body would have computed if every
//! computation in it had come to zero. An expression is therefore evaluated
//! either alive or dead, and dead code computes zeros.

use crate::ast::{BinaryOp, Expr, Parsed};
use crate::literal::literal_value;
use crate::text::decimal_text;
use vstd::prelude::*;

verus! {

/// A value.
pub enum Value<'a> {
    Int(i32),
    Bool(bool),
    /// A value that is there or not. If it is not there, what is held in
    /// its place is of no account to the program.
    Maybe(bool, Box<Value<'a>>),
    Tuple(Seq<Value<'a>>),
    /// A function: its parameter pattern and its body.
    Func { pattern: Parsed<'a, Expr<'a>>, body: Parsed<'a, Expr<'a>> },
}

/// A name and the value that it stands for.
pub struct Held<'a> {
    pub name: Seq<char>,
    pub value: Value<'a>,
}

/// The names in scope with their values, the most recent first.
pub type Env<'a> = Seq<Held<'a>>;

/// The value of an expression, if it has one, and the environment behind
/// it.
pub struct Evaluation<'a> {
    pub value: Option<Value<'a>>,
    pub env: Env<'a>,
}

/// The values of a list of expressions, if they all have one, and the
/// environment behind them.
pub struct Evaluations<'a> {
    pub values: Option<Seq<Value<'a>>>,
    pub env: Env<'a>,
}

/// The value that the first definition of `name` in `env` gives it.
pub open spec fn value_of<'a>(env: Env<'a>, name: Seq<char>) -> Option<Value<'a>>
    decreases env.len(),
{
    if env.len() == 0 {
        None
    } else if env[0].name == name {
        Some(env[0].value)
    } else {
        value_of(env.drop_first(), name)
    }
}

/// `env` with the value of the first definition of `name` replaced.
pub open spec fn replaced<'a>(env: Env<'a>, name: Seq<char>, value: Value<'a>) -> Env<'a>
    decreases env.len(),
{
    if env.len() == 0 {
        env
    } else if env[0].name == name {
        env.update(0, Held { name, value })
    } else {
        seq![env[0]] + replaced(env.drop_first(), name, value)
    }
}

/// `env` after `name = value`: a definition of `name` that is there gets
/// the new value, else a new definition comes in front.
pub open spec fn given<'a>(env: Env<'a>, name: Seq<char>, value: Value<'a>) -> Env<'a> {
    if value_of(env, name) is Some {
        replaced(env, name, value)
    } else {
        seq![Held { name, value }] + env
    }
}

/// The value with every number in it set to zero, every truth value to
/// false, and every value that may be absent to absent: what dead code
/// leaves in the place of the value.
pub open spec fn zeroed<'a>(value: Value<'a>) -> Value<'a>
    decreases value,
{
    match value {
        Value::Int(_) => Value::Int(0),
        Value::Bool(_) => Value::Bool(false),
        Value::Maybe(_, inner) => Value::Maybe(false, Box::new(zeroed(*inner))),
        Value::Tuple(values) => Value::Tuple(
            Seq::new(
                values.len(),
                |i: int|
                    if 0 <= i < values.len() {
                        zeroed(values[i])
                    } else {
                        value
                    },
            ),
        ),
        Value::Func { .. } => value,
    }
}

/// The environment after `pattern` was matched against `value`, if it
/// fits: a name takes the whole value, a tuple of patterns a tuple of as
/// many values.
pub open spec fn bind<'a>(pattern: Parsed<'a, Expr<'a>>, value: Value<'a>, env: Env<'a>) -> Option<
    Env<'a>,
>
    decreases pattern, 0nat,
{
    match pattern.node {
        Expr::Ident(name) => Some(given(env, name@, value)),
        Expr::Tuple { exprs } => match value {
            Value::Tuple(values) => if values.len() == exprs@.len() {
                bind_all(exprs@, values, env, exprs@.len())
            } else {
                None
            },
            _ => None,
        },
        _ => None,
    }
}

/// The environment after the first `n` of `patterns` were matched against
/// the first `n` of `values`.
pub open spec fn bind_all<'a>(
    patterns: Seq<Parsed<'a, Expr<'a>>>,
    values: Seq<Value<'a>>,
    env: Env<'a>,
    n: nat,
) -> Option<Env<'a>>
    decreases patterns, n,
{
    if n == 0 || n > patterns.len() {
        Some(env)
    } else {
        match bind_all(patterns, values, env, (n - 1) as nat) {
            None => None,
            Some(before) => bind(patterns[n - 1], values[n - 1], before),
        }
    }
}

/// No value: the expression has none.
pub open spec fn stuck<'a>(env: Env<'a>) -> Evaluation<'a> {
    Evaluation { value: None, env }
}

/// The value of `expr` in the environment `env`, and the environment
/// behind it. `live` tells whether the expression is run or stands in dead
/// code. Functions are not entered more than `depth` deep; an expression
/// that would need more has no value, nor has one that is not well typed.
///
/// - A number is its value, `true` is true and `false` is false; in dead
///   code they are zero and false.
/// - A name is what it stands for.
/// - A tuple is the tuple of its parts, from left to right.
/// - A sequence is its last expression, behind the others.
/// - `pattern = value` is the value, whose parts are given the names of the
///   pattern.
/// - `left + right` is the sum of two integers, on 32 bits; in dead code
///   it is zero.
/// - `fn` is a function, which is given its name if it has one.
/// - `callee(argument)` is the body of the function, with the names of its
///   pattern standing for the parts of the argument and no other name in
///   scope; in dead code it is the value that the call would have, set to
///   zero.
/// - `if cond { conc }` is a value that is there if `cond` is true. The
///   body is run only then, and dead code if not.
/// - `maybe else { alternative }` is what `maybe` holds if it is there, and
///   the alternative if not. The alternative is run only then, and dead
///   code if not. In dead code the whole is set to zero.
pub open spec fn eval<'a>(expr: Parsed<'a, Expr<'a>>, env: Env<'a>, live: bool, depth: nat) -> Evaluation<
    'a,
>
    decreases depth, expr, 1nat,
{
    match expr.node {
        Expr::IntLiteral(lexeme) => Evaluation {
            value: Some(
                Value::Int(
                    if live {
                        literal_value(lexeme@) as i32
                    } else {
                        0
                    },
                ),
            ),
            env,
        },
        Expr::BoolLiteral(lexeme) => Evaluation {
            value: Some(Value::Bool(live && lexeme@ == "true"@)),
            env,
        },
        Expr::Ident(name) => Evaluation { value: value_of(env, name@), env },
        Expr::Func { name, pattern, expr: body } => {
            let func = Value::Func { pattern: *pattern, body: *body };
            Evaluation {
                value: Some(func),
                env: match name {
                    Some(name) => given(env, name@, func),
                    None => env,
                },
            }
        },
        Expr::Tuple { exprs } => {
            let parts = eval_all(exprs@, env, live, depth, exprs@.len());
            match parts.values {
                None => stuck(env),
                Some(values) => Evaluation { value: Some(Value::Tuple(values)), env: parts.env },
            }
        },
        Expr::Block { exprs, last } => {
            let parts = eval_all(exprs@, env, live, depth, exprs@.len());
            match parts.values {
                None => stuck(env),
                Some(_) => eval(*last, parts.env, live, depth),
            }
        },
        Expr::Binary { left, right, op } => match op {
            BinaryOp::Plus => {
                let first = eval(*left, env, live, depth);
                let second = eval(*right, first.env, live, depth);
                match (first.value, second.value) {
                    (Some(Value::Int(a)), Some(Value::Int(b))) => Evaluation {
                        value: Some(
                            Value::Int(
                                if live {
                                    a.wrapping_add(b)
                                } else {
                                    0
                                },
                            ),
                        ),
                        env: second.env,
                    },
                    _ => stuck(env),
                }
            },
            BinaryOp::SingleEquals => {
                let value = eval(*right, env, live, depth);
                match value.value {
                    None => stuck(env),
                    Some(v) => match bind(*left, v, value.env) {
                        None => stuck(env),
                        Some(env) => Evaluation { value: Some(v), env },
                    },
                }
            },
            BinaryOp::Else => {
                let first = eval(*left, env, live, depth);
                match first.value {
                    Some(Value::Maybe(there, inner)) => {
                        let second = eval(*right, first.env, live && !there, depth);
                        match second.value {
                            None => stuck(env),
                            Some(alt) => Evaluation {
                                value: Some(
                                    if !live {
                                        zeroed(*inner)
                                    } else if there {
                                        *inner
                                    } else {
                                        alt
                                    },
                                ),
                                env: second.env,
                            },
                        }
                    },
                    _ => stuck(env),
                }
            },
            BinaryOp::Bracket => {
                let first = eval(*left, env, live, depth);
                let second = eval(*right, first.env, live, depth);
                match (first.value, second.value) {
                    (Some(Value::Func { pattern, body }), Some(argument)) => Evaluation {
                        value: applied(expr, pattern, body, argument, live, depth),
                        env: second.env,
                    },
                    _ => stuck(env),
                }
            },
        },
        Expr::If { cond, conc } => {
            let first = eval(*cond, env, live, depth);
            match first.value {
                Some(Value::Bool(taken)) => {
                    let second = eval(*conc, first.env, live && taken, depth);
                    match second.value {
                        None => stuck(env),
                        Some(value) => Evaluation {
                            value: Some(Value::Maybe(taken, Box::new(value))),
                            env: second.env,
                        },
                    }
                },
                _ => stuck(env),
            }
        },
    }
}

/// The values of the first `n` of `exprs`, one after the other.
pub open spec fn eval_all<'a>(
    exprs: Seq<Parsed<'a, Expr<'a>>>,
    env: Env<'a>,
    live: bool,
    depth: nat,
    n: nat,
) -> Evaluations<'a>
    decreases depth, exprs, n,
{
    if n == 0 || n > exprs.len() {
        Evaluations { values: Some(seq![]), env }
    } else {
        let before = eval_all(exprs, env, live, depth, (n - 1) as nat);
        match before.values {
            None => before,
            Some(values) => {
                let step = eval(exprs[n - 1], before.env, live, depth);
                match step.value {
                    None => Evaluations { values: None, env: step.env },
                    Some(value) => Evaluations { values: Some(values.push(value)), env: step.env },
                }
            },
        }
    }
}

/// The value of the function with parameter `pattern` and body `body` for
/// `argument`, as `expr` calls it. A call in dead code is not made: it
/// leaves the value that it would have, set to zero.
pub open spec fn applied<'a>(
    expr: Parsed<'a, Expr<'a>>,
    pattern: Parsed<'a, Expr<'a>>,
    body: Parsed<'a, Expr<'a>>,
    argument: Value<'a>,
    live: bool,
    depth: nat,
) -> Option<Value<'a>>
    decreases depth, expr, 0nat,
{
    if depth == 0 {
        None
    } else {
        match bind(pattern, argument, Seq::empty()) {
            None => None,
            Some(env) => match eval(body, env, true, (depth - 1) as nat).value {
                None => None,
                Some(value) => Some(
                    if live {
                        value
                    } else {
                        zeroed(value)
                    },
                ),
            },
        }
    }
}

/// How a value reads. An integer reads as its decimal text and a truth
/// value as `true` or `false`. A value that may be absent reads as
/// `some(..)` around the value if it is there, and as `none` if not. A tuple
/// reads as its parts, one right after the other.
pub open spec fn shown<'a>(value: Value<'a>) -> Seq<char>
    decreases value,
{
    match value {
        Value::Int(number) => decimal_text(number as int),
        Value::Bool(truth) => if truth {
            "true"@
        } else {
            "false"@
        },
        Value::Maybe(there, inner) => if there {
            "some("@ + shown(*inner) + ")"@
        } else {
            "none"@
        },
        Value::Tuple(values) => shown_all(values, values.len()),
        Value::Func { .. } => Seq::empty(),
    }
}

/// How the first `n` of `values` read, one right after the other.
pub open spec fn shown_all<'a>(values: Seq<Value<'a>>, n: nat) -> Seq<char>
    decreases values, n,
{
    if n == 0 || n > values.len() {
        Seq::empty()
    } else {
        shown_all(values, (n - 1) as nat) + shown(values[n - 1])
    }
}

/// An expression that has a value at some depth has the same value, and
/// leaves the same environment, at every greater depth.
pub proof fn lemma_eval_deeper<'a>(
    expr: Parsed<'a, Expr<'a>>,
    env: Env<'a>,
    live: bool,
    depth: nat,
    deeper: nat,
)
    requires
        depth <= deeper,
        eval(expr, env, live, depth).value is Some,
    ensures
        eval(expr, env, live, deeper) == eval(expr, env, live, depth),
    decreases depth, expr, 1nat,
{
    match expr.node {
        Expr::Tuple { exprs } => {
            lemma_eval_all_deeper(exprs@, env, live, depth, deeper, exprs@.len());
        },
        Expr::Block { exprs, last } => {
            lemma_eval_all_deeper(exprs@, env, live, depth, deeper, exprs@.len());
            let parts = eval_all(exprs@, env, live, depth, exprs@.len());
            lemma_eval_deeper(*last, parts.env, live, depth, deeper);
        },
        Expr::Binary { left, right, op } => match op {
            BinaryOp::Plus => {
                lemma_eval_deeper(*left, env, live, depth, deeper);
                let first = eval(*left, env, live, depth);
                lemma_eval_deeper(*right, first.env, live, depth, deeper);
            },
            BinaryOp::SingleEquals => {
                lemma_eval_deeper(*right, env, live, depth, deeper);
            },
            BinaryOp::Else => {
                lemma_eval_deeper(*left, env, live, depth, deeper);
                let first = eval(*left, env, live, depth);
                match first.value {
                    Some(Value::Maybe(there, _)) => {
                        lemma_eval_deeper(*right, first.env, live && !there, depth, deeper);
                    },
                    _ => {},
                }
            },
            BinaryOp::Bracket => {
                lemma_eval_deeper(*left, env, live, depth, deeper);
                let first = eval(*left, env, live, depth);
                lemma_eval_deeper(*right, first.env, live, depth, deeper);
                let second = eval(*right, first.env, live, depth);
                match (first.value, second.value) {
                    (Some(Value::Func { pattern, body }), Some(argument)) => {
                        lemma_applied_deeper(expr, pattern, body, argument, live, depth, deeper);
                    },
                    _ => {},
                }
            },
        },
        Expr::If { cond, conc } => {
            lemma_eval_deeper(*cond, env, live, depth, deeper);
            let first = eval(*cond, env, live, depth);
            match first.value {
                Some(Value::Bool(taken)) => {
                    lemma_eval_deeper(*conc, first.env, live && taken, depth, deeper);
                },
                _ => {},
            }
        },
        _ => {},
    }
}

/// What `lemma_eval_deeper` says, of the first `n` expressions of a list.
pub proof fn lemma_eval_all_deeper<'a>(
    exprs: Seq<Parsed<'a, Expr<'a>>>,
    env: Env<'a>,
    live: bool,
    depth: nat,
    deeper: nat,
    n: nat,
)
    requires
        depth <= deeper,
        eval_all(exprs, env, live, depth, n).values is Some,
    ensures
        eval_all(exprs, env, live, deeper, n) == eval_all(exprs, env, live, depth, n),
    decreases depth, exprs, n,
{
    if n == 0 || n > exprs.len() {
    } else {
        lemma_eval_all_deeper(exprs, env, live, depth, deeper, (n - 1) as nat);
        let before = eval_all(exprs, env, live, depth, (n - 1) as nat);
        lemma_eval_deeper(exprs[n - 1], before.env, live, depth, deeper);
    }
}

/// What `lemma_eval_deeper` says, of a call.
pub proof fn lemma_applied_deeper<'a>(
    expr: Parsed<'a, Expr<'a>>,
    pattern: Parsed<'a, Expr<'a>>,
    body: Parsed<'a, Expr<'a>>,
    argument: Value<'a>,
    live: bool,
    depth: nat,
    deeper: nat,
)
    requires
        depth <= deeper,
        applied(expr, pattern, body, argument, live, depth) is Some,
    ensures
        applied(expr, pattern, body, argument, live, deeper) == applied(
            expr,
            pattern,
            body,
            argument,
            live,
            depth,
        ),
    decreases depth, expr, 0nat,
{
    match bind(pattern, argument, Seq::empty()) {
        None => {},
        Some(env) => {
            lemma_eval_deeper(body, env, true, (depth - 1) as nat, (deeper - 1) as nat);
        },
    }
}

} // verus!

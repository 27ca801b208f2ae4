//! The compiler and the interpreter agree: what a compiled program leaves in
//! its registers is the value that the program has.

use crate::ast::{Expr, Parsed};
use crate::compiler::Failure;
use crate::elaboration::{bound, bound_all, room, Whole};
use crate::execute::{
    cleared,
    read_all,
    rendered,
    rendered_all,
    run_block,
    run_insts,
    runnable,
    write_all,
};
use crate::impls::{registry, TableView, with_cell, with_impl};
use crate::ir::{InstructionView, ProgramView, Var, var_range};
use crate::running::{finish, lemma_finish_behind, lemma_run_block_extended, lemma_run_block_more};
use crate::scope::{assigned, Binding, lookup, overwrite};
use crate::semantics::{
    bind,
    bind_all,
    Env,
    eval,
    eval_all,
    given,
    lemma_eval_deeper,
    replaced,
    shown,
    shown_all,
    Value,
    value_of,
    zeroed,
};
use crate::state::State;
use crate::types::{
    ImplementationView,
    lemma_alike_same,
    lemma_map_back,
    lemma_part_within,
    lemma_vars_len,
    lemma_vars_of_len,
    lemma_vars_of_part,
    Source,
    TypeView,
};
use vstd::prelude::*;

verus! {

/// Whether the registers `regs` hold `value` in the variables of `ty`. An
/// integer is held as it is, a truth value as 1 or 0, and a value that may
/// be absent with 1 or 0 in its tag. A function is held by its type.
pub open spec fn holds<'a>(value: Value<'a>, ty: TypeView<'a>, regs: Seq<i32>) -> bool
    decreases ty,
{
    match (value, ty) {
        (Value::Int(number), TypeView::Int(var)) => regs[var.id as int] == number,
        (Value::Bool(truth), TypeView::Bool(var)) => regs[var.id as int] == (if truth {
            1i32
        } else {
            0i32
        }),
        (Value::Maybe(there, inner), TypeView::Maybe(tag, inner_ty)) => {
            &&& regs[tag.id as int] == (if there {
                1i32
            } else {
                0i32
            })
            &&& holds(*inner, *inner_ty, regs)
        },
        (Value::Tuple(values), TypeView::Tuple(types)) => {
            &&& values.len() == types.len()
            &&& forall|i: int| 0 <= i < types.len() ==> holds(values[i], #[trigger] types[i], regs)
        },
        (Value::Func { pattern, body }, TypeView::Func { pattern: p, expr: b, .. }) => pattern == p
            && body == b,
        _ => false,
    }
}

/// Whether the registers hold, for every name in scope, the value that the
/// environment gives it.
pub open spec fn agree<'a>(env: Env<'a>, scope: Seq<Binding<'a>>, regs: Seq<i32>) -> bool {
    &&& env.len() == scope.len()
    &&& forall|i: int|
        0 <= i < scope.len() ==> (#[trigger] env[i]).name == scope[i].name && holds(
            env[i].value,
            scope[i].ty,
            regs,
        )
}

/// Whether two lists of registers are the same below number `count`.
pub open spec fn same_below(regs: Seq<i32>, other: Seq<i32>, count: int) -> bool {
    &&& regs.len() == other.len()
    &&& forall|x: int| 0 <= x < count && x < regs.len() ==> #[trigger] regs[x] == other[x]
}

/// Whether the registers from number `count` on are zero.
pub open spec fn zero_from(regs: Seq<i32>, count: int) -> bool {
    forall|x: int| count <= x < regs.len() ==> #[trigger] regs[x] == 0
}

/// A value that is held in variables below `count` is still held when
/// other registers change.
pub proof fn lemma_holds_frame<'a>(
    value: Value<'a>,
    ty: TypeView<'a>,
    regs: Seq<i32>,
    other: Seq<i32>,
    count: int,
)
    requires
        holds(value, ty, regs),
        ty.within(count),
        count <= regs.len(),
        same_below(regs, other, count),
    ensures
        holds(value, ty, other),
    decreases ty,
{
    match (value, ty) {
        (Value::Int(_), TypeView::Int(var)) => {
            assert(ty.vars()[0] == var);
        },
        (Value::Bool(_), TypeView::Bool(var)) => {
            assert(ty.vars()[0] == var);
        },
        (Value::Maybe(_, inner), TypeView::Maybe(tag, inner_ty)) => {
            assert(ty.vars() =~= seq![tag] + inner_ty.vars());
            assert(ty.vars()[0] == tag);
            assert forall|k: int| 0 <= k < inner_ty.vars().len() implies (
            #[trigger] inner_ty.vars()[k]).id < count by {
                assert(ty.vars()[k + 1] == inner_ty.vars()[k]);
            }
            lemma_holds_frame(*inner, *inner_ty, regs, other, count);
        },
        (Value::Tuple(values), TypeView::Tuple(types)) => {
            assert forall|i: int| 0 <= i < types.len() implies holds(
                values[i],
                #[trigger] types[i],
                other,
            ) by {
                lemma_part_within(types, i, count);
                lemma_holds_frame(values[i], types[i], regs, other, count);
            }
        },
        _ => {},
    }
}

/// An environment that the registers agree with is still agreed with when
/// registers change that no type in scope names.
pub proof fn lemma_agree_frame<'a>(
    env: Env<'a>,
    scope: Seq<Binding<'a>>,
    regs: Seq<i32>,
    other: Seq<i32>,
    count: int,
)
    requires
        agree(env, scope, regs),
        forall|i: int| 0 <= i < scope.len() ==> (#[trigger] scope[i]).ty.within(count),
        count <= regs.len(),
        same_below(regs, other, count),
    ensures
        agree(env, scope, other),
{
    assert forall|i: int| 0 <= i < scope.len() implies (#[trigger] env[i]).name == scope[i].name
        && holds(env[i].value, scope[i].ty, other) by {
        lemma_holds_frame(env[i].value, scope[i].ty, regs, other, count);
    }
}

/// What a name stands for in scope holds the value that the environment
/// gives it.
pub proof fn lemma_agree_lookup<'a>(
    env: Env<'a>,
    scope: Seq<Binding<'a>>,
    regs: Seq<i32>,
    name: Seq<char>,
)
    requires
        agree(env, scope, regs),
    ensures
        lookup(scope, name) is Some <==> value_of(env, name) is Some,
        lookup(scope, name) matches Some(ty) ==> holds(value_of(env, name)->0, ty, regs),
    decreases scope.len(),
{
    if scope.len() > 0 {
        assert(env[0].name == scope[0].name);
        if scope[0].name != name {
            let rest = scope.drop_first();
            let tail = env.drop_first();
            assert forall|i: int| 0 <= i < rest.len() implies (#[trigger] tail[i]).name
                == rest[i].name && holds(tail[i].value, rest[i].ty, regs) by {
                assert(tail[i] == env[i + 1]);
                assert(rest[i] == scope[i + 1]);
            }
            lemma_agree_lookup(tail, rest, regs, name);
        }
    }
}

/// Replacing what a name stands for, in scope and in the environment, by a
/// type and a value that it holds leaves the two in agreement.
pub proof fn lemma_agree_replaced<'a>(
    env: Env<'a>,
    scope: Seq<Binding<'a>>,
    regs: Seq<i32>,
    name: Seq<char>,
    value: Value<'a>,
    ty: TypeView<'a>,
)
    requires
        agree(env, scope, regs),
        holds(value, ty, regs),
    ensures
        agree(replaced(env, name, value), overwrite(scope, name, ty), regs),
    decreases scope.len(),
{
    if scope.len() > 0 {
        assert(env[0].name == scope[0].name);
        if scope[0].name != name {
            let rest = scope.drop_first();
            let tail = env.drop_first();
            assert forall|i: int| 0 <= i < rest.len() implies (#[trigger] tail[i]).name
                == rest[i].name && holds(tail[i].value, rest[i].ty, regs) by {
                assert(tail[i] == env[i + 1]);
                assert(rest[i] == scope[i + 1]);
            }
            lemma_agree_replaced(tail, rest, regs, name, value, ty);
            let env2 = replaced(env, name, value);
            let scope2 = overwrite(scope, name, ty);
            assert forall|i: int| 0 <= i < scope2.len() implies (#[trigger] env2[i]).name
                == scope2[i].name && holds(env2[i].value, scope2[i].ty, regs) by {
                if i > 0 {
                    assert(env2[i] == replaced(tail, name, value)[i - 1]);
                    assert(scope2[i] == overwrite(rest, name, ty)[i - 1]);
                }
            }
        }
    }
}

/// Giving a name a type in scope and a value that it holds in the
/// environment leaves the two in agreement.
pub proof fn lemma_agree_given<'a>(
    env: Env<'a>,
    scope: Seq<Binding<'a>>,
    regs: Seq<i32>,
    name: Seq<char>,
    value: Value<'a>,
    ty: TypeView<'a>,
)
    requires
        agree(env, scope, regs),
        holds(value, ty, regs),
    ensures
        agree(given(env, name, value), assigned(scope, name, ty), regs),
{
    lemma_agree_lookup(env, scope, regs, name);
    if lookup(scope, name) is Some {
        lemma_agree_replaced(env, scope, regs, name, value, ty);
    } else {
        let env2 = given(env, name, value);
        let scope2 = assigned(scope, name, ty);
        assert forall|i: int| 0 <= i < scope2.len() implies (#[trigger] env2[i]).name
            == scope2[i].name && holds(env2[i].value, scope2[i].ty, regs) by {
            if i > 0 {
                assert(env2[i] == env[i - 1]);
                assert(scope2[i] == scope[i - 1]);
            }
        }
    }
}

/// A pattern that fits a type fits every value that the type holds, and
/// the names of the pattern get the parts of the value.
pub proof fn lemma_bind<'a>(
    pattern: Parsed<'a, Expr<'a>>,
    value: Value<'a>,
    ty: TypeView<'a>,
    env: Env<'a>,
    scope: Seq<Binding<'a>>,
    regs: Seq<i32>,
)
    requires
        agree(env, scope, regs),
        holds(value, ty, regs),
    ensures
        bound(pattern, ty, scope) matches Ok(scope2) ==> bind(pattern, value, env) is Some
            && agree(bind(pattern, value, env)->0, scope2, regs),
    decreases pattern, 0nat,
{
    match pattern.node {
        Expr::Ident(name) => {
            lemma_agree_given(env, scope, regs, name@, value, ty);
        },
        Expr::Tuple { exprs } => {
            match (value, ty) {
                (Value::Tuple(values), TypeView::Tuple(types)) => {
                    if types.len() == exprs@.len() {
                        lemma_bind_all(exprs@, values, types, env, scope, regs, exprs@.len());
                    }
                },
                _ => {},
            }
        },
        _ => {},
    }
}

/// What `lemma_bind` says, of the first `n` patterns of a tuple.
pub proof fn lemma_bind_all<'a>(
    patterns: Seq<Parsed<'a, Expr<'a>>>,
    values: Seq<Value<'a>>,
    types: Seq<TypeView<'a>>,
    env: Env<'a>,
    scope: Seq<Binding<'a>>,
    regs: Seq<i32>,
    n: nat,
)
    requires
        agree(env, scope, regs),
        values.len() == types.len(),
        types.len() == patterns.len(),
        forall|i: int| 0 <= i < types.len() ==> holds(values[i], #[trigger] types[i], regs),
        n <= patterns.len(),
    ensures
        bound_all(patterns, types, scope, n) matches Ok(scope2) ==> bind_all(
            patterns,
            values,
            env,
            n,
        ) is Some && agree(bind_all(patterns, values, env, n)->0, scope2, regs),
    decreases patterns, n,
{
    if n > 0 {
        lemma_bind_all(patterns, values, types, env, scope, regs, (n - 1) as nat);
        match bound_all(patterns, types, scope, (n - 1) as nat) {
            Err(_) => {},
            Ok(before) => {
                let env1 = bind_all(patterns, values, env, (n - 1) as nat)->0;
                assert(holds(values[n - 1], types[n - 1], regs));
                lemma_bind(patterns[n - 1], values[n - 1], types[n - 1], env1, before, regs);
            },
        }
    }
}

/// A value that is held by a type without functions reads as the registers
/// do.
pub proof fn lemma_shown<'a>(value: Value<'a>, ty: TypeView<'a>, regs: Seq<i32>)
    requires
        holds(value, ty, regs),
        !ty.holds_function(),
    ensures
        rendered(ty, regs) == shown(value),
    decreases ty,
{
    match (value, ty) {
        (Value::Maybe(_, inner), TypeView::Maybe(_, inner_ty)) => {
            lemma_shown(*inner, *inner_ty, regs);
        },
        (Value::Tuple(values), TypeView::Tuple(types)) => {
            lemma_shown_all(values, types, regs, types.len());
        },
        _ => {},
    }
}

/// What `lemma_shown` says, of the first `n` parts of a tuple.
pub proof fn lemma_shown_all<'a>(
    values: Seq<Value<'a>>,
    types: Seq<TypeView<'a>>,
    regs: Seq<i32>,
    n: nat,
)
    requires
        values.len() == types.len(),
        forall|i: int| 0 <= i < types.len() ==> holds(values[i], #[trigger] types[i], regs),
        forall|i: int| 0 <= i < types.len() ==> !(#[trigger] types[i]).holds_function(),
        n <= types.len(),
    ensures
        rendered_all(types, regs, n) == shown_all(values, n),
    decreases types, n,
{
    if n > 0 {
        lemma_shown_all(values, types, regs, (n - 1) as nat);
        assert(holds(values[n - 1], types[n - 1], regs));
        assert(!types[n - 1].holds_function());
        lemma_shown(values[n - 1], types[n - 1], regs);
    }
}

/// A value that is held in the variables of a type is held in other
/// variables of a type of the same shape, if they hold the same numbers.
pub proof fn lemma_holds_copied<'a>(
    value: Value<'a>,
    ty: TypeView<'a>,
    regs: Seq<i32>,
    vars: Seq<Var>,
    at: int,
    regs2: Seq<i32>,
)
    requires
        holds(value, ty, regs),
        0 <= at,
        at + ty.size() <= vars.len(),
        forall|k: int|
            0 <= k < ty.size()
                ==> regs2[vars[at + k].id as int] == regs[(#[trigger] ty.vars()[k]).id as int],
    ensures
        holds(value, ty.map_at(vars, at), regs2),
    decreases ty,
{
    lemma_vars_len(ty);
    match (value, ty) {
        (Value::Int(_), TypeView::Int(var)) => {
            assert(ty.vars()[0] == var);
        },
        (Value::Bool(_), TypeView::Bool(var)) => {
            assert(ty.vars()[0] == var);
        },
        (Value::Maybe(_, inner), TypeView::Maybe(tag, inner_ty)) => {
            assert(ty.vars() =~= seq![tag] + inner_ty.vars());
            assert(ty.vars()[0] == tag);
            lemma_vars_len(*inner_ty);
            assert forall|k: int| 0 <= k < inner_ty.size() implies regs2[vars[at + 1 + k].id as int]
                == regs[(#[trigger] inner_ty.vars()[k]).id as int] by {
                assert(ty.vars()[k + 1] == inner_ty.vars()[k]);
            }
            lemma_holds_copied(*inner, *inner_ty, regs, vars, at + 1, regs2);
        },
        (Value::Tuple(values), TypeView::Tuple(types)) => {
            let mapped = ty.map_at(vars, at)->Tuple_0;
            assert forall|i: int| 0 <= i < mapped.len() implies holds(
                values[i],
                #[trigger] mapped[i],
                regs2,
            ) by {
                assert(holds(values[i], types[i], regs));
                lemma_vars_of_part(types, i);
                lemma_vars_len(types[i]);
                lemma_vars_of_len(types);
                let lo = TypeView::sizes(types.take(i)) as int;
                assert forall|k: int| 0 <= k < types[i].size() implies regs2[vars[at + lo
                    + k].id as int] == regs[(#[trigger] types[i].vars()[k]).id as int] by {
                    assert(TypeView::vars_of(types).subrange(lo, lo + types[i].size())[k]
                        == types[i].vars()[k]);
                    assert(ty.vars()[lo + k] == types[i].vars()[k]);
                }
                lemma_holds_copied(values[i], types[i], regs, vars, at + lo, regs2);
            }
        },
        _ => {},
    }
}

/// Where the variables of a type are all zero, they hold the value set to
/// zero.
pub proof fn lemma_holds_zero<'a>(
    value: Value<'a>,
    ty: TypeView<'a>,
    regs: Seq<i32>,
    vars: Seq<Var>,
    at: int,
    regs2: Seq<i32>,
)
    requires
        holds(value, ty, regs),
        0 <= at,
        at + ty.size() <= vars.len(),
        forall|k: int| 0 <= k < ty.size() ==> regs2[(#[trigger] vars[at + k]).id as int] == 0,
    ensures
        holds(zeroed(value), ty.map_at(vars, at), regs2),
    decreases ty,
{
    match (value, ty) {
        (Value::Int(_), TypeView::Int(var)) => {
            assert(regs2[vars[at + 0].id as int] == 0);
        },
        (Value::Bool(_), TypeView::Bool(var)) => {
            assert(regs2[vars[at + 0].id as int] == 0);
        },
        (Value::Maybe(_, inner), TypeView::Maybe(tag, inner_ty)) => {
            assert(regs2[vars[at + 0].id as int] == 0);
            assert forall|k: int| 0 <= k < inner_ty.size() implies regs2[(#[trigger] vars[at + 1
                + k]).id as int] == 0 by {
                assert(regs2[vars[at + (k + 1)].id as int] == 0);
            }
            lemma_holds_zero(*inner, *inner_ty, regs, vars, at + 1, regs2);
        },
        (Value::Tuple(values), TypeView::Tuple(types)) => {
            let mapped = ty.map_at(vars, at)->Tuple_0;
            let zeros = zeroed(value)->Tuple_0;
            assert forall|i: int| 0 <= i < mapped.len() implies holds(
                zeros[i],
                #[trigger] mapped[i],
                regs2,
            ) by {
                assert(holds(values[i], types[i], regs));
                lemma_vars_of_part(types, i);
                let lo = TypeView::sizes(types.take(i)) as int;
                assert forall|k: int| 0 <= k < types[i].size() implies regs2[(#[trigger] vars[at
                    + lo + k]).id as int] == 0 by {
                    assert(regs2[vars[at + (lo + k)].id as int] == 0);
                }
                lemma_holds_zero(values[i], types[i], regs, vars, at + lo, regs2);
            }
        },
        _ => {},
    }
}

/// A moment in a run of a finished program: the program, the function that
/// runs, its registers, the values of the names in scope, and whether the
/// code at hand is run or dead.
pub struct World<'a> {
    pub program: ProgramView,
    pub f: int,
    pub regs: Seq<i32>,
    pub env: Env<'a>,
    pub live: bool,
}

/// Whether function `f` of the finished program `program` is what the
/// function that is being built in the state `s` has become: the program
/// still starts with the functions that were there, the blocks that were
/// closed are the same, and the cursor has only got more instructions.
pub open spec fn completes<'a>(program: ProgramView, f: int, s: State<'a>) -> bool {
    let function = program.functions[f];
    &&& 0 <= f < program.functions.len()
    &&& program.extends(s.program)
    &&& s.function.variable_count <= function.variable_count
    &&& s.function.blocks.len() <= function.blocks.len()
    &&& s.block.id < s.function.blocks.len()
    &&& forall|i: int|
        0 <= i < s.function.blocks.len() && (#[trigger] s.function.blocks[i]).committed
            ==> function.blocks[i] == s.function.blocks[i]
    &&& s.block.insts.is_prefix_of(function.blocks[s.block.id as int].insts)
}

/// Whether the world `w` is a moment at the cursor of the state `s`: the
/// function that runs is what the function of `s` has become, the registers
/// hold the values of the names in scope, and no variable that `s` has yet to
/// hand out has been written.
pub open spec fn fits<'a>(w: World<'a>, s: State<'a>) -> bool {
    &&& completes(w.program, w.f, s)
    &&& w.regs.len() == w.program.functions[w.f].variable_count
    &&& agree(w.env, s.scope, w.regs)
    &&& zero_from(w.regs, s.function.variable_count as int)
}

/// Whether a run that is at the cursor of `s` in the world `w` comes to the
/// cursor of `s2` with the registers `regs2`. Variables that were there
/// before keep their values and variables that `s2` has yet to hand out are
/// not written. Dead code leaves all registers as they are. Code that is run
/// comes to the cursor of `s2` in the sense that the run goes on from there
/// as it would from here: with `gap` more units of fuel it ends in the same
/// registers.
pub open spec fn moved<'a>(s: State<'a>, s2: State<'a>, w: World<'a>, gap: nat, regs2: Seq<i32>) -> bool {
    &&& same_below(w.regs, regs2, s.function.variable_count as int)
    &&& zero_from(regs2, s2.function.variable_count as int)
    &&& !w.live ==> regs2 == w.regs
    &&& w.live ==> forall|fuel: nat| #[trigger]
        finish(w.program, w.f, s2.block.id as int, s2.block.insts.len() as int, regs2, fuel)
            is Some ==> finish(
            w.program,
            w.f,
            s.block.id as int,
            s.block.insts.len() as int,
            w.regs,
            fuel + gap,
        ) == finish(w.program, w.f, s2.block.id as int, s2.block.insts.len() as int, regs2, fuel)
}

/// Whether, in the world `w`, the expression `expr` has a value at depth
/// `depth`, the run comes from the cursor of `s` to the cursor of `s2` with
/// the registers `regs2`, and these hold the value in the variables of `ty`
/// and the values of the names that are in scope afterwards.
pub open spec fn lands<'a>(
    expr: Parsed<'a, Expr<'a>>,
    s: State<'a>,
    s2: State<'a>,
    ty: TypeView<'a>,
    w: World<'a>,
    gap: nat,
    depth: nat,
    regs2: Seq<i32>,
) -> bool {
    let evaluation = eval(expr, w.env, w.live, depth);
    &&& evaluation.value is Some
    &&& holds(evaluation.value->0, ty, regs2)
    &&& agree(evaluation.env, s2.scope, regs2)
    &&& moved(s, s2, w, gap, regs2)
}

/// Whether compiling `expr` from the state `s` to the state `s2` with the
/// type `ty` is sound: in every world at the cursor of `s`, the expression
/// has a value, and the code that was compiled for it leaves that value in
/// the variables of `ty`.
pub open spec fn sound<'a>(
    expr: Parsed<'a, Expr<'a>>,
    s: State<'a>,
    s2: State<'a>,
    ty: TypeView<'a>,
) -> bool {
    forall|w: World<'a>| #[trigger]
        fits(w, s) && completes(w.program, w.f, s2) ==> exists|gap: nat, depth: nat, regs2: Seq<i32>|
            lands(expr, s, s2, ty, w, gap, depth, regs2)
}

/// What a finished function completes, it completes at every earlier
/// state.
pub proof fn lemma_completes_earlier<'a>(program: ProgramView, f: int, s: State<'a>, s2: State<'a>)
    requires
        completes(program, f, s2),
        s2.follows(s),
        s.block.id < s.function.blocks.len(),
        !s.function.blocks[s.block.id as int].committed,
    ensures
        completes(program, f, s),
{
    let function = program.functions[f];
    assert forall|i: int|
        0 <= i < s.function.blocks.len() && (#[trigger] s.function.blocks[i]).committed implies function.blocks[i]
        == s.function.blocks[i] by {
        assert(i != s.block.id);
        assert(s2.function.blocks[i] == s.function.blocks[i]);
    }
    if s2.block.id != s.block.id {
        assert(s2.function.blocks[s.block.id as int].committed);
        assert(function.blocks[s.block.id as int] == s2.function.blocks[s.block.id as int]);
    }
}

/// Nothing compiled: the run is where it was.
pub proof fn lemma_moved_none<'a>(s: State<'a>, w: World<'a>)
    requires
        fits(w, s),
    ensures
        moved(s, s, w, 0, w.regs),
{
}

/// Two pieces of code one after the other: the run comes from the first
/// cursor to the last.
pub proof fn lemma_moved_chain<'a>(
    s: State<'a>,
    s1: State<'a>,
    s2: State<'a>,
    w: World<'a>,
    gap1: nat,
    regs1: Seq<i32>,
    env1: Env<'a>,
    gap2: nat,
    regs2: Seq<i32>,
)
    requires
        s.function.variable_count <= s1.function.variable_count,
        moved(s, s1, w, gap1, regs1),
        moved(s1, s2, World { regs: regs1, env: env1, ..w }, gap2, regs2),
    ensures
        moved(s, s2, w, gap1 + gap2, regs2),
{
    if w.live {
        assert forall|fuel: nat| #[trigger]
            finish(w.program, w.f, s2.block.id as int, s2.block.insts.len() as int, regs2, fuel)
                is Some implies finish(
            w.program,
            w.f,
            s.block.id as int,
            s.block.insts.len() as int,
            w.regs,
            fuel + (gap1 + gap2),
        ) == finish(w.program, w.f, s2.block.id as int, s2.block.insts.len() as int, regs2, fuel) by {
            let mid = (fuel + gap2) as nat;
            assert(finish(
                w.program,
                w.f,
                s1.block.id as int,
                s1.block.insts.len() as int,
                regs1,
                mid,
            ) is Some);
            assert(fuel + (gap1 + gap2) == mid + gap1);
        }
    }
}

/// One instruction that is no call, appended to the cursor: the run comes
/// behind it with the register that it writes set.
pub proof fn lemma_moved_emit<'a>(
    s: State<'a>,
    inst: InstructionView,
    w: World<'a>,
    dest: Var,
    value: i32,
)
    requires
        fits(w, s),
        completes(w.program, w.f, s.emitted(inst, 1)),
        s.function.variable_count < usize::MAX,
        dest.id == s.function.variable_count,
        !(inst is Call),
        run_insts(w.program, seq![inst], 1, w.regs, 0) == Some(w.regs.update(dest.id as int, value)),
    ensures
        moved(
            s,
            s.emitted(inst, 1),
            w,
            0,
            if w.live {
                w.regs.update(dest.id as int, value)
            } else {
                w.regs
            },
        ),
{
    let s2 = s.emitted(inst, 1);
    let function = w.program.functions[w.f];
    let b = s.block.id as int;
    let n = s.block.insts.len() as int;
    let after = w.regs.update(dest.id as int, value);
    if w.live {
        assert(s2.block.insts[n] == inst);
        assert(function.blocks[b].insts[n] == inst);
        assert(function.blocks[b].insts.subrange(n, n + 1) =~= seq![inst]);
        assert forall|fuel: nat| #[trigger]
            finish(w.program, w.f, b, n + 1, after, fuel) is Some implies finish(
            w.program,
            w.f,
            b,
            n,
            w.regs,
            fuel + 0,
        ) == finish(w.program, w.f, b, n + 1, after, fuel) by {
            lemma_finish_behind(w.program, w.f, b, n, n + 1, w.regs, after, 0, fuel);
        }
    }
}

/// What `lands` says, of the first `n` expressions of a list and their
/// types.
pub open spec fn lands_all<'a>(
    exprs: Seq<Parsed<'a, Expr<'a>>>,
    n: nat,
    s: State<'a>,
    s2: State<'a>,
    types: Seq<TypeView<'a>>,
    w: World<'a>,
    gap: nat,
    depth: nat,
    regs2: Seq<i32>,
) -> bool {
    let evaluation = eval_all(exprs, w.env, w.live, depth, n);
    &&& evaluation.values is Some
    &&& evaluation.values->0.len() == types.len()
    &&& forall|i: int|
        0 <= i < types.len() ==> holds(evaluation.values->0[i], #[trigger] types[i], regs2)
    &&& agree(evaluation.env, s2.scope, regs2)
    &&& moved(s, s2, w, gap, regs2)
}

/// What `sound` says, of the first `n` expressions of a list and their
/// types.
pub open spec fn sound_all<'a>(
    exprs: Seq<Parsed<'a, Expr<'a>>>,
    n: nat,
    s: State<'a>,
    s2: State<'a>,
    types: Seq<TypeView<'a>>,
) -> bool {
    forall|w: World<'a>| #[trigger]
        fits(w, s) && completes(w.program, w.f, s2) ==> exists|gap: nat, depth: nat, regs2: Seq<i32>|
            lands_all(exprs, n, s, s2, types, w, gap, depth, regs2)
}

/// Whether the registers `regs` of a function that is entered hold
/// `argument` in the parameters `param_ty`, and zero in all other variables.
pub open spec fn meets<'a>(
    argument: Value<'a>,
    param_ty: TypeView<'a>,
    regs: Seq<i32>,
    count: int,
) -> bool {
    &&& regs.len() == count
    &&& holds(argument, param_ty, regs)
    &&& zero_from(regs, param_ty.size() as int)
}

/// Whether the implementation `imp` of the function with parameter
/// `pattern` and body `body`, entered with `argument` in the registers
/// `regs`, returns with the registers `regs2`, which hold the value that the
/// function has for the argument.
pub open spec fn answers<'a>(
    pattern: Parsed<'a, Expr<'a>>,
    body: Parsed<'a, Expr<'a>>,
    imp: ImplementationView<'a>,
    program: ProgramView,
    argument: Value<'a>,
    regs: Seq<i32>,
    fuel: nat,
    depth: nat,
    regs2: Seq<i32>,
) -> bool {
    let env = bind(pattern, argument, Seq::empty());
    &&& env is Some
    &&& eval(body, env->0, true, depth).value is Some
    &&& run_block(program, imp.entry.id as int, 0, regs, fuel) == Some(regs2)
    &&& holds(eval(body, env->0, true, depth).value->0, imp.return_ty, regs2)
}

/// Whether the implementation `imp` is one of the function with parameter
/// `pattern` and body `body`: it takes its parameters in its first variables,
/// and for every argument it returns the value that the function has.
pub open spec fn impl_sound<'a>(
    pattern: Parsed<'a, Expr<'a>>,
    body: Parsed<'a, Expr<'a>>,
    imp: ImplementationView<'a>,
    program: ProgramView,
) -> bool {
    let function = program.functions[imp.entry.id as int];
    &&& imp.entry.id < program.functions.len()
    &&& imp.param_ty.size() <= function.variable_count
    &&& function.params == var_range(0, imp.param_ty.size())
    &&& imp.param_ty.vars() == function.params
    &&& imp.return_ty.vars() == function.returns
    &&& forall|argument: Value<'a>, regs: Seq<i32>| #[trigger]
        meets(argument, imp.param_ty, regs, function.variable_count as int) ==> exists|
            fuel: nat,
            depth: nat,
            regs2: Seq<i32>,
        |
            answers(pattern, body, imp, program, argument, regs, fuel, depth, regs2)
}

/// Whether every implementation in the table is one of its function.
pub open spec fn table_sound<'a>(table: TableView<'a>, program: ProgramView) -> bool {
    forall|c: int, i: int|
        0 <= c < table.len() && 0 <= i < table[c].impls.len() ==> impl_sound(
            table[c].pattern,
            table[c].body,
            #[trigger] table[c].impls[i],
            program,
        )
}

/// An implementation of a function in a program that can be run is one in
/// every program that continues it.
pub proof fn lemma_impl_sound_extended<'a>(
    pattern: Parsed<'a, Expr<'a>>,
    body: Parsed<'a, Expr<'a>>,
    imp: ImplementationView<'a>,
    program: ProgramView,
    longer: ProgramView,
)
    requires
        impl_sound(pattern, body, imp, program),
        runnable(program),
        longer.extends(program),
    ensures
        impl_sound(pattern, body, imp, longer),
{
    let function = program.functions[imp.entry.id as int];
    assert(longer.functions[imp.entry.id as int] == function);
    assert forall|argument: Value<'a>, regs: Seq<i32>| #[trigger]
        meets(argument, imp.param_ty, regs, function.variable_count as int) implies exists|
        fuel: nat,
        depth: nat,
        regs2: Seq<i32>,
    |
        answers(pattern, body, imp, longer, argument, regs, fuel, depth, regs2) by {
        let (fuel, depth, regs2) = choose|fuel: nat, depth: nat, regs2: Seq<i32>|
            answers(pattern, body, imp, program, argument, regs, fuel, depth, regs2);
        lemma_run_block_extended(program, longer, imp.entry.id as int, 0, regs, fuel);
        assert(answers(pattern, body, imp, longer, argument, regs, fuel, depth, regs2));
    }
}

/// What `lemma_impl_sound_extended` says, of a table.
pub proof fn lemma_table_sound_extended<'a>(
    table: TableView<'a>,
    program: ProgramView,
    longer: ProgramView,
)
    requires
        table_sound(table, program),
        runnable(program),
        longer.extends(program),
    ensures
        table_sound(table, longer),
{
    assert forall|c: int, i: int|
        0 <= c < table.len() && 0 <= i < table[c].impls.len() implies impl_sound(
        table[c].pattern,
        table[c].body,
        #[trigger] table[c].impls[i],
        longer,
    ) by {
        lemma_impl_sound_extended(table[c].pattern, table[c].body, table[c].impls[i], program, longer);
    }
}

/// Writing the next variables of a function one after the other sets each
/// to its value and leaves the others alone.
pub proof fn lemma_write_range(regs: Seq<i32>, first: int, n: nat, values: Seq<i32>, m: nat)
    requires
        m <= n,
        0 <= first,
        first + n <= regs.len(),
        first + n <= usize::MAX,
    ensures
        write_all(regs, var_range(first, n), values, m).len() == regs.len(),
        forall|k: int|
            0 <= k < m ==> #[trigger] write_all(regs, var_range(first, n), values, m)[first + k]
                == values[k],
        forall|x: int|
            0 <= x < regs.len() && !(first <= x < first + m) ==> #[trigger] write_all(
                regs,
                var_range(first, n),
                values,
                m,
            )[x] == regs[x],
    decreases m,
{
    if m > 0 {
        lemma_write_range(regs, first, n, values, (m - 1) as nat);
        let before = write_all(regs, var_range(first, n), values, (m - 1) as nat);
        let after = write_all(regs, var_range(first, n), values, m);
        assert(var_range(first, n)[m - 1].id == first + m - 1);
        assert forall|k: int| 0 <= k < m implies #[trigger] after[first + k] == values[k] by {
            if k < m - 1 {
                assert(after[first + k] == before[first + k]);
            }
        }
    }
}

/// What a call of a sound implementation does. The argument is in the
/// caller's registers `regs`, in the variables of `argument_ty`. The call
/// lasts with some fuel, leaves the caller's registers as they are but for
/// the `n` new ones from number `count` on, and these hold the value that
/// the function has for the argument.
pub proof fn lemma_call<'a>(
    program: ProgramView,
    cells: Seq<Source<'a>>,
    pattern: Parsed<'a, Expr<'a>>,
    body: Parsed<'a, Expr<'a>>,
    imp: ImplementationView<'a>,
    argument: Value<'a>,
    argument_ty: TypeView<'a>,
    regs: Seq<i32>,
    count: int,
) -> (found: (nat, nat, Seq<i32>))
    requires
        impl_sound(pattern, body, imp, program),
        holds(argument, argument_ty, regs),
        imp.param_ty.same_shape(argument_ty),
        argument_ty.known(cells),
        imp.param_ty.known(cells),
        0 <= count,
        count + imp.return_ty.size() <= regs.len(),
        count + imp.return_ty.size() <= usize::MAX,
    ensures
        ({
            let (fuel, depth, regs2) = found;
            let dests = var_range(count, imp.return_ty.size());
            let env = bind(pattern, argument, Seq::empty());
            &&& env is Some
            &&& eval(body, env->0, true, depth).value is Some
            &&& run_insts(
                program,
                seq![
                    InstructionView::Call {
                        function: imp.entry,
                        args: argument_ty.vars(),
                        returns: dests,
                    },
                ],
                1,
                regs,
                fuel,
            ) == Some(regs2)
            &&& regs2.len() == regs.len()
            &&& forall|x: int|
                0 <= x < regs.len() && !(count <= x < count + imp.return_ty.size())
                    ==> #[trigger] regs2[x] == regs[x]
            &&& holds(
                eval(body, env->0, true, depth).value->0,
                imp.return_ty.map_to(dests),
                regs2,
            )
            &&& forall|other: Seq<i32>|
                (forall|k: int|
                    0 <= k < imp.return_ty.size() ==> other[(#[trigger] dests[0 + k]).id as int]
                        == 0) ==> #[trigger] holds(
                    zeroed(eval(body, env->0, true, depth).value->0),
                    imp.return_ty.map_to(dests),
                    other,
                )
        }),
{
    let function = program.functions[imp.entry.id as int];
    let size = imp.param_ty.size();
    let params = function.params;
    let args = read_all(regs, argument_ty.vars());
    let entered = write_all(cleared(function.variable_count as nat), params, args, params.len());
    lemma_vars_len(argument_ty);
    lemma_vars_len(imp.param_ty);
    lemma_vars_len(imp.return_ty);
    crate::types::lemma_same_shape_size(imp.param_ty, argument_ty);
    lemma_write_range(cleared(function.variable_count as nat), 0, size, args, size);
    assert forall|k: int| 0 <= k < argument_ty.size() implies entered[params[0 + k].id as int]
        == regs[(#[trigger] argument_ty.vars()[k]).id as int] by {
        assert(entered[0 + k] == args[k]);
    }
    lemma_holds_copied(argument, argument_ty, regs, params, 0, entered);
    crate::types::lemma_same_shape_symmetric(imp.param_ty, argument_ty);
    lemma_alike_same(argument_ty, imp.param_ty, cells, params, 0);
    assert(params.subrange(0, 0 + size as int) =~= imp.param_ty.vars());
    lemma_map_back(imp.param_ty, params, 0);
    assert(meets(argument, imp.param_ty, entered, function.variable_count as int));
    let (fuel, depth, returned) = choose|fuel: nat, depth: nat, regs2: Seq<i32>|
        answers(pattern, body, imp, program, argument, entered, fuel, depth, regs2);
    let env = bind(pattern, argument, Seq::empty())->0;
    let result = eval(body, env, true, depth).value->0;
    let n = imp.return_ty.size();
    let dests = var_range(count, n);
    let values = read_all(returned, function.returns);
    let inst = InstructionView::Call {
        function: imp.entry,
        args: argument_ty.vars(),
        returns: dests,
    };
    let regs2 = write_all(regs, dests, values, dests.len());
    assert(run_insts(program, seq![inst], 1, regs, fuel) == Some(regs2)) by {
        reveal_with_fuel(run_insts, 2);
        assert(seq![inst][0] == inst);
    }
    lemma_write_range(regs, count, n, values, n);
    assert forall|k: int| 0 <= k < imp.return_ty.size() implies regs2[dests[0 + k].id as int]
        == returned[(#[trigger] imp.return_ty.vars()[k]).id as int] by {
        assert(regs2[count + k] == values[k]);
    }
    lemma_holds_copied(result, imp.return_ty, returned, dests, 0, regs2);
    assert forall|other: Seq<i32>|
        (forall|k: int|
            0 <= k < imp.return_ty.size() ==> other[(#[trigger] dests[0 + k]).id as int]
                == 0) implies #[trigger] holds(
        zeroed(result),
        imp.return_ty.map_to(dests),
        other,
    ) by {
        lemma_holds_zero(result, imp.return_ty, returned, dests, 0, other);
    }
    (fuel, depth, regs2)
}

/// A table in which every implementation is sound stays so when a
/// function value without implementations is added.
pub proof fn lemma_table_sound_cell<'a>(
    table: TableView<'a>,
    program: ProgramView,
    pattern: Parsed<'a, Expr<'a>>,
    body: Parsed<'a, Expr<'a>>,
)
    requires
        table_sound(table, program),
    ensures
        table_sound(with_cell(table, pattern, body), program),
{
    let longer = with_cell(table, pattern, body);
    assert forall|c: int, i: int|
        0 <= c < longer.len() && 0 <= i < longer[c].impls.len() implies impl_sound(
        longer[c].pattern,
        longer[c].body,
        #[trigger] longer[c].impls[i],
        program,
    ) by {
        assert(longer[c] == table[c]);
    }
}

/// A table in which every implementation is sound stays so when a function
/// value gets one more sound implementation.
pub proof fn lemma_table_sound_impl<'a>(
    table: TableView<'a>,
    program: ProgramView,
    cell: int,
    imp: ImplementationView<'a>,
)
    requires
        table_sound(table, program),
        0 <= cell < table.len(),
        impl_sound(table[cell].pattern, table[cell].body, imp, program),
    ensures
        table_sound(with_impl(table, cell, imp), program),
{
    let longer = with_impl(table, cell, imp);
    assert forall|c: int, i: int|
        0 <= c < longer.len() && 0 <= i < longer[c].impls.len() implies impl_sound(
        longer[c].pattern,
        longer[c].body,
        #[trigger] longer[c].impls[i],
        program,
    ) by {
        if c == cell {
            if i < table[cell].impls.len() {
                assert(longer[c].impls[i] == table[c].impls[i]);
            }
        } else {
            assert(longer[c] == table[c]);
        }
    }
}

/// What the compiler owes for an expression that it has compiled: every
/// implementation in the table is sound, and so is the code for the
/// expression.
pub open spec fn faithful<'a>(
    expr: Parsed<'a, Expr<'a>>,
    before: State<'a>,
    after: State<'a>,
    result: Result<TypeView<'a>, Failure>,
) -> bool {
    result matches Ok(ty) ==> table_sound(after.table, after.program) && sound(
        expr,
        before,
        after,
        ty,
    )
}

/// Whether the state `after` is the state `before` behind a call of the
/// implementation `imp` of the function with parameter `pattern` and body
/// `body`, which is sound, with a value of type `argument_ty`, and `ty` is
/// the type of the result.
pub open spec fn call_made<'a>(
    pattern: Parsed<'a, Expr<'a>>,
    body: Parsed<'a, Expr<'a>>,
    argument_ty: TypeView<'a>,
    before: State<'a>,
    after: State<'a>,
    ty: TypeView<'a>,
    imp: ImplementationView<'a>,
) -> bool {
    let dests = var_range(before.function.variable_count as int, imp.return_ty.size());
    &&& impl_sound(pattern, body, imp, after.program)
    &&& imp.param_ty.same_shape(argument_ty)
    &&& imp.param_ty.known(registry(after.table))
    &&& room(before, imp.return_ty.size())
    &&& after.program.extends(before.program)
    &&& after.scope == before.scope
    &&& after.function == before.function.grown(imp.return_ty.size() as int)
    &&& after.block == before.block.with(
        InstructionView::Call { function: imp.entry, args: argument_ty.vars(), returns: dests },
    )
    &&& ty == imp.return_ty.map_to(dests)
}

/// What the compiler owes for a call that it has made: every
/// implementation in the table is sound, and the call is one of a sound
/// implementation of the function.
pub open spec fn call_faithful<'a>(
    pattern: Parsed<'a, Expr<'a>>,
    body: Parsed<'a, Expr<'a>>,
    argument_ty: TypeView<'a>,
    before: State<'a>,
    after: State<'a>,
    result: Result<TypeView<'a>, Failure>,
) -> bool {
    result matches Ok(ty) ==> table_sound(after.table, after.program) && exists|
        imp: ImplementationView<'a>,
    |
        call_made(pattern, body, argument_ty, before, after, ty, imp)
}

/// Whether the compiled program `whole`, run from its entry with `fuel`
/// units of fuel, returns with the registers `regs`, the expression `expr` has
/// a value at depth `depth`, and the registers hold that value in the
/// variables of the type of the program.
pub open spec fn witnessed<'a>(
    expr: Parsed<'a, Expr<'a>>,
    whole: Whole<'a>,
    fuel: nat,
    depth: nat,
    regs: Seq<i32>,
) -> bool {
    let main = whole.program.functions[whole.entry.id as int];
    &&& run_block(
        whole.program,
        whole.entry.id as int,
        0,
        cleared(main.variable_count as nat),
        fuel,
    ) == Some(regs)
    &&& eval(expr, Seq::empty(), true, depth).value is Some
    &&& holds(eval(expr, Seq::empty(), true, depth).value->0, whole.ty, regs)
}

/// The compiler and the interpreter agree on `expr`, compiled to `whole`:
/// the program returns, the expression has a value, and the registers of the
/// program hold it.
pub open spec fn agreement<'a>(expr: Parsed<'a, Expr<'a>>, whole: Whole<'a>) -> bool {
    exists|fuel: nat, depth: nat, regs: Seq<i32>| witnessed(expr, whole, fuel, depth, regs)
}

/// Where the compiler and the interpreter agree, they agree whatever the
/// fuel and the depth: whenever the program returns and the expression has a
/// value, the registers hold the value, and if the value holds no function,
/// the registers read as the value does.
pub proof fn lemma_agreement<'a>(
    expr: Parsed<'a, Expr<'a>>,
    whole: Whole<'a>,
    fuel: nat,
    depth: nat,
)
    requires
        agreement(expr, whole),
        run_block(
            whole.program,
            whole.entry.id as int,
            0,
            cleared(whole.program.functions[whole.entry.id as int].variable_count as nat),
            fuel,
        ) is Some,
        eval(expr, Seq::empty(), true, depth).value is Some,
    ensures
        ({
            let regs = run_block(
                whole.program,
                whole.entry.id as int,
                0,
                cleared(whole.program.functions[whole.entry.id as int].variable_count as nat),
                fuel,
            )->0;
            let value = eval(expr, Seq::empty(), true, depth).value->0;
            &&& holds(value, whole.ty, regs)
            &&& !whole.ty.holds_function() ==> rendered(whole.ty, regs) == shown(value)
        }),
{
    let (fuel0, depth0, regs0) = choose|fuel: nat, depth: nat, regs: Seq<i32>|
        witnessed(expr, whole, fuel, depth, regs);
    let start = cleared(whole.program.functions[whole.entry.id as int].variable_count as nat);
    let f = whole.entry.id as int;
    if fuel0 <= fuel {
        lemma_run_block_more(whole.program, f, 0, start, fuel0, fuel);
    } else {
        lemma_run_block_more(whole.program, f, 0, start, fuel, fuel0);
    }
    if depth0 <= depth {
        lemma_eval_deeper(expr, Seq::empty(), true, depth0, depth);
    } else {
        lemma_eval_deeper(expr, Seq::empty(), true, depth, depth0);
    }
    if !whole.ty.holds_function() {
        lemma_shown(eval(expr, Seq::empty(), true, depth).value->0, whole.ty, regs0);
    }
}

} // verus!

//! Expressions that are compiled in a straight line: sums, assignments,
//! tuples and sequences.

use crate::agreement::{faithful, sound_all, table_sound};
use crate::ast::{BinaryOp, Expr, Parsed};
use crate::compiler::{compile, CompileError, match_pattern, outcome, snapshot};
use crate::defined::{
    lemma_one_block_chain,
    one_block_kept,
    supplies,
    table_unbranched,
    unbranching,
};
use crate::elaboration::{
    agrees,
    bound,
    elaborated,
    elaborated_all,
    lemma_elaborated_all_stuck,
    Steps,
};
use crate::impls::{ImplTable, registry};
use crate::ir::{Block, Function, InstructionView, Program, var_range};
use crate::scope::Scope;
use crate::soundness::{
    lemma_sound_all_more,
    lemma_sound_all_none,
    lemma_sound_assignment,
    lemma_sound_sequence,
    lemma_sound_sum,
    lemma_sound_tuple,
};
use crate::state::{
    compiled,
    lemma_bound_ok,
    lemma_follows_chain,
    lemma_follows_self,
    lemma_state_emit,
    lemma_type_more,
};
use crate::types::{lemma_tuple_within, Type, TypeView};
use vstd::prelude::*;

verus! {

/// `left + right`
pub(super) fn compile_sum<'a, 'b>(
    expr: &'b Parsed<'a, Expr<'a>>,
    scope: &mut Scope<'a, 'b>,
    program: &mut Program,
    function: &mut Function,
    block: &mut Block,
    impls: &mut ImplTable<'a, 'b>,
    depth: usize,
) -> (result: Result<Type<'a, 'b>, CompileError<'a>>)
    requires
        expr.compilable(),
        expr.node is Binary,
        expr.node->op == BinaryOp::Plus,
        snapshot(*old(scope), *old(program), *old(function), *old(block), *old(impls)).ready(),
        table_sound(old(impls)@, old(program)@),
    ensures
        compiled(
            snapshot(*old(scope), *old(program), *old(function), *old(block), *old(impls)),
            snapshot(*final(scope), *final(program), *final(function), *final(block), *final(impls)),
            outcome(result),
        ),
        agrees(
            elaborated(
                *expr,
                snapshot(*old(scope), *old(program), *old(function), *old(block), *old(impls)),
                depth as nat,
            ),
            snapshot(*final(scope), *final(program), *final(function), *final(block), *final(impls)),
            outcome(result),
        ),
        faithful(
            *expr,
            snapshot(*old(scope), *old(program), *old(function), *old(block), *old(impls)),
            snapshot(*final(scope), *final(program), *final(function), *final(block), *final(impls)),
            outcome(result),
        ),
        unbranching(
            *expr,
            snapshot(*old(scope), *old(program), *old(function), *old(block), *old(impls)),
            snapshot(*final(scope), *final(program), *final(function), *final(block), *final(impls)),
            outcome(result),
        ),
    decreases depth, expr, 1nat,
{
    let ghost before = snapshot(*scope, *program, *function, *block, *impls);
    match &expr.node {
        Expr::Binary { left, right, .. } => {
            let left_ty = match compile(left, scope, program, function, block, impls, depth) {
                Ok(ty) => ty,
                Err(error) => {
                    return Err(error);
                },
            };
            let ghost mid = snapshot(*scope, *program, *function, *block, *impls);
            let right_ty = match compile(right, scope, program, function, block, impls, depth) {
                Ok(ty) => ty,
                Err(error) => {
                    return Err(error);
                },
            };
            let ghost late = snapshot(*scope, *program, *function, *block, *impls);
            proof {
                lemma_follows_chain(before, mid, late);
                lemma_type_more(
                    left_ty@,
                    mid.function.variable_count as int,
                    registry(mid.table),
                    late.function.variable_count as int,
                    registry(late.table),
                );
            }
            match (left_ty, right_ty) {
                (Type::Int(a), Type::Int(b)) => {
                    if !function.has_room(1) {
                        return Err(CompileError::limit_exceeded(expr.get_source()));
                    }
                    let dest = block.add(a, b, function);
                    proof {
                        let inst = InstructionView::AddInt { dest, a, b };
                        assert(seq![dest] =~= var_range(late.function.variable_count as int, 1));
                        assert(left_ty@.vars()[0] == a);
                        assert(right_ty@.vars()[0] == b);
                        lemma_state_emit(late, inst, 1);
                        lemma_follows_chain(before, late, late.emitted(inst, 1));
                        lemma_sound_sum(*expr, before, mid, late, a, b, dest);
                    }
                    Ok(Type::Int(dest))
                },
                _ => Err(CompileError::type_error(expr.get_source())),
            }
        },
        _ => Err(CompileError::type_error(expr.get_source())),
    }
}

/// `pattern = value`
pub(super) fn compile_assignment<'a, 'b>(
    expr: &'b Parsed<'a, Expr<'a>>,
    scope: &mut Scope<'a, 'b>,
    program: &mut Program,
    function: &mut Function,
    block: &mut Block,
    impls: &mut ImplTable<'a, 'b>,
    depth: usize,
) -> (result: Result<Type<'a, 'b>, CompileError<'a>>)
    requires
        expr.compilable(),
        expr.node is Binary,
        expr.node->op == BinaryOp::SingleEquals,
        snapshot(*old(scope), *old(program), *old(function), *old(block), *old(impls)).ready(),
        table_sound(old(impls)@, old(program)@),
    ensures
        compiled(
            snapshot(*old(scope), *old(program), *old(function), *old(block), *old(impls)),
            snapshot(*final(scope), *final(program), *final(function), *final(block), *final(impls)),
            outcome(result),
        ),
        agrees(
            elaborated(
                *expr,
                snapshot(*old(scope), *old(program), *old(function), *old(block), *old(impls)),
                depth as nat,
            ),
            snapshot(*final(scope), *final(program), *final(function), *final(block), *final(impls)),
            outcome(result),
        ),
        faithful(
            *expr,
            snapshot(*old(scope), *old(program), *old(function), *old(block), *old(impls)),
            snapshot(*final(scope), *final(program), *final(function), *final(block), *final(impls)),
            outcome(result),
        ),
        unbranching(
            *expr,
            snapshot(*old(scope), *old(program), *old(function), *old(block), *old(impls)),
            snapshot(*final(scope), *final(program), *final(function), *final(block), *final(impls)),
            outcome(result),
        ),
    decreases depth, expr, 1nat,
{
    match &expr.node {
        Expr::Binary { left, right, .. } => {
            let ty = match compile(right, scope, program, function, block, impls, depth) {
                Ok(ty) => ty,
                Err(error) => {
                    return Err(error);
                },
            };
            proof {
                lemma_bound_ok(
                    **left,
                    ty@,
                    scope@,
                    function@.variable_count as int,
                    registry(impls@),
                );
                if bound(**left, ty@, scope@) is Ok {
                    lemma_sound_assignment(
                        *expr,
                        snapshot(*old(scope), *old(program), *old(function), *old(block), *old(impls)),
                        snapshot(*scope, *program, *function, *block, *impls),
                        ty@,
                    );
                }
            }
            match match_pattern(left, ty.clone(), scope) {
                Ok(()) => Ok(ty),
                Err(error) => Err(error),
            }
        },
        _ => Err(CompileError::type_error(expr.get_source())),
    }
}

/// `first, second, ...`
pub(super) fn compile_tuple<'a, 'b>(
    expr: &'b Parsed<'a, Expr<'a>>,
    scope: &mut Scope<'a, 'b>,
    program: &mut Program,
    function: &mut Function,
    block: &mut Block,
    impls: &mut ImplTable<'a, 'b>,
    depth: usize,
) -> (result: Result<Type<'a, 'b>, CompileError<'a>>)
    requires
        expr.compilable(),
        expr.node is Tuple,
        snapshot(*old(scope), *old(program), *old(function), *old(block), *old(impls)).ready(),
        table_sound(old(impls)@, old(program)@),
    ensures
        compiled(
            snapshot(*old(scope), *old(program), *old(function), *old(block), *old(impls)),
            snapshot(*final(scope), *final(program), *final(function), *final(block), *final(impls)),
            outcome(result),
        ),
        agrees(
            elaborated(
                *expr,
                snapshot(*old(scope), *old(program), *old(function), *old(block), *old(impls)),
                depth as nat,
            ),
            snapshot(*final(scope), *final(program), *final(function), *final(block), *final(impls)),
            outcome(result),
        ),
        faithful(
            *expr,
            snapshot(*old(scope), *old(program), *old(function), *old(block), *old(impls)),
            snapshot(*final(scope), *final(program), *final(function), *final(block), *final(impls)),
            outcome(result),
        ),
        unbranching(
            *expr,
            snapshot(*old(scope), *old(program), *old(function), *old(block), *old(impls)),
            snapshot(*final(scope), *final(program), *final(function), *final(block), *final(impls)),
            outcome(result),
        ),
    decreases depth, expr, 1nat,
{
    let ghost before = snapshot(*scope, *program, *function, *block, *impls);
    match &expr.node {
        Expr::Tuple { exprs } => {
            let mut types: Vec<Type<'a, 'b>> = Vec::new();
            let mut i: usize = 0;
            proof {
                lemma_follows_self(before);
                assert(Type::models(types@) =~= Seq::<TypeView<'a>>::empty());
                lemma_sound_all_none(exprs@, before);
            }
            while i < exprs.len()
                invariant
                    i <= exprs.len(),
                    types@.len() == i,
                    expr.compilable(),
                    expr.node == (Expr::Tuple { exprs: *exprs }),
                    decreases_to!(expr => exprs),
                    before.ready(),
                    before == snapshot(
                        *old(scope),
                        *old(program),
                        *old(function),
                        *old(block),
                        *old(impls),
                    ),
                    elaborated_all(exprs@, before, depth as nat, i as nat) == (Steps {
                        result: Ok(Type::models(types@)),
                        state: snapshot(*scope, *program, *function, *block, *impls),
                    }),
                    table_sound(impls@, program@),
                    sound_all(
                        exprs@,
                        i as nat,
                        before,
                        snapshot(*scope, *program, *function, *block, *impls),
                        Type::models(types@),
                    ),
                    snapshot(*scope, *program, *function, *block, *impls).ready(),
                    snapshot(*scope, *program, *function, *block, *impls).follows(before),
                    supplies(before, snapshot(*scope, *program, *function, *block, *impls)),
                    expr.unbranched() && table_unbranched(before.table) ==> one_block_kept(
                        before,
                        snapshot(*scope, *program, *function, *block, *impls),
                    ),
                    forall|j: int|
                        0 <= j < i ==> (#[trigger] types@[j])@.within(
                            function@.variable_count as int,
                        ) && types@[j]@.known(registry(impls@)),
                decreases exprs.len() - i,
            {
                let ghost mid = snapshot(*scope, *program, *function, *block, *impls);
                assert(expr.spanned());
                assert(expr.node is Tuple);
                assert(expr.node->Tuple_exprs == *exprs);
                assert(forall|j: int|
                    0 <= j < exprs@.len() ==> (#[trigger] exprs@[j]).compilable());
                assert(exprs@[i as int].compilable());
                let ty = match compile(&exprs[i], scope, program, function, block, impls, depth) {
                    Ok(ty) => ty,
                    Err(error) => {
                        proof {
                            lemma_elaborated_all_stuck(
                                exprs@,
                                before,
                                depth as nat,
                                (i + 1) as nat,
                                exprs@.len(),
                            );
                        }
                        return Err(error);
                    },
                };
                assert(Type::models(types@.push(ty)) =~= Type::models(types@).push(ty@));
                proof {
                    let late = snapshot(*scope, *program, *function, *block, *impls);
                    lemma_follows_chain(before, mid, late);
                    if expr.unbranched() && table_unbranched(before.table) {
                        assert(exprs@[i as int].unbranched());
                        lemma_one_block_chain(before, mid, late);
                    }
                    assert forall|j: int| 0 <= j < Type::models(types@).len() implies (
                    #[trigger] Type::models(types@)[j]).within(
                        mid.function.variable_count as int,
                    ) by {
                        assert(Type::models(types@)[j] == types@[j]@);
                    }
                    lemma_sound_all_more(
                        exprs@,
                        i as nat,
                        before,
                        mid,
                        late,
                        Type::models(types@),
                        ty@,
                    );
                    assert forall|j: int| 0 <= j < i implies (#[trigger] types@[j])@.within(
                        late.function.variable_count as int,
                    ) && types@[j]@.known(registry(late.table)) by {
                        lemma_type_more(
                            types@[j]@,
                            mid.function.variable_count as int,
                            registry(mid.table),
                            late.function.variable_count as int,
                            registry(late.table),
                        );
                    }
                }
                types.push(ty);
                i += 1;
            }
            let tuple = Type::Tuple(types);
            proof {
                let views = Type::models(types@);
                assert forall|j: int| 0 <= j < views.len() implies (#[trigger] views[j]).within(
                    function@.variable_count as int,
                ) && views[j].known(registry(impls@)) by {
                    assert(views[j] == types@[j]@);
                }
                lemma_tuple_within(views, views.len() as int, function@.variable_count as int);
                assert(views.take(views.len() as int) =~= views);
                assert(tuple@ == TypeView::Tuple(views));
                let after = snapshot(*scope, *program, *function, *block, *impls);
                assert(after.ready());
                assert(after.follows(before));
                assert(tuple@.vars() == TypeView::vars_of(views));
                assert(tuple@.within(function@.variable_count as int));
                assert(tuple@.known(registry(impls@)));
                lemma_sound_tuple(*expr, before, after, views);
            }
            Ok(tuple)
        },
        _ => Err(CompileError::type_error(expr.get_source())),
    }
}

/// `first; second; ...; last`
pub(super) fn compile_sequence<'a, 'b>(
    expr: &'b Parsed<'a, Expr<'a>>,
    scope: &mut Scope<'a, 'b>,
    program: &mut Program,
    function: &mut Function,
    block: &mut Block,
    impls: &mut ImplTable<'a, 'b>,
    depth: usize,
) -> (result: Result<Type<'a, 'b>, CompileError<'a>>)
    requires
        expr.compilable(),
        expr.node is Block,
        snapshot(*old(scope), *old(program), *old(function), *old(block), *old(impls)).ready(),
        table_sound(old(impls)@, old(program)@),
    ensures
        compiled(
            snapshot(*old(scope), *old(program), *old(function), *old(block), *old(impls)),
            snapshot(*final(scope), *final(program), *final(function), *final(block), *final(impls)),
            outcome(result),
        ),
        agrees(
            elaborated(
                *expr,
                snapshot(*old(scope), *old(program), *old(function), *old(block), *old(impls)),
                depth as nat,
            ),
            snapshot(*final(scope), *final(program), *final(function), *final(block), *final(impls)),
            outcome(result),
        ),
        faithful(
            *expr,
            snapshot(*old(scope), *old(program), *old(function), *old(block), *old(impls)),
            snapshot(*final(scope), *final(program), *final(function), *final(block), *final(impls)),
            outcome(result),
        ),
        unbranching(
            *expr,
            snapshot(*old(scope), *old(program), *old(function), *old(block), *old(impls)),
            snapshot(*final(scope), *final(program), *final(function), *final(block), *final(impls)),
            outcome(result),
        ),
    decreases depth, expr, 1nat,
{
    let ghost before = snapshot(*scope, *program, *function, *block, *impls);
    match &expr.node {
        Expr::Block { exprs, last } => {
            let mut i: usize = 0;
            let ghost mut types: Seq<TypeView<'a>> = seq![];
            proof {
                lemma_follows_self(before);
                lemma_sound_all_none(exprs@, before);
            }
            while i < exprs.len()
                invariant
                    i <= exprs.len(),
                    expr.compilable(),
                    expr.node == (Expr::Block { exprs: *exprs, last: *last }),
                    decreases_to!(expr => exprs),
                    before.ready(),
                    before == snapshot(
                        *old(scope),
                        *old(program),
                        *old(function),
                        *old(block),
                        *old(impls),
                    ),
                    elaborated_all(exprs@, before, depth as nat, i as nat) == (Steps {
                        result: Ok(types),
                        state: snapshot(*scope, *program, *function, *block, *impls),
                    }),
                    table_sound(impls@, program@),
                    forall|j: int|
                        0 <= j < types.len() ==> (#[trigger] types[j]).within(
                            function@.variable_count as int,
                        ),
                    sound_all(
                        exprs@,
                        i as nat,
                        before,
                        snapshot(*scope, *program, *function, *block, *impls),
                        types,
                    ),
                    snapshot(*scope, *program, *function, *block, *impls).ready(),
                    snapshot(*scope, *program, *function, *block, *impls).follows(before),
                    supplies(before, snapshot(*scope, *program, *function, *block, *impls)),
                    expr.unbranched() && table_unbranched(before.table) ==> one_block_kept(
                        before,
                        snapshot(*scope, *program, *function, *block, *impls),
                    ),
                decreases exprs.len() - i,
            {
                let ghost mid = snapshot(*scope, *program, *function, *block, *impls);
                assert(expr.node is Block);
                assert(expr.node->Block_exprs == *exprs);
                assert(forall|j: int|
                    0 <= j < exprs@.len() ==> (#[trigger] exprs@[j]).compilable());
                assert(exprs@[i as int].compilable());
                match compile(&exprs[i], scope, program, function, block, impls, depth) {
                    Ok(ty) => {
                        proof {
                            let late = snapshot(*scope, *program, *function, *block, *impls);
                            lemma_follows_chain(before, mid, late);
                            lemma_sound_all_more(exprs@, i as nat, before, mid, late, types, ty@);
                            assert forall|j: int| 0 <= j < types.len() implies (
                            #[trigger] types[j]).within(late.function.variable_count as int) by {
                                assert(types[j].within(mid.function.variable_count as int));
                                assert forall|k: int| 0 <= k < types[j].vars().len() implies (
                                #[trigger] types[j].vars()[k]).id
                                    < late.function.variable_count by {
                                    assert(types[j].vars()[k].id < mid.function.variable_count);
                                }
                            }
                            types = types.push(ty@);
                        }
                    },
                    Err(error) => {
                        proof {
                            lemma_elaborated_all_stuck(
                                exprs@,
                                before,
                                depth as nat,
                                (i + 1) as nat,
                                exprs@.len(),
                            );
                        }
                        return Err(error);
                    },
                }
                proof {
                    let late = snapshot(*scope, *program, *function, *block, *impls);
                    lemma_follows_chain(before, mid, late);
                    if expr.unbranched() && table_unbranched(before.table) {
                        assert(exprs@[i as int].unbranched());
                        lemma_one_block_chain(before, mid, late);
                    }
                }
                i += 1;
            }
            let ghost mid = snapshot(*scope, *program, *function, *block, *impls);
            let ty = match compile(last, scope, program, function, block, impls, depth) {
                Ok(ty) => ty,
                Err(error) => {
                    return Err(error);
                },
            };
            proof {
                let late = snapshot(*scope, *program, *function, *block, *impls);
                lemma_follows_chain(before, mid, late);
                if expr.unbranched() && table_unbranched(before.table) {
                    assert(last.unbranched());
                    lemma_one_block_chain(before, mid, late);
                }
                lemma_sound_sequence(*expr, before, mid, late, types, ty@);
            }
            Ok(ty)
        },
        _ => Err(CompileError::type_error(expr.get_source())),
    }
}

} // verus!

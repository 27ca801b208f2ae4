//! Expressions that branch: `if` and `else`.

use crate::agreement::{faithful, table_sound};
use crate::ast::{BinaryOp, Expr, Parsed};
use crate::compiler::{compile, CompileError, outcome, snapshot};
use crate::cursor::{building, forked, lemma_commit, lemma_diamond, lemma_new_block};
use crate::defined::{lemma_sources_prefix, lemma_supplies_diamond, sources_kept, unbranching};
use crate::elaboration::{agrees, elaborated, fork_exit, joined};
use crate::impls::{ImplTable, registry};
use crate::ir::{Block, BlockId, BlockView, ExitInstruction, Function, Program, Var, var_range};
use crate::scope::Scope;
use crate::soundness::{lemma_sound_else, lemma_sound_if};
use crate::state::{compiled, emitted_all, lemma_follows_chain, lemma_state_phis, lemma_table_chain};
use crate::types::{
    lemma_known_more,
    lemma_map_at,
    lemma_map_at_known,
    lemma_same_shape_size,
    lemma_vars_len,
    phis,
    Type,
};
use vstd::prelude::*;

verus! {

/// Opens the two blocks of a conditional, closes the cursor with a branch
/// on `cond` and moves the cursor to the block of the body. Returns the
/// block for what follows the conditional.
pub(super) fn split(
    cond: Var,
    inverted: bool,
    function: &mut Function,
    block: &mut Block,
    program: &Program,
) -> (exit_block: Block)
    requires
        building(old(function)@, old(block)@, program@),
        cond.id < old(function)@.variable_count,
    ensures
        old(function)@.blocks.len() + 2 <= usize::MAX,
        final(block)@ == BlockView::fresh(old(function)@.blocks.len() as usize),
        exit_block@ == BlockView::fresh((old(function)@.blocks.len() + 1) as usize),
        final(function)@ == forked(
            old(function)@,
            old(block)@,
            fork_exit(cond, inverted, old(function)@.blocks.len() as int),
        ),
        building(final(function)@, final(block)@, program@),
{
    let ghost f1 = function@;
    let ghost b1 = block@;
    let ghost n = f1.blocks.len() as int;
    let mut cond_block = function.new_block();
    let filled: usize = function.block_count();
    let ghost f2 = function@;
    let exit_block = function.new_block();
    let full: usize = function.block_count();
    let ghost f3 = function@;
    proof {
        lemma_new_block(f1, b1, program@);
        lemma_new_block(f2, b1, program@);
    }
    let cond_id = cond_block.get_id();
    let exit_id = exit_block.get_id();
    std::mem::swap(block, &mut cond_block);
    let exit = if inverted {
        ExitInstruction::ConditionalBranch { cond, block1: exit_id, block2: cond_id }
    } else {
        ExitInstruction::ConditionalBranch { cond, block1: cond_id, block2: exit_id }
    };
    proof {
        assert(exit == fork_exit(cond, inverted, n));
        lemma_commit(f3, b1, program@, exit, n);
    }
    match exit {
        ExitInstruction::ConditionalBranch { cond, block1, block2 } => {
            cond_block.conditional_branch(cond, block1, block2, function);
        },
        _ => {},
    }
    exit_block
}

/// Closes the cursor with a jump to `exit_block` and makes that block the
/// cursor.
pub(super) fn join(exit_block: Block, function: &mut Function, block: &mut Block, program: &Program)
    requires
        building(old(function)@, old(block)@, program@),
        exit_block@ == BlockView::fresh(exit_block@.id),
        exit_block@.id < old(function)@.blocks.len(),
        exit_block@.id != old(block)@.id,
        !old(function)@.blocks[exit_block@.id as int].committed,
    ensures
        final(block)@ == exit_block@,
        final(function)@ == old(function)@.overlay(
            old(block)@.closed_by(
                ExitInstruction::Branch { block: BlockId { id: exit_block@.id } },
            ),
        ),
        building(final(function)@, final(block)@, program@),
        sources_kept(
            old(function)@.overlay(old(block)@),
            final(function)@.overlay(final(block)@),
        ),
{
    let exit_id = exit_block.get_id();
    let mut done = exit_block;
    proof {
        let held = function@.overlay(block@);
        let left = function@.overlay(
            block@.closed_by(ExitInstruction::Branch { block: exit_id }),
        ).overlay(exit_block@);
        assert forall|b: int| 0 <= b < held.blocks.len() implies (
        #[trigger] held.blocks[b]).insts.is_prefix_of(left.blocks[b].insts) by {
            if b == exit_block@.id {
                assert(function@.blocks[b] == BlockView::fresh(b as usize));
            }
        }
        lemma_sources_prefix(held, left);
        lemma_commit(
            function@,
            block@,
            program@,
            ExitInstruction::Branch { block: exit_id },
            exit_id.id as int,
        );
    }
    std::mem::swap(block, &mut done);
    done.branch(exit_id, function);
}

/// `if cond { conc }`
pub(super) fn compile_if<'a, 'b>(
    expr: &'b Parsed<'a, Expr<'a>>,
    scope: &mut Scope<'a, 'b>,
    program: &mut Program,
    function: &mut Function,
    block: &mut Block,
    impls: &mut ImplTable<'a, 'b>,
    depth: usize,
) -> (result: Result<Type<'a, 'b>, CompileError<'a>>)
    requires
        expr.compilable(),
        expr.node is If,
        snapshot(*old(scope), *old(program), *old(function), *old(block), *old(impls)).ready(),
        table_sound(old(impls)@, old(program)@),
    ensures
        compiled(
            snapshot(*old(scope), *old(program), *old(function), *old(block), *old(impls)),
            snapshot(*final(scope), *final(program), *final(function), *final(block), *final(impls)),
            outcome(result),
        ),
        agrees(
            elaborated(
                *expr,
                snapshot(*old(scope), *old(program), *old(function), *old(block), *old(impls)),
                depth as nat,
            ),
            snapshot(*final(scope), *final(program), *final(function), *final(block), *final(impls)),
            outcome(result),
        ),
        faithful(
            *expr,
            snapshot(*old(scope), *old(program), *old(function), *old(block), *old(impls)),
            snapshot(*final(scope), *final(program), *final(function), *final(block), *final(impls)),
            outcome(result),
        ),
        unbranching(
            *expr,
            snapshot(*old(scope), *old(program), *old(function), *old(block), *old(impls)),
            snapshot(*final(scope), *final(program), *final(function), *final(block), *final(impls)),
            outcome(result),
        ),
    decreases depth, expr, 1nat,
{
    let ghost before = snapshot(*scope, *program, *function, *block, *impls);
    match &expr.node {
        Expr::If { cond, conc } => {
            let cond_ty = match compile(cond, scope, program, function, block, impls, depth) {
                Ok(ty) => ty,
                Err(error) => {
                    return Err(error);
                },
            };
            let ghost mid = snapshot(*scope, *program, *function, *block, *impls);
            match cond_ty {
                Type::Bool(tag) => {
                    assert(cond_ty@.vars()[0] == tag);
                    let exit_block = split(tag, false, function, block, program);
                    let ghost forkd = snapshot(*scope, *program, *function, *block, *impls);
                    let conc_ty = match compile(
                        conc,
                        scope,
                        program,
                        function,
                        block,
                        impls,
                        depth,
                    ) {
                        Ok(ty) => ty,
                        Err(error) => {
                            return Err(error);
                        },
                    };
                    let ghost body = snapshot(*scope, *program, *function, *block, *impls);
                    proof {
                        lemma_diamond(
                            mid.function,
                            mid.block,
                            fork_exit(tag, false, mid.function.blocks.len() as int),
                            body.function,
                            body.block,
                        );
                    }
                    join(exit_block, function, block, program);
                    let ghost after = snapshot(*scope, *program, *function, *block, *impls);
                    proof {
                        lemma_table_chain(mid.table, forkd.table, body.table);
                        assert(after.follows(mid));
                        lemma_supplies_diamond(mid, forkd, body, after);
                        lemma_follows_chain(before, mid, after);
                        lemma_sound_if(*expr, before, mid, body, tag, conc_ty@);
                    }
                    let maybe = Type::Maybe(tag, Box::new(conc_ty));
                    proof {
                        assert(maybe@.vars() =~= seq![tag] + conc_ty@.vars());
                        assert forall|k: int| 0 <= k < maybe@.vars().len() implies (
                        #[trigger] maybe@.vars()[k]).id < after.function.variable_count by {
                            if k > 0 {
                                assert(maybe@.vars()[k] == conc_ty@.vars()[k - 1]);
                            }
                        }
                    }
                    Ok(maybe)
                },
                _ => Err(CompileError::type_error(expr.get_source())),
            }
        },
        _ => Err(CompileError::type_error(expr.get_source())),
    }
}

/// `maybe else { alternative }`
pub(super) fn compile_else<'a, 'b>(
    expr: &'b Parsed<'a, Expr<'a>>,
    scope: &mut Scope<'a, 'b>,
    program: &mut Program,
    function: &mut Function,
    block: &mut Block,
    impls: &mut ImplTable<'a, 'b>,
    depth: usize,
) -> (result: Result<Type<'a, 'b>, CompileError<'a>>)
    requires
        expr.compilable(),
        expr.node is Binary,
        expr.node->op == BinaryOp::Else,
        snapshot(*old(scope), *old(program), *old(function), *old(block), *old(impls)).ready(),
        table_sound(old(impls)@, old(program)@),
    ensures
        compiled(
            snapshot(*old(scope), *old(program), *old(function), *old(block), *old(impls)),
            snapshot(*final(scope), *final(program), *final(function), *final(block), *final(impls)),
            outcome(result),
        ),
        agrees(
            elaborated(
                *expr,
                snapshot(*old(scope), *old(program), *old(function), *old(block), *old(impls)),
                depth as nat,
            ),
            snapshot(*final(scope), *final(program), *final(function), *final(block), *final(impls)),
            outcome(result),
        ),
        faithful(
            *expr,
            snapshot(*old(scope), *old(program), *old(function), *old(block), *old(impls)),
            snapshot(*final(scope), *final(program), *final(function), *final(block), *final(impls)),
            outcome(result),
        ),
        unbranching(
            *expr,
            snapshot(*old(scope), *old(program), *old(function), *old(block), *old(impls)),
            snapshot(*final(scope), *final(program), *final(function), *final(block), *final(impls)),
            outcome(result),
        ),
    decreases depth, expr, 1nat,
{
    let ghost before = snapshot(*scope, *program, *function, *block, *impls);
    match &expr.node {
        Expr::Binary { left, right, .. } => {
            let left_ty = match compile(left, scope, program, function, block, impls, depth) {
                Ok(ty) => ty,
                Err(error) => {
                    return Err(error);
                },
            };
            let ghost mid = snapshot(*scope, *program, *function, *block, *impls);
            match left_ty {
                Type::Maybe(tag, inner) => {
                    assert(left_ty@.vars() =~= seq![tag] + inner@.vars());
                    assert(left_ty@.vars()[0] == tag);
                    let exit_block = split(tag, true, function, block, program);
                    let ghost forkd = snapshot(*scope, *program, *function, *block, *impls);
                    let alt = match compile(right, scope, program, function, block, impls, depth) {
                        Ok(ty) => ty,
                        Err(error) => {
                            return Err(error);
                        },
                    };
                    let ghost body = snapshot(*scope, *program, *function, *block, *impls);
                    proof {
                        lemma_diamond(
                            mid.function,
                            mid.block,
                            fork_exit(tag, true, mid.function.blocks.len() as int),
                            body.function,
                            body.block,
                        );
                    }
                    join(exit_block, function, block, program);
                    let ghost joined = snapshot(*scope, *program, *function, *block, *impls);
                    proof {
                        lemma_table_chain(mid.table, forkd.table, body.table);
                        assert(joined.follows(mid));
                        lemma_supplies_diamond(mid, forkd, body, joined);
                        lemma_follows_chain(before, mid, joined);
                    }
                    if !inner.equals(&alt) {
                        return Err(CompileError::type_error(expr.get_source()));
                    }
                    let size = inner.size();
                    if !function.has_room(size) {
                        return Err(CompileError::limit_exceeded(expr.get_source()));
                    }
                    proof {
                        lemma_vars_len(inner@);
                        lemma_vars_len(alt@);
                        lemma_same_shape_size(inner@, alt@);
                        assert forall|k: int| 0 <= k < inner@.vars().len() implies (
                        #[trigger] inner@.vars()[k]).id < joined.function.variable_count by {
                            assert(left_ty@.vars()[k + 1] == inner@.vars()[k]);
                        }
                        lemma_state_phis(
                            joined,
                            tag,
                            inner@.vars(),
                            alt@.vars(),
                            size as int,
                        );
                    }
                    proof {
                        lemma_known_more(left_ty@, registry(mid.table), registry(body.table));
                        lemma_sound_else(*expr, before, mid, body, tag, inner@, alt@);
                    }
                    let merged = inner.merge(&alt, tag, function, block);
                    proof {
                        let all = phis(
                            tag,
                            inner@.vars(),
                            alt@.vars(),
                            joined.function.variable_count as int,
                        );
                        let after = snapshot(*scope, *program, *function, *block, *impls);
                        assert(all.take(size as int) =~= all);
                        assert(after == emitted_all(joined, all, size as int));
                        lemma_follows_chain(before, joined, after);
                        let fresh = var_range(
                            joined.function.variable_count as int,
                            size as nat,
                        );
                        lemma_map_at(inner@, fresh, 0);
                        lemma_known_more(
                            left_ty@,
                            registry(mid.table),
                            registry(after.table),
                        );
                        assert(inner@.known(registry(after.table)));
                        lemma_map_at_known(inner@, fresh, 0, registry(after.table));
                    }
                    Ok(merged)
                },
                _ => Err(CompileError::type_error(expr.get_source())),
            }
        },
        _ => Err(CompileError::type_error(expr.get_source())),
    }
}

} // verus!

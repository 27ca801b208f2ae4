//! Calls: of an implementation that is there, or of one that is compiled
//! for the occasion.

use crate::agreement::{
    call_faithful,
    call_made,
    faithful,
    impl_sound,
    lemma_table_sound_extended,
    lemma_table_sound_impl,
    table_sound,
};
use crate::ast::{BinaryOp, Expr, Parsed};
use crate::compiler::{compile, CompileError, match_pattern, outcome, snapshot};
use crate::cursor::{
    lemma_advanced_none,
    lemma_building_grows,
    lemma_close,
    lemma_finished,
    lemma_finished_acyclic,
    lemma_new_function,
    lemma_program_with,
    lemma_set_returns,
};
use crate::defined::{
    all_defined,
    lemma_finished_defined,
    lemma_one_block_chain,
    one_block_kept,
    supplies,
    table_unbranched,
    unbranching,
};
use crate::elaboration::{
    agrees,
    begun,
    called,
    elaborated,
    finished,
    found,
    instantiated,
    lemma_found,
};
use crate::execute::lemma_well_formed_runnable;
use crate::impls::{implements, ImplTable, lemma_registry_extends, registry, with_impl};
use crate::ir::{
    Block,
    BlockView,
    ExitInstruction,
    Function,
    FunctionView,
    InstructionView,
    Program,
    var_range,
};
use crate::scope::{Binding, Scope};
use crate::soundness::{lemma_impl_from_body, lemma_sound_call};
use crate::state::{
    compiled,
    lemma_bound_ok,
    lemma_follows_chain,
    lemma_scope_more,
    lemma_state_emit,
    lemma_table_chain,
    lemma_table_program,
    lemma_table_push,
    State,
};
use crate::types::{
    Implementation,
    ImplementationView,
    ImplsId,
    lemma_known_more,
    lemma_map_at,
    lemma_map_at_known,
    lemma_same_shape_size,
    lemma_vars_len,
    Type,
};
use vstd::prelude::*;

verus! {

/// Calls the implementation number `index` of the list `cell` with the
/// value of type `argument_ty`.
pub(super) fn call_known<'a, 'b>(
    expr: &'b Parsed<'a, Expr<'a>>,
    cell: ImplsId,
    index: usize,
    argument_ty: &Type<'a, 'b>,
    scope: &Scope<'a, 'b>,
    program: &Program,
    function: &mut Function,
    block: &mut Block,
    impls: &ImplTable<'a, 'b>,
) -> (result: Result<Type<'a, 'b>, CompileError<'a>>)
    requires
        expr.spanned(),
        snapshot(*scope, *program, *old(function), *old(block), *impls).ready(),
        cell.id < impls@.len(),
        index < impls@[cell.id as int].impls.len(),
        impls@[cell.id as int].impls[index as int].param_ty.same_shape(argument_ty@),
        argument_ty@.within(old(function)@.variable_count as int),
        table_sound(impls@, program@),
    ensures
        compiled(
            snapshot(*scope, *program, *old(function), *old(block), *impls),
            snapshot(*scope, *program, *final(function), *final(block), *impls),
            outcome(result),
        ),
        call_faithful(
            impls@[cell.id as int].pattern,
            impls@[cell.id as int].body,
            argument_ty@,
            snapshot(*scope, *program, *old(function), *old(block), *impls),
            snapshot(*scope, *program, *final(function), *final(block), *impls),
            outcome(result),
        ),
        agrees(
            called(
                *expr,
                snapshot(*scope, *program, *old(function), *old(block), *impls),
                impls@[cell.id as int].impls[index as int].entry,
                argument_ty@,
                impls@[cell.id as int].impls[index as int].return_ty,
            ),
            snapshot(*scope, *program, *final(function), *final(block), *impls),
            outcome(result),
        ),
        table_unbranched(impls@) && result is Ok ==> one_block_kept(
            snapshot(*scope, *program, *old(function), *old(block), *impls),
            snapshot(*scope, *program, *final(function), *final(block), *impls),
        ),
{
    let ghost before = snapshot(*scope, *program, *function, *block, *impls);
    let imp = impls.get(cell, index);
    let entry = imp.entry;
    proof {
        assert(implements(impls@[cell.id as int].impls[index as int], program@));
        lemma_same_shape_size(imp@.param_ty, argument_ty@);
        lemma_vars_len(argument_ty@);
    }
    let count = program.get_function(entry).get_returns().len();
    if !function.has_room(count) {
        return Err(CompileError::limit_exceeded(expr.get_source()));
    }
    let args = argument_ty.vars();
    let dests = block.call(entry, args, program, function);
    let result = imp.return_ty.map_to(&dests);
    proof {
        let inst = InstructionView::Call { function: entry, args: args@, returns: dests@ };
        lemma_state_emit(before, inst, count as nat);
        lemma_map_at(imp@.return_ty, dests@, 0);
        lemma_map_at_known(imp@.return_ty, dests@, 0, registry(before.table));
        let after = snapshot(*scope, *program, *function, *block, *impls);
        assert(impl_sound(
            impls@[cell.id as int].pattern,
            impls@[cell.id as int].body,
            impls@[cell.id as int].impls[index as int],
            program@,
        ));
        assert(call_made(
            impls@[cell.id as int].pattern,
            impls@[cell.id as int].body,
            argument_ty@,
            before,
            after,
            result@,
            imp@,
        ));
    }
    Ok(result)
}

/// Compiles the function with parameter `pattern` and body `body` for
/// arguments of the shape of `argument_ty`, appends it to the program, calls
/// it, and enters it in the list `cell`.
pub(super) fn instantiate<'a, 'b>(
    expr: &'b Parsed<'a, Expr<'a>>,
    pattern: &'b Parsed<'a, Expr<'a>>,
    body: &'b Parsed<'a, Expr<'a>>,
    cell: ImplsId,
    argument_ty: Type<'a, 'b>,
    scope: &Scope<'a, 'b>,
    program: &mut Program,
    function: &mut Function,
    block: &mut Block,
    impls: &mut ImplTable<'a, 'b>,
    depth: usize,
) -> (result: Result<Type<'a, 'b>, CompileError<'a>>)
    requires
        expr.spanned(),
        pattern.compilable(),
        body.compilable(),
        snapshot(*scope, *old(program), *old(function), *old(block), *old(impls)).ready(),
        cell.id < old(impls)@.len(),
        argument_ty@.within(old(function)@.variable_count as int),
        argument_ty@.known(registry(old(impls)@)),
        table_sound(old(impls)@, old(program)@),
        old(impls)@[cell.id as int].pattern == *pattern,
        old(impls)@[cell.id as int].body == *body,
    ensures
        compiled(
            snapshot(*scope, *old(program), *old(function), *old(block), *old(impls)),
            snapshot(*scope, *final(program), *final(function), *final(block), *final(impls)),
            outcome(result),
        ),
        call_faithful(
            *pattern,
            *body,
            argument_ty@,
            snapshot(*scope, *old(program), *old(function), *old(block), *old(impls)),
            snapshot(*scope, *final(program), *final(function), *final(block), *final(impls)),
            outcome(result),
        ),
        agrees(
            instantiated(
                *expr,
                *pattern,
                *body,
                cell,
                argument_ty@,
                snapshot(*scope, *old(program), *old(function), *old(block), *old(impls)),
                depth as nat,
            ),
            snapshot(*scope, *final(program), *final(function), *final(block), *final(impls)),
            outcome(result),
        ),
        table_unbranched(old(impls)@) && result is Ok ==> one_block_kept(
            snapshot(*scope, *old(program), *old(function), *old(block), *old(impls)),
            snapshot(*scope, *final(program), *final(function), *final(block), *final(impls)),
        ),
    decreases depth, expr, 0nat,
{
    let ghost before = snapshot(*scope, *program, *function, *block, *impls);
    if depth == 0 {
        return Err(CompileError::limit_exceeded(expr.get_source()));
    }
    let mut new_function = Function::new();
    let mut new_block = new_function.new_block();
    let size = argument_ty.size();
    let param_ty = argument_ty.as_parameter(&mut new_function);
    let mut function_scope = Scope::new();
    let ghost params = var_range(0, size as nat);
    proof {
        lemma_new_function(size as nat, before.program);
        assert(new_function@.params =~= params);
        assert(new_function@.blocks =~= seq![BlockView::fresh(0)]);
        lemma_map_at(argument_ty@, params, 0);
        lemma_map_at_known(argument_ty@, params, 0, registry(before.table));
        lemma_vars_len(argument_ty@);
        assert(param_ty@.within(size as int));
        lemma_bound_ok(
            *pattern,
            param_ty@,
            Seq::<Binding<'a>>::empty(),
            size as int,
            registry(before.table),
        );
    }
    match match_pattern(pattern, param_ty.clone(), &mut function_scope) {
        Ok(()) => {},
        Err(error) => {
            return Err(error);
        },
    }
    let ghost sub = snapshot(function_scope, *program, new_function, new_block, *impls);
    let return_ty = match compile(
        body,
        &mut function_scope,
        program,
        &mut new_function,
        &mut new_block,
        impls,
        depth - 1,
    ) {
        Ok(ty) => ty,
        Err(error) => {
            return Err(error);
        },
    };
    let ghost done = snapshot(function_scope, *program, new_function, new_block, *impls);
    return_ty.ret(&mut new_function);
    proof {
        assert(new_function@.returns =~= return_ty@.vars());
        lemma_set_returns(done.function, done.block, done.program, return_ty@.vars());
        lemma_close(new_function@, done.block, done.program, ExitInstruction::Return);
        lemma_finished(sub.function, done.function, done.block, ExitInstruction::Return);
    }
    new_block.ret(&mut new_function);
    let ghost finished = new_function@;
    proof {
        assert(finished.blocks == done.function.overlay(
            done.block.closed_by(ExitInstruction::Return),
        ).blocks);
        assert(finished.closed());
        lemma_finished_acyclic(
            FunctionView { returns: finished.returns, ..done.function },
            done.block,
            done.program,
        );
        lemma_program_with(done.program, finished);
    }
    let limit: usize = program.len();
    proof {
        assert(sub.function == begun(size as nat));
        assert(param_ty@.vars() =~= var_range(0, size as nat));
        lemma_impl_from_body(*pattern, *body, sub, done, param_ty@, return_ty@);
        lemma_well_formed_runnable(done.program);
        lemma_table_sound_extended(done.table, done.program, done.program.with(finished));
    }
    let entry = program.add_function(new_function);
    let ghost caller = State {
        scope: before.scope,
        program: program@,
        function: before.function,
        block: before.block,
        table: done.table,
    };
    proof {
        assert(program@.functions[entry.id as int] == finished);
        lemma_building_grows(before.function, before.block, before.program, program@);
        lemma_table_program(done.table, done.program, program@);
        lemma_scope_more(
            before.scope,
            before.function.variable_count as int,
            registry(before.table),
            before.function.variable_count as int,
            registry(done.table),
        );
        lemma_advanced_none(before.function, before.block);
        assert(caller.ready());
        assert(caller.follows(before));
        lemma_finished_defined(sub, done, finished);
        assert forall|f: int|
            before.program.functions.len() <= f < caller.program.functions.len() implies all_defined(
            #[trigger] caller.program.functions[f],
        ) by {
            if f < done.program.functions.len() {
                assert(caller.program.functions[f] == done.program.functions[f]);
            }
        }
        assert(supplies(before, caller));
        if table_unbranched(before.table) {
            assert(before.table[cell.id as int].body.unbranched());
            assert(one_block_kept(sub, done));
            assert forall|f: int|
                before.program.functions.len() <= f < caller.program.functions.len() implies (
            #[trigger] caller.program.functions[f]).blocks.len() == 1 by {
                if f < done.program.functions.len() {
                    assert(caller.program.functions[f] == done.program.functions[f]);
                }
            }
            assert(one_block_kept(before, caller));
        }
        lemma_vars_len(return_ty@);
    }
    let count = return_ty.size();
    if !function.has_room(count) {
        return Err(CompileError::limit_exceeded(expr.get_source()));
    }
    let args = argument_ty.vars();
    let dests = block.call(entry, args, program, function);
    let result = return_ty.map_to(&dests);
    let ghost inst = InstructionView::Call { function: entry, args: args@, returns: dests@ };
    let ghost called = caller.emitted(inst, count as nat);
    proof {
        lemma_state_emit(caller, inst, count as nat);
        lemma_follows_chain(before, caller, called);
        lemma_map_at(return_ty@, dests@, 0);
        lemma_map_at_known(return_ty@, dests@, 0, registry(done.table));
        lemma_known_more(param_ty@, registry(before.table), registry(done.table));
    }
    let ghost made = ImplementationView { param_ty: param_ty@, return_ty: return_ty@, entry };
    proof {
        lemma_registry_extends(done.table, before.table);
        assert(done.table[cell.id as int].pattern == *pattern);
    }
    if impls.find(cell, &param_ty).is_none() {
        let imp = Implementation { param_ty, return_ty, entry };
        proof {
            if table_unbranched(done.table) {
                let longer = with_impl(done.table, cell.id as int, imp@);
                assert forall|c: int| 0 <= c < longer.len() implies (
                #[trigger] longer[c]).body.unbranched() by {
                    assert(done.table[c].body.unbranched());
                }
            }
            lemma_table_push(done.table, program@, cell.id as int, imp@);
            lemma_table_chain(before.table, done.table, with_impl(done.table, cell.id as int, imp@));
            lemma_table_sound_impl(done.table, program@, cell.id as int, imp@);
        }
        impls.push(cell, imp);
    }
    proof {
        let after = snapshot(*scope, *program, *function, *block, *impls);
        assert(registry(after.table) == registry(done.table));
        assert(call_made(*pattern, *body, argument_ty@, before, after, result@, made));
    }
    Ok(result)
}

/// `callee(argument)`
pub(super) fn compile_call<'a, 'b>(
    expr: &'b Parsed<'a, Expr<'a>>,
    scope: &mut Scope<'a, 'b>,
    program: &mut Program,
    function: &mut Function,
    block: &mut Block,
    impls: &mut ImplTable<'a, 'b>,
    depth: usize,
) -> (result: Result<Type<'a, 'b>, CompileError<'a>>)
    requires
        expr.compilable(),
        expr.node is Binary,
        expr.node->op == BinaryOp::Bracket,
        snapshot(*old(scope), *old(program), *old(function), *old(block), *old(impls)).ready(),
        table_sound(old(impls)@, old(program)@),
    ensures
        compiled(
            snapshot(*old(scope), *old(program), *old(function), *old(block), *old(impls)),
            snapshot(*final(scope), *final(program), *final(function), *final(block), *final(impls)),
            outcome(result),
        ),
        agrees(
            elaborated(
                *expr,
                snapshot(*old(scope), *old(program), *old(function), *old(block), *old(impls)),
                depth as nat,
            ),
            snapshot(*final(scope), *final(program), *final(function), *final(block), *final(impls)),
            outcome(result),
        ),
        faithful(
            *expr,
            snapshot(*old(scope), *old(program), *old(function), *old(block), *old(impls)),
            snapshot(*final(scope), *final(program), *final(function), *final(block), *final(impls)),
            outcome(result),
        ),
        unbranching(
            *expr,
            snapshot(*old(scope), *old(program), *old(function), *old(block), *old(impls)),
            snapshot(*final(scope), *final(program), *final(function), *final(block), *final(impls)),
            outcome(result),
        ),
    decreases depth, expr, 1nat,
{
    let ghost before = snapshot(*scope, *program, *function, *block, *impls);
    match &expr.node {
        Expr::Binary { left, right, .. } => {
            let callee = match compile(left, scope, program, function, block, impls, depth) {
                Ok(ty) => ty,
                Err(error) => {
                    return Err(error);
                },
            };
            let ghost mid = snapshot(*scope, *program, *function, *block, *impls);
            match callee {
                Type::Func { pattern, expr: body, impls: cell } => {
                    let argument_ty = match compile(
                        right,
                        scope,
                        program,
                        function,
                        block,
                        impls,
                        depth,
                    ) {
                        Ok(ty) => ty,
                        Err(error) => {
                            return Err(error);
                        },
                    };
                    let ghost late = snapshot(*scope, *program, *function, *block, *impls);
                    proof {
                        lemma_follows_chain(before, mid, late);
                        lemma_known_more(callee@, registry(mid.table), registry(late.table));
                    }
                    let found = impls.find(cell, &argument_ty);
                    proof {
                        lemma_found(impls@[cell.id as int].impls, argument_ty@);
                    }
                    let result = match found {
                        Some(index) => call_known(
                            expr,
                            cell,
                            index,
                            &argument_ty,
                            scope,
                            program,
                            function,
                            block,
                            impls,
                        ),
                        None => instantiate(
                            expr,
                            pattern,
                            body,
                            cell,
                            argument_ty,
                            scope,
                            program,
                            function,
                            block,
                            impls,
                            depth,
                        ),
                    };
                    proof {
                        let after = snapshot(*scope, *program, *function, *block, *impls);
                        if result is Ok {
                            lemma_follows_chain(before, late, after);
                            if expr.unbranched() && table_unbranched(before.table) {
                                lemma_one_block_chain(before, mid, late);
                                lemma_one_block_chain(before, late, after);
                            }
                            let imp = choose|imp: ImplementationView<'a>|
                                call_made(*pattern, *body, argument_ty@, late, after, result->Ok_0@, imp);
                            lemma_registry_extends(after.table, late.table);
                            lemma_known_more(argument_ty@, registry(late.table), registry(after.table));
                            lemma_sound_call(
                                *expr,
                                before,
                                mid,
                                late,
                                State { program: after.program, table: after.table, ..late },
                                after,
                                *pattern,
                                *body,
                                cell,
                                argument_ty@,
                                imp,
                            );
                        }
                    }
                    result
                },
                _ => Err(CompileError::type_error(expr.get_source())),
            }
        },
        _ => Err(CompileError::type_error(expr.get_source())),
    }
}

} // verus!

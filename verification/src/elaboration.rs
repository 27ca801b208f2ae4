//! What compiling means: for every expression, which type it has, and which
//! state the compiler is in afterwards. The compiler is proved to do exactly
//! this.

use crate::ast::{BinaryOp, Expr, Parsed};
use crate::compiler::{CompileErrorType, Failure};
use crate::cursor::forked;
use crate::impls::{absent, TableView, with_cell, with_impl};
use crate::ir::{
    BlockId,
    BlockView,
    ExitInstruction,
    FunctionId,
    FunctionView,
    InstructionView,
    ProgramView,
    Var,
    var_range,
};
use crate::literal::literal_value;
use crate::scope::{assigned, Binding, lookup};
use crate::state::{emitted_all, State};
use crate::types::{ImplementationView, ImplsId, phis, TypeView};
use vstd::prelude::*;

verus! {

/// What compiling an expression comes to: its type or the first error, and
/// the state afterwards. After an error that is the state in which the
/// error was found: what was compiled until then stays.
pub struct Step<'a> {
    pub result: Result<TypeView<'a>, Failure>,
    pub state: State<'a>,
}

/// What compiling a list of expressions comes to: their types or the first
/// error, and the state afterwards, after an error the one in which it was
/// found.
pub struct Steps<'a> {
    pub result: Result<Seq<TypeView<'a>>, Failure>,
    pub state: State<'a>,
}

/// The expression has the type `ty` and leaves the state `state`.
pub open spec fn done<'a>(ty: TypeView<'a>, state: State<'a>) -> Step<'a> {
    Step { result: Ok(ty), state }
}

/// The expression `expr` is refused for the reason `ty`.
pub open spec fn refused<'a>(
    expr: Parsed<'a, Expr<'a>>,
    ty: CompileErrorType,
    state: State<'a>,
) -> Step<'a> {
    Step { result: Err(Failure { text: expr.text(), ty }), state }
}

/// Whether the function that is being built has room for `n` more
/// variables.
pub open spec fn room<'a>(state: State<'a>, n: nat) -> bool {
    state.function.variable_count + n <= usize::MAX
}

/// The next `n` variables of the function that is being built.
pub open spec fn fresh<'a>(state: State<'a>, n: nat) -> Seq<Var> {
    var_range(state.function.variable_count as int, n)
}

/// The state after the cursor was closed with a branch on `cond` to two
/// new blocks, with the first of them as the new cursor.
pub open spec fn split<'a>(state: State<'a>, cond: Var, inverted: bool) -> State<'a> {
    State {
        function: forked(
            state.function,
            state.block,
            fork_exit(cond, inverted, state.function.blocks.len() as int),
        ),
        block: BlockView::fresh(state.function.blocks.len() as usize),
        ..state
    }
}

/// The state after the cursor was closed with a jump to block `exit`, with
/// that block as the new cursor.
pub open spec fn joined<'a>(state: State<'a>, exit: int) -> State<'a> {
    State {
        function: state.function.overlay(
            state.block.closed_by(ExitInstruction::Branch { block: BlockId { id: exit as usize } }),
        ),
        block: BlockView::fresh(exit as usize),
        ..state
    }
}

/// The first implementation in `list` that takes a parameter of the shape
/// of `ty`, if there is one.
pub open spec fn found<'a>(list: Seq<ImplementationView<'a>>, ty: TypeView<'a>) -> Option<int>
    decreases list.len(),
{
    if list.len() == 0 {
        None
    } else {
        match found(list.drop_last(), ty) {
            Some(index) => Some(index),
            None => if list.last().param_ty.same_shape(ty) {
                Some(list.len() - 1)
            } else {
                None
            },
        }
    }
}

/// A function with the parameters `params` and an empty first block.
pub open spec fn begun(size: nat) -> FunctionView {
    FunctionView {
        params: var_range(0, size),
        returns: seq![],
        variable_count: size as usize,
        blocks: seq![BlockView::fresh(0)],
    }
}

/// The function `function` as it is appended to the program: with the
/// return variables `vars`, and with its last block closed by `return`.
pub open spec fn finished(function: FunctionView, block: BlockView, vars: Seq<Var>) -> FunctionView {
    (FunctionView { returns: function.returns + vars, ..function }).overlay(
        block.closed_by(ExitInstruction::Return),
    )
}

/// A call of the function `entry` with the value of type `argument`, from
/// the state `state`. The result is of the shape of `return_ty`, in new
/// variables.
pub open spec fn called<'a>(
    expr: Parsed<'a, Expr<'a>>,
    state: State<'a>,
    entry: FunctionId,
    argument: TypeView<'a>,
    return_ty: TypeView<'a>,
) -> Step<'a> {
    let count = state.program.functions[entry.id as int].returns.len();
    if !room(state, count) {
        refused(expr, CompileErrorType::LimitExceeded, state)
    } else {
        done(
            return_ty.map_to(fresh(state, count)),
            state.emitted(
                InstructionView::Call {
                    function: entry,
                    args: argument.vars(),
                    returns: fresh(state, count),
                },
                count,
            ),
        )
    }
}

/// What compiling `expr` in the state `state` comes to, when no more than
/// `depth` functions may be compiled inside each other.
///
/// - A number becomes a constant in a new variable, and is an integer.
/// - `true` and `false` become the constants 1 and 0, and are truth values.
/// - A name has the type that it stands for in scope; a name that is not in
///   scope is undefined.
/// - A tuple has the types of its parts, compiled from left to right.
/// - A sequence is compiled from first to last and has the type of its last
///   expression.
/// - `pattern = value` has the type of the value, whose parts are given
///   the names of the pattern.
/// - `left + right` adds two integers in a new variable; anything else is a
///   type error.
/// - `fn` makes a function value with an empty list of implementations,
///   and gives it its name, if it has one.
/// - `callee(argument)` calls a function value. If the function has an
///   implementation for the shape of the argument, that one is called. If
///   not, the function is compiled for this shape as a new function of the
///   program: the parameters are new variables of the shape of the argument,
///   the body sees only the names of the pattern, and the variables of its
///   type are returned. The new function is appended to the program when it
///   is finished, called, and entered in the list.
/// - `if cond { conc }` branches on a truth value to a new block for the
///   body, and from there, as from the branch, to a second new block. The
///   value may be absent: it is of type `Maybe`.
/// - `maybe else { alternative }` branches on the tag of a value that may
///   be absent to a new block for the alternative, and merges the two values
///   behind it, variable by variable.
pub open spec fn elaborated<'a>(expr: Parsed<'a, Expr<'a>>, state: State<'a>, depth: nat) -> Step<'a>
    decreases depth, expr, 1nat,
{
    let next = Var { id: state.function.variable_count };
    match expr.node {
        Expr::IntLiteral(lexeme) => if !room(state, 1) {
            refused(expr, CompileErrorType::LimitExceeded, state)
        } else {
            done(
                TypeView::Int(next),
                state.emitted(
                    InstructionView::ConstantInt {
                        dest: next,
                        constant: literal_value(lexeme@) as i32,
                    },
                    1,
                ),
            )
        },
        Expr::BoolLiteral(lexeme) => if !room(state, 1) {
            refused(expr, CompileErrorType::LimitExceeded, state)
        } else {
            done(
                TypeView::Bool(next),
                state.emitted(
                    InstructionView::ConstantInt {
                        dest: next,
                        constant: if lexeme@ == "true"@ {
                            1i32
                        } else {
                            0i32
                        },
                    },
                    1,
                ),
            )
        },
        Expr::Ident(name) => match lookup(state.scope, name@) {
            Some(ty) => done(ty, state),
            None => refused(expr, CompileErrorType::UndefinedVariable, state),
        },
        Expr::Func { name, pattern, expr: body } => {
            let func = TypeView::Func {
                pattern: *pattern,
                expr: *body,
                impls: ImplsId { id: state.table.len() as usize },
            };
            done(
                func,
                State {
                    table: with_cell(state.table, *pattern, *body),
                    scope: match name {
                        Some(name) => assigned(state.scope, name@, func),
                        None => state.scope,
                    },
                    ..state
                },
            )
        },
        Expr::Tuple { exprs } => {
            let parts = elaborated_all(exprs@, state, depth, exprs@.len());
            match parts.result {
                Err(failure) => Step { result: Err(failure), state: parts.state },
                Ok(types) => done(TypeView::Tuple(types), parts.state),
            }
        },
        Expr::Block { exprs, last } => {
            let parts = elaborated_all(exprs@, state, depth, exprs@.len());
            match parts.result {
                Err(failure) => Step { result: Err(failure), state: parts.state },
                Ok(_) => elaborated(*last, parts.state, depth),
            }
        },
        Expr::Binary { left, right, op } => match op {
            BinaryOp::Plus => {
                let first = elaborated(*left, state, depth);
                match first.result {
                    Err(_) => first,
                    Ok(left_ty) => {
                        let second = elaborated(*right, first.state, depth);
                        match second.result {
                            Err(_) => second,
                            Ok(right_ty) => match (left_ty, right_ty) {
                                (TypeView::Int(a), TypeView::Int(b)) => if !room(second.state, 1) {
                                    refused(expr, CompileErrorType::LimitExceeded, second.state)
                                } else {
                                    let dest = Var { id: second.state.function.variable_count };
                                    done(
                                        TypeView::Int(dest),
                                        second.state.emitted(
                                            InstructionView::AddInt { dest, a, b },
                                            1,
                                        ),
                                    )
                                },
                                _ => refused(expr, CompileErrorType::TypeError, second.state),
                            },
                        }
                    },
                }
            },
            BinaryOp::SingleEquals => {
                let value = elaborated(*right, state, depth);
                match value.result {
                    Err(_) => value,
                    Ok(ty) => match bound(*left, ty, value.state.scope) {
                        Ok(scope) => done(ty, State { scope, ..value.state }),
                        Err(text) => Step {
                            result: Err(Failure { text, ty: CompileErrorType::TypeError }),
                            state: State {
                                scope: reached(*left, ty, value.state.scope),
                                ..value.state
                            },
                        },
                    },
                }
            },
            BinaryOp::Else => {
                let first = elaborated(*left, state, depth);
                match first.result {
                    Err(_) => first,
                    Ok(TypeView::Maybe(tag, inner)) => {
                        let exit = first.state.function.blocks.len() + 1;
                        let second = elaborated(*right, split(first.state, tag, true), depth);
                        match second.result {
                            Err(_) => second,
                            Ok(alt) => {
                                let behind = joined(second.state, exit as int);
                                if !inner.same_shape(alt) {
                                    refused(expr, CompileErrorType::TypeError, behind)
                                } else if !room(behind, inner.size()) {
                                    refused(expr, CompileErrorType::LimitExceeded, behind)
                                } else {
                                    done(
                                        inner.map_to(fresh(behind, inner.size())),
                                        emitted_all(
                                            behind,
                                            phis(
                                                tag,
                                                inner.vars(),
                                                alt.vars(),
                                                behind.function.variable_count as int,
                                            ),
                                            inner.size() as int,
                                        ),
                                    )
                                }
                            },
                        }
                    },
                    Ok(_) => refused(expr, CompileErrorType::TypeError, first.state),
                }
            },
            BinaryOp::Bracket => {
                let first = elaborated(*left, state, depth);
                match first.result {
                    Err(_) => first,
                    Ok(TypeView::Func { pattern, expr: body, impls }) => {
                        let second = elaborated(*right, first.state, depth);
                        match second.result {
                            Err(_) => second,
                            Ok(argument) => match found(
                                second.state.table[impls.id as int].impls,
                                argument,
                            ) {
                                Some(index) => {
                                    let imp = second.state.table[impls.id as int].impls[index];
                                    called(expr, second.state, imp.entry, argument, imp.return_ty)
                                },
                                None => instantiated(
                                    expr,
                                    pattern,
                                    body,
                                    impls,
                                    argument,
                                    second.state,
                                    depth,
                                ),
                            },
                        }
                    },
                    Ok(_) => refused(expr, CompileErrorType::TypeError, first.state),
                }
            },
        },
        Expr::If { cond, conc } => {
            let first = elaborated(*cond, state, depth);
            match first.result {
                Err(_) => first,
                Ok(TypeView::Bool(tag)) => {
                    let exit = first.state.function.blocks.len() + 1;
                    let second = elaborated(*conc, split(first.state, tag, false), depth);
                    match second.result {
                        Err(_) => second,
                        Ok(ty) => done(
                            TypeView::Maybe(tag, Box::new(ty)),
                            joined(second.state, exit as int),
                        ),
                    }
                },
                Ok(_) => refused(expr, CompileErrorType::TypeError, first.state),
            }
        },
    }
}

/// What compiling the first `n` of `exprs`, one after the other, comes to.
pub open spec fn elaborated_all<'a>(
    exprs: Seq<Parsed<'a, Expr<'a>>>,
    state: State<'a>,
    depth: nat,
    n: nat,
) -> Steps<'a>
    decreases depth, exprs, n,
{
    if n == 0 || n > exprs.len() {
        Steps { result: Ok(seq![]), state }
    } else {
        let before = elaborated_all(exprs, state, depth, (n - 1) as nat);
        match before.result {
            Err(_) => before,
            Ok(types) => {
                let step = elaborated(exprs[n - 1], before.state, depth);
                match step.result {
                    Err(failure) => Steps { result: Err(failure), state: step.state },
                    Ok(ty) => Steps { result: Ok(types.push(ty)), state: step.state },
                }
            },
        }
    }
}

/// What calling the function with parameter `pattern` and body `body` comes
/// to when it has no implementation for the shape of `argument` yet: the
/// function is compiled for parameters of that shape, appended to the
/// program, called, and entered in the list `impls`, unless the list has got
/// an implementation for this shape in the meantime.
pub open spec fn instantiated<'a>(
    expr: Parsed<'a, Expr<'a>>,
    pattern: Parsed<'a, Expr<'a>>,
    body: Parsed<'a, Expr<'a>>,
    impls: ImplsId,
    argument: TypeView<'a>,
    state: State<'a>,
    depth: nat,
) -> Step<'a>
    decreases depth, expr, 0nat,
{
    if depth == 0 {
        refused(expr, CompileErrorType::LimitExceeded, state)
    } else {
        let size = argument.size();
        let param_ty = argument.map_to(var_range(0, size));
        match bound(pattern, param_ty, Seq::empty()) {
            Err(text) => Step {
                result: Err(Failure { text, ty: CompileErrorType::TypeError }),
                state,
            },
            Ok(scope) => {
                let inside = elaborated(
                    body,
                    State {
                        scope,
                        program: state.program,
                        function: begun(size),
                        block: BlockView::fresh(0),
                        table: state.table,
                    },
                    (depth - 1) as nat,
                );
                match inside.result {
                    Err(failure) => Step {
                        result: Err(failure),
                        state: State {
                            program: inside.state.program,
                            table: inside.state.table,
                            ..state
                        },
                    },
                    Ok(return_ty) => {
                        let entry = FunctionId { id: inside.state.program.functions.len() as usize };
                        let caller = State {
                            scope: state.scope,
                            program: inside.state.program.with(
                                finished(
                                    inside.state.function,
                                    inside.state.block,
                                    return_ty.vars(),
                                ),
                            ),
                            function: state.function,
                            block: state.block,
                            table: inside.state.table,
                        };
                        let call = called(expr, caller, entry, argument, return_ty);
                        match call.result {
                            Err(_) => call,
                            Ok(ty) => done(
                                ty,
                                State {
                                    table: if absent(
                                        call.state.table[impls.id as int].impls,
                                        param_ty,
                                    ) {
                                        with_impl(
                                            call.state.table,
                                            impls.id as int,
                                            ImplementationView { param_ty, return_ty, entry },
                                        )
                                    } else {
                                        call.state.table
                                    },
                                    ..call.state
                                },
                            ),
                        }
                    },
                }
            },
        }
    }
}

/// Whether the compiler did what compiling comes to: the result is the one
/// of `step`, and so is the state afterwards, after success and after an
/// error alike.
pub open spec fn agrees<'a>(
    step: Step<'a>,
    after: State<'a>,
    result: Result<TypeView<'a>, Failure>,
) -> bool {
    &&& step.result == result
    &&& after == step.state
}

/// A compiled program as a mathematical value.
pub struct Whole<'a> {
    pub program: ProgramView,
    pub entry: FunctionId,
    pub ty: TypeView<'a>,
    pub table: TableView<'a>,
}

/// The state in which the compilation of a program starts: nothing in
/// scope, no function in the program, no list in the table, and a function
/// without parameters whose first block is the cursor.
pub open spec fn initial<'a>() -> State<'a> {
    State {
        scope: Seq::empty(),
        program: ProgramView { functions: Seq::empty() },
        function: begun(0),
        block: BlockView::fresh(0),
        table: Seq::empty(),
    }
}

/// What compiling `expr` as a whole program comes to. The expression is
/// compiled into a function of its own, which returns the variables of its
/// type and is appended to the program last.
pub open spec fn elaborated_program<'a>(expr: Parsed<'a, Expr<'a>>, depth: nat) -> Result<
    Whole<'a>,
    Failure,
> {
    let step = elaborated(expr, initial(), depth);
    match step.result {
        Err(failure) => Err(failure),
        Ok(ty) => Ok(
            Whole {
                program: step.state.program.with(
                    finished(step.state.function, step.state.block, ty.vars()),
                ),
                entry: FunctionId { id: step.state.program.functions.len() as usize },
                ty,
                table: step.state.table,
            },
        ),
    }
}

/// Once an expression of a list was refused, the list is refused, for the
/// reason of the first such expression.
pub proof fn lemma_elaborated_all_stuck<'a>(
    exprs: Seq<Parsed<'a, Expr<'a>>>,
    state: State<'a>,
    depth: nat,
    n: nat,
    m: nat,
)
    requires
        n <= m <= exprs.len(),
        elaborated_all(exprs, state, depth, n).result is Err,
    ensures
        elaborated_all(exprs, state, depth, m) == elaborated_all(exprs, state, depth, n),
    decreases m,
{
    if m > n {
        lemma_elaborated_all_stuck(exprs, state, depth, n, (m - 1) as nat);
    }
}

/// The first implementation of a shape is the one that is found.
pub proof fn lemma_found<'a>(list: Seq<ImplementationView<'a>>, ty: TypeView<'a>)
    ensures
        forall|index: int|
            crate::impls::first_of_shape(list, ty, index) ==> found(list, ty) == Some(index),
        absent(list, ty) ==> found(list, ty) is None,
    decreases list.len(),
{
    if list.len() > 0 {
        let front = list.drop_last();
        lemma_found(front, ty);
        assert forall|index: int| crate::impls::first_of_shape(list, ty, index) implies found(
            list,
            ty,
        ) == Some(index) by {
            if index < front.len() {
                assert(front.take(index) =~= list.take(index));
                assert(crate::impls::first_of_shape(front, ty, index));
            } else {
                assert(list.take(index) =~= front);
            }
        }
        if absent(list, ty) {
            assert forall|i: int| 0 <= i < front.len() implies !(#[trigger] front[i]).param_ty.same_shape(
                ty,
            ) by {
                assert(front[i] == list[i]);
            }
        }
    }
}

/// The scope after `pattern` was matched against a value of type `ty`, or
/// the text of the pattern that does not fit. A name takes the whole value;
/// a tuple of patterns takes a tuple of as many values, part by part from
/// left to right; nothing else is a pattern.
pub open spec fn bound<'a>(
    pattern: Parsed<'a, Expr<'a>>,
    ty: TypeView<'a>,
    scope: Seq<Binding<'a>>,
) -> Result<Seq<Binding<'a>>, Seq<char>>
    decreases pattern, 0nat,
{
    match pattern.node {
        Expr::Ident(name) => Ok(assigned(scope, name@, ty)),
        Expr::Tuple { exprs } => match ty {
            TypeView::Tuple(types) => if types.len() == exprs@.len() {
                bound_all(exprs@, types, scope, exprs@.len())
            } else {
                Err(pattern.text())
            },
            _ => Err(pattern.text()),
        },
        _ => Err(pattern.text()),
    }
}

/// The scope after the first `n` of `patterns` were matched against the
/// first `n` of `types`, or the text of the first pattern that does not fit.
pub open spec fn bound_all<'a>(
    patterns: Seq<Parsed<'a, Expr<'a>>>,
    types: Seq<TypeView<'a>>,
    scope: Seq<Binding<'a>>,
    n: nat,
) -> Result<Seq<Binding<'a>>, Seq<char>>
    decreases patterns, n,
{
    if n == 0 || n > patterns.len() {
        Ok(scope)
    } else {
        match bound_all(patterns, types, scope, (n - 1) as nat) {
            Err(text) => Err(text),
            Ok(before) => bound(patterns[n - 1], types[n - 1], before),
        }
    }
}

/// The scope after `pattern` was matched against a value of type `ty`,
/// whether it fits or not: the names that were matched before the first
/// pattern that does not fit are defined, no others.
pub open spec fn reached<'a>(
    pattern: Parsed<'a, Expr<'a>>,
    ty: TypeView<'a>,
    scope: Seq<Binding<'a>>,
) -> Seq<Binding<'a>>
    decreases pattern, 0nat,
{
    match pattern.node {
        Expr::Ident(name) => assigned(scope, name@, ty),
        Expr::Tuple { exprs } => match ty {
            TypeView::Tuple(types) => if types.len() == exprs@.len() {
                reached_all(exprs@, types, scope, exprs@.len())
            } else {
                scope
            },
            _ => scope,
        },
        _ => scope,
    }
}

/// The scope after the first `n` of `patterns` were matched against the
/// first `n` of `types`, or as many of them as there are up to the first
/// that does not fit.
pub open spec fn reached_all<'a>(
    patterns: Seq<Parsed<'a, Expr<'a>>>,
    types: Seq<TypeView<'a>>,
    scope: Seq<Binding<'a>>,
    n: nat,
) -> Seq<Binding<'a>>
    decreases patterns, n,
{
    if n == 0 || n > patterns.len() {
        scope
    } else {
        match bound_all(patterns, types, scope, (n - 1) as nat) {
            Err(_) => reached_all(patterns, types, scope, (n - 1) as nat),
            Ok(before) => reached(patterns[n - 1], types[n - 1], before),
        }
    }
}

/// Where a pattern fits, the scope that is reached is the one that it
/// binds.
pub proof fn lemma_reached_bound<'a>(
    pattern: Parsed<'a, Expr<'a>>,
    ty: TypeView<'a>,
    scope: Seq<Binding<'a>>,
)
    ensures
        bound(pattern, ty, scope) matches Ok(after) ==> reached(pattern, ty, scope) == after,
    decreases pattern, 1nat,
{
    match pattern.node {
        Expr::Tuple { exprs } => match ty {
            TypeView::Tuple(types) => {
                if types.len() == exprs@.len() {
                    lemma_reached_bound_all(exprs@, types, scope, exprs@.len());
                }
            },
            _ => {},
        },
        _ => {},
    }
}

/// Where the first `n` patterns fit, the scope that is reached is the one
/// that they bind.
pub proof fn lemma_reached_bound_all<'a>(
    patterns: Seq<Parsed<'a, Expr<'a>>>,
    types: Seq<TypeView<'a>>,
    scope: Seq<Binding<'a>>,
    n: nat,
)
    ensures
        bound_all(patterns, types, scope, n) matches Ok(after) ==> reached_all(
            patterns,
            types,
            scope,
            n,
        ) == after,
    decreases patterns, n,
{
    if n == 0 || n > patterns.len() {
    } else {
        match bound_all(patterns, types, scope, (n - 1) as nat) {
            Err(_) => {},
            Ok(before) => {
                lemma_reached_bound(patterns[n - 1], types[n - 1], before);
            },
        }
    }
}

/// After the first pattern of a tuple that does not fit no more names are
/// defined.
pub proof fn lemma_reached_stays<'a>(
    patterns: Seq<Parsed<'a, Expr<'a>>>,
    types: Seq<TypeView<'a>>,
    scope: Seq<Binding<'a>>,
    n: nat,
    m: nat,
)
    requires
        bound_all(patterns, types, scope, n) is Err,
        n <= m <= patterns.len(),
    ensures
        reached_all(patterns, types, scope, m) == reached_all(patterns, types, scope, n),
    decreases m,
{
    if m > n {
        lemma_bound_stays_failed(patterns, types, scope, n, (m - 1) as nat);
        lemma_reached_stays(patterns, types, scope, n, (m - 1) as nat);
    }
}

/// Once a pattern of a tuple did not fit, the tuple does not fit, and the
/// text that is reported is that of the first such pattern.
pub proof fn lemma_bound_stays_failed<'a>(
    patterns: Seq<Parsed<'a, Expr<'a>>>,
    types: Seq<TypeView<'a>>,
    scope: Seq<Binding<'a>>,
    n: nat,
    m: nat,
)
    requires
        n <= m <= patterns.len(),
        bound_all(patterns, types, scope, n) is Err,
    ensures
        bound_all(patterns, types, scope, m) == bound_all(patterns, types, scope, n),
    decreases m,
{
    if m > n {
        lemma_bound_stays_failed(patterns, types, scope, n, (m - 1) as nat);
    }
}

/// The exit that a conditional on `cond` closes the cursor with in a
/// function of `n` blocks. The body goes to block `n` and what follows to
/// block `n + 1`. The body is entered if `cond` is not zero, or, where
/// `inverted`, if it is zero.
pub open spec fn fork_exit(cond: Var, inverted: bool, n: int) -> ExitInstruction {
    if inverted {
        ExitInstruction::ConditionalBranch {
            cond,
            block1: BlockId { id: (n + 1) as usize },
            block2: BlockId { id: n as usize },
        }
    } else {
        ExitInstruction::ConditionalBranch {
            cond,
            block1: BlockId { id: n as usize },
            block2: BlockId { id: (n + 1) as usize },
        }
    }
}

} // verus!

//! The compiler proper: from the syntax tree to the intermediate
//! representation. Expressions are typed as they are compiled, and every
//! function is compiled once for each shape of argument it is called with.

use crate::agreement::{agreement, faithful, lemma_table_sound_cell, table_sound};
use crate::ast::{BinaryOp, Expr, Parsed};
use crate::cursor::{
    lemma_advanced_none,
    lemma_close,
    lemma_finished,
    lemma_finished_acyclic,
    lemma_new_function,
    lemma_program_with,
    lemma_set_returns,
};
use crate::defined::{
    all_defined,
    lemma_finished_defined,
    one_block,
    one_block_kept,
    program_defined,
    unbranching,
};
use crate::elaboration::{
    agrees,
    bound,
    bound_all,
    elaborated,
    elaborated_program,
    initial,
    instantiated,
    lemma_bound_stays_failed,
    lemma_reached_bound,
    lemma_reached_stays,
    reached,
    Whole,
};
use crate::impls::{ImplTable, registry, table_ok, with_cell};
use crate::ir::{
    Block,
    BlockView,
    ExitInstruction,
    Function,
    FunctionId,
    FunctionView,
    InstructionView,
    Program,
    Var,
    var_range,
};
use crate::literal::parse_int;
use crate::reach::{flowing, loop_free};
use crate::scope::{Binding, same_text, Scope};
use crate::soundness::{
    lemma_program_agrees,
    lemma_sound_constant,
    lemma_sound_function,
    lemma_sound_name,
};
use crate::state::{
    compiled,
    lemma_assigned_ok,
    lemma_follows_self,
    lemma_lookup_ok,
    lemma_scope_more,
    lemma_state_emit,
    lemma_table_cell,
    lemma_table_program,
    State,
};
use crate::types::{Source, Type, TypeView};
use vstd::prelude::*;

mod branch;
mod call;
mod straight;

verus! {

#[derive(Debug, Copy, Clone, PartialEq, Eq, Structural)]
pub enum CompileErrorType {
    /// An operand is not of the shape that the operator asks for.
    TypeError,
    /// A name is used that no definition in scope gives a meaning.
    UndefinedVariable,
    /// A bound of the compiler was reached: functions are instantiated
    /// inside each other more deeply than allowed, or a function has used
    /// up its variables.
    LimitExceeded,
}

/// Why an expression could not be compiled, and the text of the expression.
#[derive(Debug)]
pub struct CompileError<'a> {
    source: &'a str,
    ty: CompileErrorType,
}

/// An error as a mathematical value.
pub struct Failure {
    pub text: Seq<char>,
    pub ty: CompileErrorType,
}

impl<'a> View for CompileError<'a> {
    type V = Failure;

    closed spec fn view(&self) -> Failure {
        Failure { text: self.source@, ty: self.ty }
    }
}

impl<'a> CompileError<'a> {
    pub fn type_error(source: &'a str) -> (error: CompileError<'a>)
        ensures
            error@ == (Failure { text: source@, ty: CompileErrorType::TypeError }),
    {
        CompileError { source, ty: CompileErrorType::TypeError }
    }

    pub fn undefined_variable(source: &'a str) -> (error: CompileError<'a>)
        ensures
            error@ == (Failure { text: source@, ty: CompileErrorType::UndefinedVariable }),
    {
        CompileError { source, ty: CompileErrorType::UndefinedVariable }
    }

    pub fn limit_exceeded(source: &'a str) -> (error: CompileError<'a>)
        ensures
            error@ == (Failure { text: source@, ty: CompileErrorType::LimitExceeded }),
    {
        CompileError { source, ty: CompileErrorType::LimitExceeded }
    }

    /// The text of the expression that could not be compiled.
    pub fn get_source(&self) -> (source: &'a str)
        ensures
            source@ == self@.text,
    {
        self.source
    }

    pub fn get_type(&self) -> (ty: CompileErrorType)
        ensures
            ty == self@.ty,
    {
        self.ty
    }
}

/// What a result stands for.
pub open spec fn outcome<'a, 'b>(result: Result<Type<'a, 'b>, CompileError<'a>>) -> Result<
    TypeView<'a>,
    Failure,
> {
    match result {
        Ok(ty) => Ok(ty@),
        Err(error) => Err(error@),
    }
}

/// The state that the five values stand for.
pub open spec fn snapshot<'a, 'b>(
    scope: Scope<'a, 'b>,
    program: Program,
    function: Function,
    block: Block,
    impls: ImplTable<'a, 'b>,
) -> State<'a> {
    State { scope: scope@, program: program@, function: function@, block: block@, table: impls@ }
}

/// Matches `pattern` against a value of type `ty` and defines the names of
/// the pattern in `scope`. A pattern that does not fit is a type error at
/// its own text; the names that were matched before it stay defined, and
/// nothing else is changed.
pub fn match_pattern<'a, 'b>(
    pattern: &'b Parsed<'a, Expr<'a>>,
    ty: Type<'a, 'b>,
    scope: &mut Scope<'a, 'b>,
) -> (result: Result<(), CompileError<'a>>)
    requires
        pattern.compilable(),
    ensures
        match bound(*pattern, ty@, old(scope)@) {
            Ok(after) => result is Ok && final(scope)@ == after,
            Err(text) => result matches Err(error) && error@ == (Failure {
                text,
                ty: CompileErrorType::TypeError,
            }),
        },
        final(scope)@ == reached(*pattern, ty@, old(scope)@),
    decreases pattern,
{
    let ghost whole = ty@;
    proof {
        lemma_reached_bound(*pattern, ty@, scope@);
    }
    match &pattern.node {
        Expr::Ident(source) => {
            scope.assign(source, ty);
            Ok(())
        },
        Expr::Tuple { exprs } => match ty {
            Type::Tuple(types) => {
                let ghost views = Type::models(types@);
                assert(whole == TypeView::Tuple(views));
                assert(views.len() == types@.len());
                if types.len() != exprs.len() {
                    return Err(CompileError::type_error(pattern.get_source()));
                }
                let ghost start = scope@;
                let mut i: usize = 0;
                while i < exprs.len()
                    invariant
                        i <= exprs.len(),
                        types@.len() == exprs@.len(),
                        views == Type::models(types@),
                        whole == TypeView::Tuple(views),
                        whole == ty@,
                        start == old(scope)@,
                        pattern.compilable(),
                        pattern.node == (Expr::Tuple { exprs: *exprs }),
                        decreases_to!(pattern => exprs),
                        bound_all(exprs@, views, start, i as nat) == Ok::<
                            Seq<Binding<'a>>,
                            Seq<char>,
                        >(scope@),
                    decreases exprs.len() - i,
                {
                    assert(exprs@[i as int].compilable());
                    assert(views[i as int] == types@[i as int]@);
                    match match_pattern(&exprs[i], types[i].clone(), scope) {
                        Ok(()) => {},
                        Err(error) => {
                            proof {
                                lemma_bound_stays_failed(
                                    exprs@,
                                    views,
                                    start,
                                    (i + 1) as nat,
                                    exprs@.len(),
                                );
                                lemma_reached_stays(
                                    exprs@,
                                    views,
                                    start,
                                    (i + 1) as nat,
                                    exprs@.len(),
                                );
                            }
                            return Err(error);
                        },
                    }
                    i += 1;
                }
                Ok(())
            },
            _ => Err(CompileError::type_error(pattern.get_source())),
        },
        _ => Err(CompileError::type_error(pattern.get_source())),
    }
}

/// Compiles `expr` at the cursor `block` of `function`.
///
/// The names of `scope` are in scope, and names that `expr` defines are
/// added to it. Instructions go to the cursor, which moves on when `expr`
/// branches. Functions that `expr` calls with a new shape of argument are
/// compiled on the way, appended to `program` and entered in `impls`; no
/// more than `depth` such functions are compiled inside each other.
///
/// Returns the type of `expr`, or the first error. After an error the
/// scope, the program, the function, the cursor and the lists are as they
/// were when the error was found: what was compiled until then stays.
pub fn compile<'a, 'b>(
    expr: &'b Parsed<'a, Expr<'a>>,
    scope: &mut Scope<'a, 'b>,
    program: &mut Program,
    function: &mut Function,
    block: &mut Block,
    impls: &mut ImplTable<'a, 'b>,
    depth: usize,
) -> (result: Result<Type<'a, 'b>, CompileError<'a>>)
    requires
        expr.compilable(),
        snapshot(*old(scope), *old(program), *old(function), *old(block), *old(impls)).ready(),
        table_sound(old(impls)@, old(program)@),
    ensures
        compiled(
            snapshot(*old(scope), *old(program), *old(function), *old(block), *old(impls)),
            snapshot(*final(scope), *final(program), *final(function), *final(block), *final(impls)),
            outcome(result),
        ),
        agrees(
            elaborated(
                *expr,
                snapshot(*old(scope), *old(program), *old(function), *old(block), *old(impls)),
                depth as nat,
            ),
            snapshot(*final(scope), *final(program), *final(function), *final(block), *final(impls)),
            outcome(result),
        ),
        faithful(
            *expr,
            snapshot(*old(scope), *old(program), *old(function), *old(block), *old(impls)),
            snapshot(*final(scope), *final(program), *final(function), *final(block), *final(impls)),
            outcome(result),
        ),
        unbranching(
            *expr,
            snapshot(*old(scope), *old(program), *old(function), *old(block), *old(impls)),
            snapshot(*final(scope), *final(program), *final(function), *final(block), *final(impls)),
            outcome(result),
        ),
    decreases depth, expr, 2nat,
{
    let ghost before = snapshot(*scope, *program, *function, *block, *impls);
    match &expr.node {
        Expr::IntLiteral(source) => {
            if !function.has_room(1) {
                return Err(CompileError::limit_exceeded(expr.get_source()));
            }
            let value = parse_int(source).unwrap();
            let dest = block.constant(value, function);
            proof {
                assert(seq![dest] =~= var_range(before.function.variable_count as int, 1));
                lemma_state_emit(
                    before,
                    InstructionView::ConstantInt { dest, constant: value },
                    1,
                );
                lemma_sound_constant(*expr, before, dest, value);
            }
            Ok(Type::Int(dest))
        },
        Expr::BoolLiteral(source) => {
            if !function.has_room(1) {
                return Err(CompileError::limit_exceeded(expr.get_source()));
            }
            let value: i32 = if same_text(source, "true") {
                1
            } else {
                0
            };
            let dest = block.constant(value, function);
            proof {
                assert(seq![dest] =~= var_range(before.function.variable_count as int, 1));
                lemma_state_emit(
                    before,
                    InstructionView::ConstantInt { dest, constant: value },
                    1,
                );
                lemma_sound_constant(*expr, before, dest, value);
            }
            Ok(Type::Bool(dest))
        },
        Expr::Ident(source) => {
            proof {
                lemma_lookup_ok(
                    before.scope,
                    source@,
                    before.function.variable_count as int,
                    registry(before.table),
                );
                lemma_follows_self(before);
            }
            match scope.get(source) {
                Some(ty) => {
                    proof {
                        lemma_sound_name(*expr, before, ty@);
                    }
                    Ok(ty)
                },
                None => Err(CompileError::undefined_variable(expr.get_source())),
            }
        },
        Expr::Func { name, pattern, expr: body } => {
            let cell = impls.new_cell(&**pattern, &**body);
            let func = Type::Func { pattern: &**pattern, expr: &**body, impls: cell };
            proof {
                lemma_table_cell(before.table, before.program, **pattern, **body);
                lemma_scope_more(
                    before.scope,
                    before.function.variable_count as int,
                    registry(before.table),
                    before.function.variable_count as int,
                    registry(with_cell(before.table, **pattern, **body)),
                );
                assert(registry(with_cell(before.table, **pattern, **body))[cell.id as int] == (
                Source { pattern: **pattern, body: **body }));
                lemma_advanced_none(before.function, before.block);
                assert(func@.vars() =~= Seq::<Var>::empty());
                lemma_sound_function(*expr, before);
                lemma_table_sound_cell(before.table, before.program, **pattern, **body);
            }
            match name {
                Some(name) => {
                    proof {
                        lemma_assigned_ok(
                            before.scope,
                            name@,
                            func@,
                            before.function.variable_count as int,
                            registry(with_cell(before.table, **pattern, **body)),
                        );
                    }
                    scope.assign(name, func.clone());
                },
                None => {},
            }
            Ok(func)
        },
        Expr::Tuple { .. } => straight::compile_tuple(expr, scope, program, function, block, impls, depth),
        Expr::Block { .. } => straight::compile_sequence(expr, scope, program, function, block, impls, depth),
        Expr::Binary { op, .. } => match op {
            BinaryOp::Plus => straight::compile_sum(expr, scope, program, function, block, impls, depth),
            BinaryOp::SingleEquals => straight::compile_assignment(
                expr,
                scope,
                program,
                function,
                block,
                impls,
                depth,
            ),
            BinaryOp::Else => branch::compile_else(expr, scope, program, function, block, impls, depth),
            BinaryOp::Bracket => call::compile_call(expr, scope, program, function, block, impls, depth),
        },
        Expr::If { .. } => branch::compile_if(expr, scope, program, function, block, impls, depth),
    }
}

/// A compiled program: the functions, the number of the function that
/// computes the value of the program, the type of that value, and the
/// implementations of all function values.
#[derive(Debug)]
pub struct Compilation<'a, 'b> {
    pub program: Program,
    pub entry: FunctionId,
    pub ty: Type<'a, 'b>,
    pub impls: ImplTable<'a, 'b>,
}

impl<'a, 'b> View for Compilation<'a, 'b> {
    type V = Whole<'a>;

    open spec fn view(&self) -> Whole<'a> {
        Whole { program: self.program@, entry: self.entry, ty: self.ty@, table: self.impls@ }
    }
}

impl<'a, 'b> Compilation<'a, 'b> {
    /// What holds of every compiled program.
    ///
    /// - Every function is in single-assignment form.
    /// - Every variable of a function is a parameter or is written by an
    ///   instruction. Within a block, every variable is written before it
    ///   is read, and there is a way from every block that writes a
    ///   variable to every block that reads it.
    /// - Every block of every function is closed by an exit, and names
    ///   only variables and blocks of its function. No way through a
    ///   function comes back to where it started.
    /// - Every call passes as many arguments and takes as many results as
    ///   the function that it calls declares.
    /// - No function value has two implementations for one shape of
    ///   parameter, and every implementation stands for a function of the
    ///   program that takes the variables of its parameter type and returns
    ///   those of its return type.
    /// - The last function of the program, `entry`, computes the value of
    ///   the program: it takes no parameters and returns the variables of
    ///   `ty`.
    pub open spec fn well_formed(&self) -> bool {
        &&& self.program@.single_assignment()
        &&& self.program@.ordered()
        &&& program_defined(self.program@)
        &&& flowing(self.program@)
        &&& loop_free(self.program@)
        &&& self.program@.well_formed()
        &&& table_ok(self.impls@, self.program@)
        &&& self.entry.id + 1 == self.program@.functions.len()
        &&& self.program@.functions[self.entry.id as int].params.len() == 0
        &&& self.program@.functions[self.entry.id as int].returns == self.ty@.vars()
        &&& self.ty@.within(self.program@.functions[self.entry.id as int].variable_count as int)
    }
}

/// Compiles `expr` as a whole program. The value of the program is computed
/// by a function of its own, which is appended to the program last. No more
/// than `depth` functions are compiled inside each other. Where nothing in
/// `expr` branches, every function of the program has one block.
pub fn compile_program<'a, 'b>(expr: &'b Parsed<'a, Expr<'a>>, depth: usize) -> (result: Result<
    Compilation<'a, 'b>,
    CompileError<'a>,
>)
    requires
        expr.compilable(),
    ensures
        result matches Ok(compilation) ==> compilation.well_formed(),
        match elaborated_program(*expr, depth as nat) {
            Ok(whole) => result matches Ok(compilation) && compilation@ == whole,
            Err(failure) => result matches Err(error) && error@ == failure,
        },
        result matches Ok(compilation) ==> agreement(*expr, compilation@),
        result matches Ok(compilation) ==> (expr.unbranched() ==> one_block(compilation.program@)),
{
    let mut program = Program::new();
    let mut impls = ImplTable::new();
    let mut function = Function::new();
    let mut block = function.new_block();
    let mut scope = Scope::new();
    proof {
        lemma_new_function(0, program@);
        assert(function@.params =~= var_range(0, 0));
        assert(function@.blocks =~= seq![BlockView::fresh(0)]);
        assert(program@.functions =~= Seq::empty());
        assert(impls@ =~= Seq::empty());
        assert(snapshot(scope, program, function, block, impls) == initial::<'a>());
    }
    let ghost start = snapshot(scope, program, function, block, impls);
    let ty = match compile(expr, &mut scope, &mut program, &mut function, &mut block, &mut impls, depth) {
        Ok(ty) => ty,
        Err(error) => {
            return Err(error);
        },
    };
    let ghost done = snapshot(scope, program, function, block, impls);
    ty.ret(&mut function);
    proof {
        assert(function@.returns =~= ty@.vars());
        lemma_set_returns(done.function, done.block, done.program, ty@.vars());
        lemma_close(function@, done.block, done.program, ExitInstruction::Return);
        lemma_finished(start.function, done.function, done.block, ExitInstruction::Return);
    }
    block.ret(&mut function);
    proof {
        assert(function@.blocks == done.function.overlay(
            done.block.closed_by(ExitInstruction::Return),
        ).blocks);
        assert(function@.closed());
        lemma_finished_acyclic(
            FunctionView { returns: function@.returns, ..done.function },
            done.block,
            done.program,
        );
        lemma_program_with(done.program, function@);
        lemma_table_program(done.table, done.program, done.program.with(function@));
    }
    let limit: usize = program.len();
    proof {
        lemma_program_agrees(*expr, done, ty@);
        lemma_finished_defined(start, done, function@);
        let whole = done.program.with(function@);
        if expr.unbranched() {
            assert(one_block_kept(start, done));
            assert forall|f: int| 0 <= f < whole.functions.len() implies (
            #[trigger] whole.functions[f]).blocks.len() == 1 by {
                if f < done.program.functions.len() {
                    assert(whole.functions[f] == done.program.functions[f]);
                }
            }
        }
        assert forall|f: int| 0 <= f < whole.functions.len() implies all_defined(
            #[trigger] whole.functions[f],
        ) by {
            if f < done.program.functions.len() {
                assert(whole.functions[f] == done.program.functions[f]);
            }
        }
    }
    let entry = program.add_function(function);
    Ok(Compilation { program, entry, ty, impls })
}

} // verus!

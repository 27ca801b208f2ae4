use monoc::ast::{Expr, Parsed};
use monoc::compiler::{compile, match_pattern, CompileErrorType};
use monoc::impls::ImplTable;
use monoc::ir::{Block, BlockId, ExitInstruction, Function, Instruction, Program, Var};
use monoc::parser::parse_source;
use monoc::scope::Scope;
use monoc::types::{ImplsId, Type};

fn tree(source: &str) -> Parsed<Expr> {
    let ast = parse_source(source).unwrap();
    assert!(ast.is_compilable());
    ast
}

fn shown(block: &Block) -> String {
    format!("{:?} {:?}", block.get_instructions(), block.get_exit_instruction())
}

#[test]
fn sum_of_a_number_and_a_truth_value_appends_no_addition() {
    let ast = tree("1 + true");
    let mut scope = Scope::new();
    let mut program = Program::new();
    let mut function = Function::new();
    let mut block = function.new_block();
    let mut impls = ImplTable::new();
    let error = compile(&ast, &mut scope, &mut program, &mut function, &mut block, &mut impls, 8)
        .unwrap_err();
    assert_eq!(error.get_type(), CompileErrorType::TypeError);
    assert_eq!(error.get_source(), "1 + true");
    let insts = block.get_instructions();
    assert_eq!(insts.len(), 2);
    assert!(matches!(insts[0], Instruction::ConstantInt { dest: Var { id: 0 }, constant: 1 }));
    assert!(matches!(insts[1], Instruction::ConstantInt { dest: Var { id: 1 }, constant: 1 }));
    assert_eq!(function.get_variable_count(), 2);
    assert_eq!(program.len(), 0);
    assert_eq!(impls.len(), 0);
}

#[test]
fn undefined_name_leaves_everything_as_it_was() {
    let ast = tree("y");
    let mut scope = Scope::new();
    scope.assign("x", Type::Int(Var { id: 0 }));
    let mut program = Program::new();
    let mut function = Function::new();
    function.new_variable();
    let mut block = function.new_block();
    block.constant(5, &mut function);
    let mut impls = ImplTable::new();
    let before = shown(&block);
    let error = compile(&ast, &mut scope, &mut program, &mut function, &mut block, &mut impls, 8)
        .unwrap_err();
    assert_eq!(error.get_type(), CompileErrorType::UndefinedVariable);
    assert_eq!(error.get_source(), "y");
    assert_eq!(shown(&block), before);
    assert_eq!(function.get_variable_count(), 2);
    assert_eq!(function.block_count(), 1);
    assert_eq!(program.len(), 0);
    assert_eq!(impls.len(), 0);
    assert!(matches!(scope.get("x"), Some(Type::Int(Var { id: 0 }))));
    assert!(scope.get("y").is_none());
}

#[test]
fn defined_name_leaves_everything_as_it_was() {
    let ast = tree("x");
    let mut scope = Scope::new();
    scope.assign("x", Type::Int(Var { id: 0 }));
    let mut program = Program::new();
    let mut function = Function::new();
    function.new_variable();
    let mut block = function.new_block();
    let mut impls = ImplTable::new();
    let ty = compile(&ast, &mut scope, &mut program, &mut function, &mut block, &mut impls, 8)
        .unwrap();
    assert!(matches!(ty, Type::Int(Var { id: 0 })));
    assert_eq!(block.get_instructions().len(), 0);
    assert_eq!(function.get_variable_count(), 1);
    assert_eq!(program.len(), 0);
}

#[test]
fn body_with_a_free_name_leaves_the_list_empty() {
    let ast = tree("{ y = 1; f = fn(x) { y }; f(2) }");
    let mut scope = Scope::new();
    let mut program = Program::new();
    let mut function = Function::new();
    let mut block = function.new_block();
    let mut impls = ImplTable::new();
    let error = compile(&ast, &mut scope, &mut program, &mut function, &mut block, &mut impls, 8)
        .unwrap_err();
    assert_eq!(error.get_type(), CompileErrorType::UndefinedVariable);
    assert_eq!(error.get_source(), "{ y }");
    assert_eq!(impls.len(), 1);
    assert_eq!(impls.count(ImplsId { id: 0 }), 0);
    assert_eq!(program.len(), 0);
    assert_eq!(block.get_instructions().len(), 2);
    assert!(matches!(scope.get("y"), Some(Type::Int(Var { id: 0 }))));
    assert!(matches!(scope.get("f"), Some(Type::Func { .. })));
}

#[test]
fn pattern_that_is_no_name_and_no_tuple_leaves_the_scope() {
    let pattern = tree("1 + 2");
    let mut scope = Scope::new();
    scope.assign("x", Type::Bool(Var { id: 3 }));
    let error = match_pattern(&pattern, Type::Int(Var { id: 0 }), &mut scope).unwrap_err();
    assert_eq!(error.get_type(), CompileErrorType::TypeError);
    assert_eq!(error.get_source(), "1 + 2");
    assert!(matches!(scope.get("x"), Some(Type::Bool(Var { id: 3 }))));
    let literal = tree("7");
    let error = match_pattern(&literal, Type::Int(Var { id: 0 }), &mut scope).unwrap_err();
    assert_eq!(error.get_source(), "7");
    assert!(matches!(scope.get("x"), Some(Type::Bool(Var { id: 3 }))));
}

#[test]
fn names_matched_before_the_misfit_stay_defined() {
    let pattern = tree("(a, 1, b)");
    let ty = Type::Tuple(vec![
        Type::Int(Var { id: 0 }),
        Type::Int(Var { id: 1 }),
        Type::Int(Var { id: 2 }),
    ]);
    let mut scope = Scope::new();
    let error = match_pattern(&pattern, ty, &mut scope).unwrap_err();
    assert_eq!(error.get_type(), CompileErrorType::TypeError);
    assert_eq!(error.get_source(), "1");
    assert!(matches!(scope.get("a"), Some(Type::Int(Var { id: 0 }))));
    assert!(scope.get("b").is_none());
}

#[test]
fn tuple_pattern_of_another_length_leaves_the_scope() {
    let pattern = tree("(a, b)");
    let ty = Type::Tuple(vec![Type::Int(Var { id: 0 })]);
    let mut scope = Scope::new();
    let error = match_pattern(&pattern, ty, &mut scope).unwrap_err();
    assert_eq!(error.get_source(), "(a, b)");
    assert!(scope.get("a").is_none());
    assert!(scope.get("b").is_none());
}

#[test]
fn second_commit_of_an_equal_block_changes_nothing() {
    let mut function = Function::new();
    let mut cursor = function.new_block();
    let target = function.new_block();
    cursor.constant(4, &mut function);
    cursor.clone().branch(target.get_id(), &mut function);
    let once = shown(function.get_block(BlockId::entry()));
    assert!(function.get_block(BlockId::entry()).is_committed());
    cursor.clone().branch(target.get_id(), &mut function);
    assert_eq!(shown(function.get_block(BlockId::entry())), once);
    assert!(matches!(
        function.get_block(BlockId::entry()).get_exit_instruction(),
        ExitInstruction::Branch { block: BlockId { id: 1 } }
    ));
    assert_eq!(function.block_count(), 2);
    assert!(!function.get_block(target.get_id()).is_committed());
}

#[test]
fn later_commit_takes_the_place_of_the_earlier() {
    let mut function = Function::new();
    let cursor = function.new_block();
    cursor.clone().branch(BlockId::entry(), &mut function);
    cursor.ret(&mut function);
    assert!(matches!(
        function.get_block(BlockId::entry()).get_exit_instruction(),
        ExitInstruction::Return
    ));
}

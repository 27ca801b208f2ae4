use monoc::compiler::{compile_program, CompileErrorType};
use monoc::execute::VirtualMachine;
use monoc::ir::BlockId;
use monoc::parser::parse_source;

fn run(source: &str) -> String {
    let ast = match parse_source(source) {
        Ok(ast) => ast,
        Err(error) => panic!("parse error: {:?}", error),
    };
    assert!(ast.is_compilable());
    let compilation = match compile_program(&ast, 64) {
        Ok(compilation) => compilation,
        Err(error) => panic!("compile error: {:?}", error),
    };
    let mut vm = VirtualMachine::new(&compilation.program, compilation.entry);
    assert!(vm.execute(BlockId::entry(), 10_000));
    assert!(!compilation.ty.holds_function());
    vm.format_ty(&compilation.ty)
}

fn refuse(source: &str, depth: usize) -> (CompileErrorType, String) {
    let ast = match parse_source(source) {
        Ok(ast) => ast,
        Err(error) => panic!("parse error: {:?}", error),
    };
    assert!(ast.is_compilable());
    match compile_program(&ast, depth) {
        Ok(_) => panic!("compiled"),
        Err(error) => (error.get_type(), error.get_source().to_string()),
    }
}

#[test]
fn sum_of_two_literals() {
    assert_eq!(run("1 + 2"), "3");
}

#[test]
fn variable_used_twice() {
    assert_eq!(run("{ x = 5; x + x }"), "10");
}

#[test]
fn function_called_once() {
    assert_eq!(run("{ f = fn(x) { x + 1 }; f(41) }"), "42");
}

#[test]
fn tuple_reads_as_its_parts() {
    assert_eq!(run("{ p = (1, 2); p }"), "12");
}

#[test]
fn conditional_takes_the_body() {
    assert_eq!(run("if true { 7 } else { 9 }"), "7");
}

#[test]
fn conditional_takes_the_alternative() {
    assert_eq!(run("if false { 7 } else { 9 }"), "9");
}

#[test]
fn function_called_twice() {
    assert_eq!(run("{ g = fn(x) { x + x }; g(3) + g(4) }"), "14");
}

#[test]
fn function_called_twice_is_compiled_once() {
    let ast = parse_source("{ g = fn(x) { x + x }; g(3) + g(4) }").unwrap();
    let compilation = compile_program(&ast, 64).unwrap();
    assert_eq!(compilation.program.len(), 2);
    assert_eq!(compilation.impls.len(), 1);
    assert_eq!(compilation.impls.count(monoc::types::ImplsId { id: 0 }), 1);
}

#[test]
fn function_is_compiled_for_each_shape() {
    let source = "{ id = fn(x) { x }; (id(1), id(true), id(2)) }";
    assert_eq!(run(source), "1true2");
    let ast = parse_source(source).unwrap();
    let compilation = compile_program(&ast, 64).unwrap();
    assert_eq!(compilation.program.len(), 3);
    assert_eq!(compilation.impls.count(monoc::types::ImplsId { id: 0 }), 2);
}

#[test]
fn conditional_without_alternative_may_be_absent() {
    assert_eq!(run("if true { 7 }"), "some(7)");
    assert_eq!(run("if false { 7 }"), "none");
}

#[test]
fn sequence_separated_by_line_breaks() {
    assert_eq!(run("{\n  x = 5\n  y = 6\n  x + y\n}"), "11");
}

#[test]
fn sums_group_to_the_left() {
    assert_eq!(run("1 + 2 + 3 + 4"), "10");
}

#[test]
fn tuple_pattern_takes_a_tuple_apart() {
    assert_eq!(run("{ (a, b) = (1, 2); a + b }"), "3");
}

#[test]
fn function_of_a_tuple() {
    assert_eq!(run("{ add = fn(a, b) { a + b }; add(20, 22) }"), "42");
}

#[test]
fn named_function_is_bound_to_its_name() {
    assert_eq!(run("{ fn double(x) { x + x }; double(21) }"), "42");
}

#[test]
fn function_result_is_an_integer() {
    assert_eq!(run("(fn(x){x})(1) + 1"), "2");
}

#[test]
fn nested_conditionals_merge() {
    assert_eq!(run("if true { if false { 1 } else { 2 } } else { 3 }"), "2");
    assert_eq!(run("if false { if false { 1 } else { 2 } } else { 3 }"), "3");
}

#[test]
fn merged_tuples_merge_part_by_part() {
    assert_eq!(run("if false { (1, true) } else { (2, false) }"), "2false");
}

#[test]
fn sum_wraps_around() {
    assert_eq!(run("2147483647 + 1"), "-2147483648");
}

#[test]
fn sum_with_a_truth_value_is_a_type_error() {
    assert_eq!(refuse("1 + true", 64), (CompileErrorType::TypeError, "1 + true".to_string()));
}

#[test]
fn sum_with_a_function_result_that_is_no_integer_is_a_type_error() {
    assert_eq!(
        refuse("(fn(x){x})(true) + 1", 64),
        (CompileErrorType::TypeError, "(fn(x){x})(true) + 1".to_string())
    );
}

#[test]
fn call_of_what_is_no_function_is_a_type_error() {
    assert_eq!(refuse("{ x = 1; x(2) }", 64), (CompileErrorType::TypeError, "x(2)".to_string()));
}

#[test]
fn alternative_for_what_is_always_there_is_a_type_error() {
    assert_eq!(refuse("1 else { 2 }", 64), (CompileErrorType::TypeError, "1 else { 2 }".to_string()));
}

#[test]
fn alternative_of_another_shape_is_a_type_error() {
    assert_eq!(
        refuse("if true { 1 } else { true }", 64),
        (CompileErrorType::TypeError, "if true { 1 } else { true }".to_string())
    );
}

#[test]
fn condition_that_is_no_truth_value_is_a_type_error() {
    assert_eq!(refuse("if 1 { 2 }", 64), (CompileErrorType::TypeError, "if 1 { 2 }".to_string()));
}

#[test]
fn pattern_of_another_arity_is_a_type_error() {
    assert_eq!(
        refuse("{ (a, b) = (1, 2, 3); a }", 64),
        (CompileErrorType::TypeError, "(a, b)".to_string())
    );
    assert_eq!(refuse("{ (a, b) = 1; a }", 64), (CompileErrorType::TypeError, "(a, b)".to_string()));
}

#[test]
fn pattern_that_is_no_name_is_a_type_error() {
    assert_eq!(refuse("1 = 2", 64), (CompileErrorType::TypeError, "1".to_string()));
}

#[test]
fn unknown_name_is_undefined() {
    assert_eq!(refuse("x + 1", 64), (CompileErrorType::UndefinedVariable, "x".to_string()));
}

#[test]
fn function_body_sees_only_its_parameters() {
    assert_eq!(
        refuse("{ y = 1; f = fn(x) { x + y }; f(2) }", 64),
        (CompileErrorType::UndefinedVariable, "y".to_string())
    );
}

#[test]
fn function_that_calls_itself_reaches_the_limit() {
    assert_eq!(
        refuse("{ f = fn(g, x) { g(g, x) }; f(f, 1) }", 16),
        (CompileErrorType::LimitExceeded, "{ g(g, x) }".to_string())
    );
}

#[test]
fn no_function_is_compiled_at_depth_zero() {
    assert_eq!(
        refuse("{ f = fn(x) { x }; f(1) }", 0),
        (CompileErrorType::LimitExceeded, "f(1)".to_string())
    );
    let ast = parse_source("1 + 2").unwrap();
    assert!(compile_program(&ast, 0).is_ok());
}

#[test]
fn literal_out_of_range_is_not_compilable() {
    let ast = parse_source("2147483648").unwrap();
    assert!(!ast.is_compilable());
    let ast = parse_source("2147483647").unwrap();
    assert!(ast.is_compilable());
    let ast = parse_source("{ x = 1; fn f(y) { 99999999999 } }").unwrap();
    assert!(!ast.is_compilable());
}

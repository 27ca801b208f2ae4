use monoc::compiler::compile_program;
use monoc::ir::{Block, BlockId, ExitInstruction, Function, FunctionId, Instruction, Program, Var};
use monoc::parser::parse_source;

fn listing(source: &str) -> String {
    let ast = parse_source(source).unwrap();
    assert!(ast.is_compilable());
    compile_program(&ast, 64).unwrap().program.to_text()
}

#[test]
fn listing_of_a_sum() {
    assert_eq!(
        listing("1 + 2"),
        "f0 () -> r2\nmain:\n  r0 = 1\n  r1 = 2\n  r2 = r0 + r1\n  return\n\n"
    );
}

#[test]
fn listing_of_a_conditional() {
    assert_eq!(
        listing("if true { 7 } else { 9 }"),
        "f0 () -> r3\n\
         main:\n  r0 = 1\n  if r0 goto b1 else goto b2\n\
         b1:\n  r1 = 7\n  goto b2\n\
         b2:\n  if r0 goto b4 else goto b3\n\
         b3:\n  r2 = 9\n  goto b4\n\
         b4:\n  r3 = phi(r0, r1, r2)\n  return\n\n"
    );
}

#[test]
fn listing_of_a_call() {
    assert_eq!(
        listing("{ swap = fn(a, b) { (b, a) }; swap(1, 2) }"),
        "f0 (r0, r1) -> r1,r0\nmain:\n  return\n\n\
         f1 () -> r2,r3\nmain:\n  r0 = 1\n  r1 = 2\n  r2,r3 = call f0 (r0, r1)\n  return\n\n"
    );
}

#[test]
fn listing_of_a_function_without_results() {
    assert_eq!(
        listing("{ f = fn(x) { fn(y) { y } }; f(1) }"),
        "f0 (r0) -> \nmain:\n  return\n\nf1 () -> \nmain:\n  r0 = 1\n  call f0 (r0)\n  return\n\n"
    );
}

#[test]
fn listing_of_a_negative_constant() {
    let mut program = Program::new();
    let mut function = Function::new();
    let mut block = function.new_block();
    let low = block.constant(i32::MIN, &mut function);
    let minus = block.constant(-5, &mut function);
    let zero = block.constant(0, &mut function);
    assert_eq!((low.get_id(), minus.get_id(), zero.get_id()), (0, 1, 2));
    block.branch(BlockId { id: 10 }, &mut function);
    program.add_function(function);
    assert_eq!(
        program.to_text(),
        "f0 () -> \nmain:\n  r0 = -2147483648\n  r1 = -5\n  r2 = 0\n  goto b10\n\n"
    );
}

#[test]
fn empty_program_has_an_empty_listing() {
    assert_eq!(Program::new().to_text(), "");
}

#[test]
fn emitters_hand_out_new_variables() {
    let mut program = Program::new();
    let mut callee = Function::new();
    let p = callee.add_parameter();
    let q = callee.add_parameter();
    callee.add_return(q);
    callee.add_return(p);
    callee.add_return(q);
    let entry = callee.new_block();
    entry.ret(&mut callee);
    let callee_id = program.add_function(callee);
    assert_eq!(callee_id, FunctionId { id: 0 });

    let mut function = Function::new();
    let mut block = function.new_block();
    let other = function.new_block();
    assert_eq!(block.get_id(), BlockId::entry());
    assert_eq!(other.get_id(), BlockId { id: 1 });
    let a = block.constant(3, &mut function);
    let b = block.add(a, a, &mut function);
    let c = block.phi(a, b, a, &mut function);
    let dests = block.call(callee_id, vec![b, c], &program, &mut function);
    assert_eq!(dests, vec![Var { id: 3 }, Var { id: 4 }, Var { id: 5 }]);
    assert_eq!(function.get_variable_count(), 6);
    assert_eq!(block.get_instructions().len(), 4);
    assert!(matches!(
        block.get_instructions()[3],
        Instruction::Call { function: FunctionId { id: 0 }, .. }
    ));
    assert!(!block.is_committed());
    let copy: Block = block.clone();
    copy.conditional_branch(c, BlockId { id: 1 }, BlockId { id: 0 }, &mut function);
    assert!(function.get_block(BlockId::entry()).is_committed());
    assert!(!function.get_block(BlockId { id: 1 }).is_committed());
    assert_eq!(
        *function.get_block(BlockId::entry()).get_exit_instruction(),
        ExitInstruction::ConditionalBranch { cond: c, block1: BlockId { id: 1 }, block2: BlockId { id: 0 } }
    );
    other.ret(&mut function);
    assert_eq!(function.block_count(), 2);
    assert_eq!(function.get_params().len(), 0);
    assert_eq!(function.get_returns().len(), 0);
    let id = program.add_function(function);
    assert_eq!(id.get_id(), 1);
    assert_eq!(program.get_functions().len(), 2);
    assert_eq!(program.get_function(callee_id).get_params().len(), 2);
    assert_eq!(
        program.to_text(),
        "f0 (r0, r1) -> r1,r0,r1\nmain:\n  return\n\n\
         f1 () -> \nmain:\n  r0 = 3\n  r1 = r0 + r0\n  r2 = phi(r0, r1, r0)\n  \
         r3,r4,r5 = call f0 (r1, r2)\n  if r2 goto b1 else goto b0\nb1:\n  return\n\n"
    );
}

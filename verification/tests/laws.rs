use monoc::compiler::{compile_program, Compilation};
use monoc::ir::{BlockId, ExitInstruction, FunctionId, Instruction};
use monoc::parser::parse_source;
use monoc::types::ImplsId;

const SOURCES: [&str; 8] = [
    "1 + 2",
    "{ x = 5; x + x }",
    "{ f = fn(x) { x + 1 }; f(41) }",
    "{ p = (1, 2); p }",
    "if true { 7 } else { 9 }",
    "{ g = fn(x) { x + x }; g(3) + g(4) }",
    "{ id = fn(x) { x }; twice = fn(f, x) { f(f(x)) }; (twice(id, 1), twice(id, true), id(2)) }",
    "{ c = true; m = if c { (1, if false { 2 }) }; n = m else { (3, if c { 4 }) }; n }",
];

fn with_each(check: fn(&Compilation)) {
    for source in SOURCES {
        let ast = parse_source(source).unwrap();
        assert!(ast.is_compilable());
        let compilation = compile_program(&ast, 64).unwrap();
        check(&compilation);
    }
}

#[test]
fn every_variable_is_written_once() {
    with_each(|compilation| {
        for function in compilation.program.get_functions() {
            let mut written = vec![0; function.get_variable_count()];
            for var in function.get_params() {
                written[var.get_id()] += 1;
            }
            for b in 0..function.block_count() {
                for inst in function.get_block(BlockId { id: b }).get_instructions() {
                    match inst {
                        Instruction::AddInt { dest, .. }
                        | Instruction::ConstantInt { dest, .. }
                        | Instruction::Phi { dest, .. } => written[dest.get_id()] += 1,
                        Instruction::Call { returns, .. } => {
                            for dest in returns {
                                written[dest.get_id()] += 1;
                            }
                        }
                    }
                }
            }
            assert!(written.iter().all(|count| *count == 1));
        }
    });
}

#[test]
fn every_variable_is_written_before_it_is_read_in_its_block() {
    with_each(|compilation| {
        for function in compilation.program.get_functions() {
            for b in 0..function.block_count() {
                let mut later: Vec<usize> = Vec::new();
                for inst in function.get_block(BlockId { id: b }).get_instructions().iter().rev() {
                    let (reads, writes): (Vec<usize>, Vec<usize>) = match inst {
                        Instruction::AddInt { dest, a, b } => {
                            (vec![a.get_id(), b.get_id()], vec![dest.get_id()])
                        }
                        Instruction::ConstantInt { dest, .. } => (vec![], vec![dest.get_id()]),
                        Instruction::Phi { dest, cond, a, b } => {
                            (vec![cond.get_id(), a.get_id(), b.get_id()], vec![dest.get_id()])
                        }
                        Instruction::Call { args, returns, .. } => (
                            args.iter().map(|v| v.get_id()).collect(),
                            returns.iter().map(|v| v.get_id()).collect(),
                        ),
                    };
                    later.extend(writes);
                    assert!(reads.iter().all(|read| !later.contains(read)));
                }
            }
        }
    });
}

#[test]
fn every_call_fits_its_callee() {
    with_each(|compilation| {
        let program = &compilation.program;
        let mut calls = 0;
        for function in program.get_functions() {
            for b in 0..function.block_count() {
                for inst in function.get_block(BlockId { id: b }).get_instructions() {
                    if let Instruction::Call { function: callee, args, returns } = inst {
                        assert!(callee.get_id() < program.len());
                        let callee = program.get_function(*callee);
                        assert_eq!(args.len(), callee.get_params().len());
                        assert_eq!(returns.len(), callee.get_returns().len());
                        calls += 1;
                    }
                }
            }
        }
        assert!(calls > 0 || program.len() == 1);
    });
}

#[test]
fn every_block_is_closed_by_an_exit_that_names_blocks_of_its_function() {
    with_each(|compilation| {
        for function in compilation.program.get_functions() {
            assert!(function.block_count() > 0);
            for b in 0..function.block_count() {
                let block = function.get_block(BlockId { id: b });
                assert!(block.is_committed());
                assert_eq!(block.get_id(), BlockId { id: b });
                match block.get_exit_instruction() {
                    ExitInstruction::Return => {}
                    ExitInstruction::Branch { block } => {
                        assert!(block.get_id() < function.block_count())
                    }
                    ExitInstruction::ConditionalBranch { cond, block1, block2 } => {
                        assert!(cond.get_id() < function.get_variable_count());
                        assert!(block1.get_id() < function.block_count());
                        assert!(block2.get_id() < function.block_count());
                    }
                }
            }
        }
    });
}

#[test]
fn no_function_has_two_implementations_for_one_shape() {
    with_each(|compilation| {
        let table = &compilation.impls;
        for c in 0..table.len() {
            let cell = ImplsId { id: c };
            for i in 0..table.count(cell) {
                for j in 0..i {
                    assert!(!table.get(cell, i).param_ty.equals(&table.get(cell, j).param_ty));
                }
                let imp = table.get(cell, i);
                let entry = compilation.program.get_function(imp.entry);
                assert_eq!(entry.get_params().len(), imp.param_ty.size());
                assert_eq!(entry.get_returns().len(), imp.return_ty.size());
            }
        }
    });
}

#[test]
fn the_value_of_the_program_is_computed_by_its_last_function() {
    with_each(|compilation| {
        assert_eq!(compilation.entry, FunctionId { id: compilation.program.len() - 1 });
        let main = compilation.program.get_function(compilation.entry);
        assert_eq!(main.get_params().len(), 0);
        assert_eq!(*main.get_returns(), compilation.ty.vars());
    });
}

#[test]
fn names_defined_in_a_body_that_is_not_run_stand_for_zero() {
    let run = |source: &str| -> String {
        let ast = parse_source(source).unwrap();
        let compilation = compile_program(&ast, 64).unwrap();
        let mut vm =
            monoc::execute::VirtualMachine::new(&compilation.program, compilation.entry);
        assert!(vm.execute(BlockId::entry(), 1000));
        vm.format_ty(&compilation.ty)
    };
    assert_eq!(run("{ if false { x = 5 }; x + 1 }"), "1");
    assert_eq!(run("{ if true { x = 5 }; x + 1 }"), "6");
    assert_eq!(run("{ c = true; if false { m = if c { 1 } }; m }"), "some(0)");
    assert_eq!(run("{ f = fn(x) { x + 1 }; if false { y = f(1) }; y }"), "0");
    assert_eq!(run("{ y = 5; if false { z = y }; z }"), "5");
}

#[test]
fn programs_without_branches_have_functions_of_one_block() {
    for source in &SOURCES[..4] {
        let ast = parse_source(source).unwrap();
        assert!(ast.is_compilable());
        let compilation = compile_program(&ast, 64).unwrap();
        for function in compilation.program.get_functions() {
            assert_eq!(function.block_count(), 1);
        }
    }
    let ast = parse_source(SOURCES[4]).unwrap();
    let compilation = compile_program(&ast, 64).unwrap();
    assert_eq!(compilation.program.get_functions()[0].block_count(), 5);
}

#[test]
fn in_a_function_of_one_block_every_variable_is_defined_before_it_is_read() {
    for source in &SOURCES[..4] {
        let ast = parse_source(source).unwrap();
        let compilation = compile_program(&ast, 64).unwrap();
        for function in compilation.program.get_functions() {
            let mut defined = vec![false; function.get_variable_count()];
            for var in function.get_params() {
                defined[var.get_id()] = true;
            }
            for inst in function.get_block(BlockId::entry()).get_instructions() {
                match inst {
                    Instruction::AddInt { dest, a, b } => {
                        assert!(defined[a.get_id()] && defined[b.get_id()]);
                        defined[dest.get_id()] = true;
                    }
                    Instruction::ConstantInt { dest, .. } => defined[dest.get_id()] = true,
                    Instruction::Phi { dest, cond, a, b } => {
                        assert!(defined[cond.get_id()] && defined[a.get_id()]);
                        assert!(defined[b.get_id()]);
                        defined[dest.get_id()] = true;
                    }
                    Instruction::Call { args, returns, .. } => {
                        assert!(args.iter().all(|arg| defined[arg.get_id()]));
                        for dest in returns {
                            defined[dest.get_id()] = true;
                        }
                    }
                }
            }
            assert!(function.get_returns().iter().all(|var| defined[var.get_id()]));
            assert!(defined.iter().all(|done| *done));
        }
    }
}

#[test]
fn variable_written_in_a_body_is_read_behind_it() {
    let ast = parse_source("{ if false { x = 5 }; x + 1 }").unwrap();
    let compilation = compile_program(&ast, 64).unwrap();
    let function = &compilation.program.get_functions()[0];
    let body = function.get_block(BlockId { id: 1 }).get_instructions();
    assert!(matches!(body[0], Instruction::ConstantInt { constant: 5, .. }));
    let written = match body[0] {
        Instruction::ConstantInt { dest, .. } => dest,
        _ => panic!("no constant"),
    };
    let behind = function.get_block(BlockId { id: 2 }).get_instructions();
    assert!(behind.iter().any(|inst| matches!(inst, Instruction::AddInt { a, .. } if *a == written)));
    assert!(matches!(
        function.get_block(BlockId::entry()).get_exit_instruction(),
        ExitInstruction::ConditionalBranch { block1: BlockId { id: 1 }, block2: BlockId { id: 2 }, .. }
    ));
}

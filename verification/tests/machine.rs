use monoc::compiler::compile_program;
use monoc::execute::{vars_within, VirtualMachine};
use monoc::ir::{BlockId, Function, Program, Var};
use monoc::parser::parse_source;
use monoc::register_allocator::{
    block_order, build_interference_graph, count_uses_in_block, count_uses_in_function, init_var,
    interference_graphs, use_var, Graph,
};
use monoc::types::Type;

fn compiled(source: &str) -> Program {
    let ast = parse_source(source).unwrap();
    assert!(ast.is_compilable());
    compile_program(&ast, 64).unwrap().program
}

fn nodes(graph: &Graph) -> Vec<(usize, Vec<usize>)> {
    let mut out = Vec::new();
    let mut cur = graph;
    loop {
        match cur {
            Graph::Empty => break,
            Graph::Node { var, next, interference } => {
                let mut with: Vec<usize> = interference.iter().map(|v| v.get_id()).collect();
                with.sort();
                out.push((var.get_id(), with));
                cur = next;
            }
        }
    }
    out.reverse();
    out
}

#[test]
fn machine_starts_with_registers_at_zero() {
    let program = compiled("1 + 2");
    let vm = VirtualMachine::new(&program, monoc::ir::FunctionId { id: 0 });
    for id in 0..3 {
        assert_eq!(vm.get_register(Var { id }), 0);
    }
}

#[test]
fn registers_keep_what_is_set() {
    let program = compiled("1 + 2");
    let mut vm = VirtualMachine::new(&program, monoc::ir::FunctionId { id: 0 });
    vm.set_register(Var { id: 1 }, -77);
    assert_eq!(vm.get_register(Var { id: 0 }), 0);
    assert_eq!(vm.get_register(Var { id: 1 }), -77);
    assert_eq!(vm.format_ty(&Type::Int(Var { id: 1 })), "-77");
}

#[test]
fn values_read_as_their_type_says() {
    let program = compiled("{ a = 1; b = 2; c = 3; d = 4 }");
    let mut vm = VirtualMachine::new(&program, monoc::ir::FunctionId { id: 0 });
    vm.set_register(Var { id: 0 }, 1);
    vm.set_register(Var { id: 1 }, 2);
    vm.set_register(Var { id: 2 }, -3);
    let v = |id| Var { id };
    assert_eq!(vm.format_ty(&Type::Bool(v(0))), "true");
    assert_eq!(vm.format_ty(&Type::Bool(v(1))), "false");
    assert_eq!(vm.format_ty(&Type::Bool(v(3))), "false");
    assert_eq!(vm.format_ty(&Type::Maybe(v(0), Box::new(Type::Int(v(2))))), "some(-3)");
    assert_eq!(vm.format_ty(&Type::Maybe(v(1), Box::new(Type::Int(v(2))))), "some(-3)");
    assert_eq!(vm.format_ty(&Type::Maybe(v(3), Box::new(Type::Int(v(2))))), "none");
    assert_eq!(vm.format_ty(&Type::Tuple(vec![])), "");
    assert_eq!(
        vm.format_ty(&Type::Tuple(vec![
            Type::Int(v(1)),
            Type::Maybe(v(2), Box::new(Type::Bool(v(0)))),
            Type::Int(v(2)),
        ])),
        "2some(true)-3"
    );
}

#[test]
fn every_block_takes_one_unit_of_fuel() {
    let program = compiled("if true { 7 } else { 9 }");
    let entry = monoc::ir::FunctionId { id: 0 };
    for fuel in 0..4 {
        let mut vm = VirtualMachine::new(&program, entry);
        assert!(!vm.execute(BlockId::entry(), fuel));
    }
    let mut vm = VirtualMachine::new(&program, entry);
    assert!(vm.execute(BlockId::entry(), 4));
    assert_eq!(vm.get_register(Var { id: 3 }), 7);
}

#[test]
fn call_takes_fuel_from_its_caller() {
    let program = compiled("{ f = fn(x) { x + 1 }; f(f(40)) }");
    let entry = monoc::ir::FunctionId { id: 1 };
    let mut vm = VirtualMachine::new(&program, entry);
    assert!(!vm.execute(BlockId::entry(), 1));
    let mut vm = VirtualMachine::new(&program, entry);
    assert!(vm.execute(BlockId::entry(), 2));
    assert_eq!(vm.get_register(Var { id: 2 }), 42);
}

#[test]
fn loop_runs_out_of_fuel() {
    let mut program = Program::new();
    let mut function = Function::new();
    let mut block = function.new_block();
    let one = block.constant(1, &mut function);
    block.add(one, one, &mut function);
    block.branch(BlockId::entry(), &mut function);
    let entry = program.add_function(function);
    let mut vm = VirtualMachine::new(&program, entry);
    assert!(!vm.execute(BlockId::entry(), 1000));
    assert_eq!(vm.get_register(Var { id: 1 }), 2);
}

#[test]
fn execution_starts_at_any_block() {
    let program = compiled("if true { 7 } else { 9 }");
    let mut vm = VirtualMachine::new(&program, monoc::ir::FunctionId { id: 0 });
    assert!(vm.execute(BlockId { id: 3 }, 10));
    assert_eq!(vm.get_register(Var { id: 2 }), 9);
    assert_eq!(vm.get_register(Var { id: 3 }), 9);
}

#[test]
fn blocks_are_walked_before_what_they_lead_to() {
    let program = compiled("if true { 7 } else { 9 }");
    let order: Vec<usize> =
        block_order(program.get_function(monoc::ir::FunctionId { id: 0 })).iter().map(|b| b.get_id()).collect();
    assert_eq!(order, vec![0, 1, 2, 3, 4]);
}

#[test]
fn blocks_out_of_reach_are_not_walked() {
    let mut function = Function::new();
    let first = function.new_block();
    let second = function.new_block();
    let third = function.new_block();
    first.branch(BlockId { id: 2 }, &mut function);
    second.ret(&mut function);
    third.branch(BlockId { id: 2 }, &mut function);
    let order: Vec<usize> = block_order(&function).iter().map(|b| b.get_id()).collect();
    assert_eq!(order, vec![0, 2]);
    assert_eq!(block_order(&Function::new()).len(), 0);
}

#[test]
fn uses_are_counted_over_the_walk() {
    let program = compiled("if true { 7 } else { 9 }");
    let function = program.get_function(monoc::ir::FunctionId { id: 0 });
    assert_eq!(count_uses_in_function(function), vec![3, 1, 1, 1]);
    let program = compiled("{ x = 1; x + x + x }");
    let function = program.get_function(monoc::ir::FunctionId { id: 0 });
    assert_eq!(count_uses_in_function(function), vec![3, 1, 1]);
}

#[test]
fn uses_of_one_block_are_added() {
    let program = compiled("if true { 7 } else { 9 }");
    let function = program.get_function(monoc::ir::FunctionId { id: 0 });
    let mut uses = vec![10, 20, 30, usize::MAX];
    count_uses_in_block(function.get_block(BlockId { id: 4 }), &mut uses);
    assert_eq!(uses, vec![11, 21, 31, usize::MAX]);
    count_uses_in_block(function.get_block(BlockId { id: 0 }), &mut uses);
    assert_eq!(uses, vec![12, 21, 31, usize::MAX]);
}

#[test]
fn variable_is_alive_until_its_last_use() {
    let program = compiled("{ x = 1; y = 2; z = x + y; z + x }");
    let function = program.get_function(monoc::ir::FunctionId { id: 0 });
    let graph = build_interference_graph(function);
    assert_eq!(
        nodes(&graph),
        vec![(0, vec![]), (1, vec![0]), (2, vec![0, 1]), (3, vec![0, 2])]
    );
}

#[test]
fn returned_variable_stays_alive() {
    let program = compiled("{ x = 1; y = 2; x }");
    let graphs = interference_graphs(&program);
    assert_eq!(graphs.len(), 1);
    assert_eq!(nodes(&graphs[0]), vec![(0, vec![]), (1, vec![0])]);
}

#[test]
fn graph_of_a_call() {
    let program = compiled("{ swap = fn(a, b) { (b, a) }; swap(1, 2) }");
    let graphs = interference_graphs(&program);
    assert_eq!(nodes(&graphs[0]), vec![]);
    assert_eq!(nodes(&graphs[1]), vec![(0, vec![]), (1, vec![0]), (2, vec![]), (3, vec![2])]);
}

#[test]
fn init_var_interferes_with_what_is_alive() {
    let mut live = vec![Var { id: 4 }, Var { id: 2 }];
    let graph = init_var(Var { id: 7 }, &mut live, Graph::Empty);
    assert_eq!(live, vec![Var { id: 4 }, Var { id: 2 }, Var { id: 7 }]);
    let graph = init_var(Var { id: 8 }, &mut live, graph);
    assert_eq!(nodes(&graph), vec![(7, vec![2, 4]), (8, vec![2, 4, 7])]);
}

#[test]
fn use_var_ends_a_variable_at_its_last_use() {
    let mut live = vec![Var { id: 0 }, Var { id: 1 }, Var { id: 2 }, Var { id: 1 }];
    let mut uses = vec![1, 2, 0];
    use_var(Var { id: 1 }, &mut live, &mut uses);
    assert_eq!(uses, vec![1, 1, 0]);
    assert_eq!(live.len(), 4);
    use_var(Var { id: 1 }, &mut live, &mut uses);
    assert_eq!(uses, vec![1, 0, 0]);
    let mut left: Vec<usize> = live.iter().map(|v| v.get_id()).collect();
    left.sort();
    assert_eq!(left, vec![0, 2]);
    use_var(Var { id: 2 }, &mut live, &mut uses);
    use_var(Var { id: 1 }, &mut live, &mut uses);
    assert_eq!(uses, vec![1, 0, 0]);
    assert_eq!(live.len(), 2);
}

#[test]
fn compiled_programs_can_be_run() {
    for source in ["1 + 2", "{ f = fn(x) { x + 1 }; f(41) }", "if true { 7 } else { 9 }"] {
        assert!(compiled(source).is_runnable());
    }
    assert!(Program::new().is_runnable());
}

#[test]
fn program_that_names_what_it_does_not_have_cannot_be_run() {
    let mut program = Program::new();
    program.add_function(Function::new());
    assert!(!program.is_runnable());

    let mut program = Program::new();
    let mut function = Function::new();
    let mut block = function.new_block();
    block.constant(1, &mut function);
    block.branch(BlockId { id: 3 }, &mut function);
    program.add_function(function);
    assert!(!program.is_runnable());

    let mut program = Program::new();
    let mut function = Function::new();
    let mut block = function.new_block();
    let one = block.constant(1, &mut function);
    block.add(one, Var { id: 9 }, &mut function);
    block.ret(&mut function);
    program.add_function(function);
    assert!(!program.is_runnable());

    let mut program = Program::new();
    let mut function = Function::new();
    function.add_return(Var { id: 0 });
    let block = function.new_block();
    block.ret(&mut function);
    program.add_function(function);
    assert!(!program.is_runnable());
}

#[test]
fn call_that_does_not_fit_cannot_be_run() {
    let mut program = Program::new();
    let mut callee = Function::new();
    callee.add_parameter();
    let entry = callee.new_block();
    entry.ret(&mut callee);
    let callee = program.add_function(callee);
    let mut caller = Function::new();
    let mut block = caller.new_block();
    let one = block.constant(1, &mut caller);
    block.call(callee, vec![one], &program, &mut caller);
    block.clone().ret(&mut caller);
    let mut fits = Program::new();
    let mut same = Function::new();
    same.add_parameter();
    let entry = same.new_block();
    entry.ret(&mut same);
    fits.add_function(same);
    fits.add_function(caller);
    assert!(fits.is_runnable());

    let mut other = Program::new();
    let mut narrow = Function::new();
    let entry = narrow.new_block();
    entry.ret(&mut narrow);
    other.add_function(narrow);
    let mut caller = Function::new();
    let mut block = caller.new_block();
    let one = block.constant(1, &mut caller);
    block.call(callee, vec![one], &program, &mut caller);
    block.ret(&mut caller);
    other.add_function(caller);
    assert!(!other.is_runnable());
}

#[test]
fn variables_are_held_against_a_count() {
    assert!(vars_within(&vec![Var { id: 0 }, Var { id: 2 }], 3));
    assert!(!vars_within(&vec![Var { id: 0 }, Var { id: 3 }], 3));
    assert!(vars_within(&Vec::new(), 0));
}

use monoc::ast::{BinaryOp, Expr, Parsed};
use monoc::ir::{Function, FunctionId, Var};
use monoc::literal::parse_int;
use monoc::parser::parse_source;
use monoc::position::Position;
use monoc::scope::{same_text, Scope, ScopeNode};
use monoc::text::{push_count, push_digits, push_int};
use monoc::types::{Implementation, ImplsId, Type};

fn line_and_column(pos: Position) -> (i32, i32) {
    (pos.line(), pos.column())
}

#[test]
fn position_starts_at_line_one_column_one() {
    let pos = Position::from_source("ab");
    assert_eq!(line_and_column(pos), (1, 1));
    assert_eq!(pos.len(), 2);
    assert_eq!(line_and_column(Position::new(7, 9, "x")), (7, 9));
}

#[test]
fn position_moves_by_one_character() {
    let pos = Position::from_source("a\nßc");
    let (pos, ch) = pos.next().unwrap();
    assert_eq!((ch, line_and_column(pos), pos.len()), ('a', (1, 2), 4));
    let (pos, ch) = pos.next().unwrap();
    assert_eq!((ch, line_and_column(pos), pos.len()), ('\n', (2, 0), 3));
    let (pos, ch) = pos.next().unwrap();
    assert_eq!((ch, line_and_column(pos), pos.len()), ('ß', (2, 1), 1));
    let (pos, ch) = pos.next().unwrap();
    assert_eq!((ch, line_and_column(pos), pos.len()), ('c', (2, 2), 0));
    assert!(pos.next().is_none());
}

#[test]
fn position_counters_stay_at_the_largest_value() {
    let pos = Position::new(i32::MAX, i32::MAX, "a\n");
    let (pos, _) = pos.next().unwrap();
    assert_eq!(line_and_column(pos), (i32::MAX, i32::MAX));
    let (pos, _) = pos.next().unwrap();
    assert_eq!(line_and_column(pos), (i32::MAX, 0));
}

#[test]
fn slice_is_the_text_between_two_positions() {
    let start = Position::from_source("größer als");
    let end = start.next_while(|ch| ch != ' ');
    assert_eq!(Position::slice(start, end), "größer");
    assert_eq!(Position::slice(end, end), "");
    assert_eq!(Position::slice(start, start.next_while(|_| true)), "größer als");
}

#[test]
fn len_counts_bytes() {
    let start = Position::from_source("a\nßc");
    assert_eq!(start.len(), 5);
    assert_eq!(Position::from_source("€").len(), 3);
    assert_eq!(Position::from_source("𝄞").len(), 4);
    assert_eq!(Position::from_source("").len(), 0);
    let (behind, ch) = Position::from_source("ßa").next().unwrap();
    assert_eq!(behind.len(), 3 - ch.len_utf8());
}

#[test]
fn slice_has_as_many_bytes_as_lie_between_the_positions() {
    let start = Position::from_source("ßa𝄞");
    let (second, _) = start.next().unwrap();
    let (third, _) = second.next().unwrap();
    let (end, _) = third.next().unwrap();
    assert_eq!(Position::slice(start, second), "ß");
    assert_eq!(Position::slice(start, second).len(), start.len() - second.len());
    assert_eq!(Position::slice(start, third), "ßa");
    assert_eq!(Position::slice(second, end), "a𝄞");
    assert_eq!(Position::slice(second, end).len(), second.len() - end.len());
    assert_eq!(Position::slice(start, end).len(), 7);
}

#[test]
fn positions_enclose_a_text_where_the_difference_is_a_boundary() {
    let start = Position::from_source("ßa");
    let (end, _) = start.next().unwrap();
    assert!(Position::encloses(start, end));
    assert!(Position::encloses(start, start));
    assert!(!Position::encloses(end, start));
    let other = Position::from_source("bb");
    assert!(!Position::encloses(start, other));
    let mixed = Position::from_source("aß");
    assert!(Position::encloses(mixed, other));
    assert_eq!(Position::slice(mixed, other), "a");
}

#[test]
fn next_while_stops_at_the_first_other_character() {
    let start = Position::from_source("aaab");
    let end = start.next_while(|ch| ch == 'a');
    assert_eq!(end.len(), 1);
    assert_eq!(line_and_column(end), (1, 4));
    assert_eq!(start.next_while(|ch| ch == 'b').len(), 4);
    assert_eq!(start.next_while(|_| true).len(), 0);
}

#[test]
fn parsed_keeps_start_and_end() {
    let start = Position::from_source("abc");
    let end = start.next().unwrap().0.next().unwrap().0;
    let parsed = Parsed::new(start, end, 5u8);
    assert_eq!(parsed.start().len(), 3);
    assert_eq!(parsed.end().len(), 1);
    assert_eq!(parsed.get_source(), "ab");
    assert_eq!(*parsed.get_node(), 5);
    assert_eq!(parsed.node, 5);
}

#[test]
fn new_binary_spans_both_operands() {
    let source = "a+b";
    let start = Position::from_source(source);
    let plus = start.next().unwrap().0;
    let b = plus.next().unwrap().0;
    let end = b.next().unwrap().0;
    let left = Parsed::new(start, plus, Expr::Ident("a"));
    let right = Parsed::new(b, end, Expr::Ident("b"));
    let sum = Expr::new_binary(left, right, BinaryOp::Plus);
    assert_eq!(sum.get_source(), "a+b");
    assert!(matches!(sum.node, Expr::Binary { op: BinaryOp::Plus, .. }));
}

#[test]
fn new_tuple_continues_a_tuple() {
    let pos = Position::from_source("");
    let item = |name| Parsed::new(pos, pos, Expr::Ident(name));
    let pair = Expr::new_tuple(item("a"), item("b"));
    let triple = Expr::new_tuple(pair, item("c"));
    match &triple.node {
        Expr::Tuple { exprs } => {
            assert_eq!(exprs.len(), 3);
            assert!(matches!(exprs[0].node, Expr::Ident("a")));
            assert!(matches!(exprs[1].node, Expr::Ident("b")));
            assert!(matches!(exprs[2].node, Expr::Ident("c")));
        }
        _ => panic!("no tuple"),
    }
}

#[test]
fn new_block_continues_a_block() {
    let pos = Position::from_source("");
    let item = |name| Parsed::new(pos, pos, Expr::Ident(name));
    let two = Expr::new_block(item("a"), item("b"));
    let three = Expr::new_block(two, item("c"));
    match &three.node {
        Expr::Block { exprs, last } => {
            assert_eq!(exprs.len(), 2);
            assert!(matches!(exprs[0].node, Expr::Ident("a")));
            assert!(matches!(exprs[1].node, Expr::Ident("b")));
            assert!(matches!(last.node, Expr::Ident("c")));
        }
        _ => panic!("no block"),
    }
}

#[test]
fn tree_with_end_before_start_is_not_compilable() {
    let start = Position::from_source("ab");
    let end = start.next().unwrap().0;
    assert!(Parsed::new(start, end, Expr::Ident("a")).is_compilable());
    assert!(!Parsed::new(end, start, Expr::Ident("a")).is_compilable());
    let inner = Parsed::new(end, start, Expr::Ident("a"));
    let outer = Parsed::new(start, end, Expr::Tuple { exprs: vec![inner] });
    assert!(!outer.is_compilable());
    let empty: Vec<Parsed<Expr>> = Vec::new();
    assert!(Parsed::all_compilable(&empty));
}

#[test]
fn literals_of_signed_32_bit_integers() {
    assert_eq!(parse_int("0"), Some(0));
    assert_eq!(parse_int("007"), Some(7));
    assert_eq!(parse_int("2147483647"), Some(i32::MAX));
    assert_eq!(parse_int("2147483648"), None);
    assert_eq!(parse_int("-2147483648"), Some(i32::MIN));
    assert_eq!(parse_int("-2147483649"), None);
    assert_eq!(parse_int("+15"), Some(15));
    assert_eq!(parse_int("-15"), Some(-15));
    assert_eq!(parse_int("99999999999999999999999"), None);
    assert_eq!(parse_int(""), None);
    assert_eq!(parse_int("-"), None);
    assert_eq!(parse_int("+"), None);
    assert_eq!(parse_int("12a"), None);
    assert_eq!(parse_int("1 2"), None);
    assert_eq!(parse_int("٣"), None);
}

#[test]
fn numbers_are_written_in_decimal() {
    let mut out = String::from("n=");
    push_int(&mut out, 0);
    out.push(' ');
    push_int(&mut out, -40);
    out.push(' ');
    push_int(&mut out, i32::MAX);
    out.push(' ');
    push_int(&mut out, i32::MIN);
    out.push(' ');
    push_count(&mut out, 1234567890);
    out.push(' ');
    push_digits(&mut out, u64::MAX);
    assert_eq!(out, "n=0 -40 2147483647 -2147483648 1234567890 18446744073709551615");
}

#[test]
fn written_numbers_are_read_back() {
    for value in [0, 1, -1, 9, 10, -10, 12345, i32::MAX, i32::MIN] {
        let mut out = String::new();
        push_int(&mut out, value);
        assert_eq!(parse_int(&out), Some(value));
    }
}

#[test]
fn texts_are_compared_by_their_characters() {
    assert!(same_text("else", "else"));
    assert!(!same_text("else", "els"));
    assert!(!same_text("a", "b"));
    assert!(same_text("", ""));
}

fn shapes<'a, 'b>() -> Vec<Type<'a, 'b>> {
    vec![
        Type::Int(Var { id: 3 }),
        Type::Bool(Var { id: 4 }),
        Type::Maybe(Var { id: 5 }, Box::new(Type::Int(Var { id: 6 }))),
        Type::Tuple(vec![]),
        Type::Tuple(vec![Type::Int(Var { id: 7 }), Type::Bool(Var { id: 8 })]),
        Type::Tuple(vec![
            Type::Maybe(Var { id: 9 }, Box::new(Type::Tuple(vec![Type::Int(Var { id: 10 })]))),
            Type::Tuple(vec![Type::Bool(Var { id: 11 })]),
            Type::Int(Var { id: 12 }),
        ]),
    ]
}

fn ids(vars: &Vec<Var>) -> Vec<usize> {
    vars.iter().map(|var| var.get_id()).collect()
}

#[test]
fn size_counts_the_variables() {
    let sizes: Vec<usize> = shapes().iter().map(|ty| ty.size()).collect();
    assert_eq!(sizes, vec![1, 1, 2, 0, 2, 4]);
}

#[test]
fn vars_go_through_the_type_from_left_to_right() {
    let all = shapes();
    assert_eq!(ids(&all[2].vars()), vec![5, 6]);
    assert_eq!(ids(&all[3].vars()), Vec::<usize>::new());
    assert_eq!(ids(&all[5].vars()), vec![9, 10, 11, 12]);
}

#[test]
fn type_has_as_many_variables_as_its_size() {
    for ty in shapes() {
        assert_eq!(ty.vars().len(), ty.size());
    }
}

#[test]
fn mapping_a_type_to_its_own_variables_changes_nothing() {
    for ty in shapes() {
        let mapped = ty.map_to(&ty.vars());
        assert!(mapped.equals(&ty));
        assert_eq!(ids(&mapped.vars()), ids(&ty.vars()));
    }
}

#[test]
fn map_to_takes_the_first_variables() {
    let all = shapes();
    let fresh: Vec<Var> = (100..110).map(|id| Var { id }).collect();
    let mapped = all[5].map_to(&fresh);
    assert!(mapped.equals(&all[5]));
    assert_eq!(ids(&mapped.vars()), vec![100, 101, 102, 103]);
    match mapped {
        Type::Tuple(parts) => {
            assert!(matches!(parts[2], Type::Int(Var { id: 103 })));
            assert!(matches!(parts[0], Type::Maybe(Var { id: 100 }, _)));
        }
        _ => panic!("no tuple"),
    }
}

#[test]
fn equals_compares_shapes_only() {
    let all = shapes();
    for (i, a) in all.iter().enumerate() {
        for (j, b) in all.iter().enumerate() {
            assert_eq!(a.equals(b), i == j);
        }
    }
    assert!(Type::Int(Var { id: 1 }).equals(&Type::Int(Var { id: 2 })));
    assert!(Type::Int(Var { id: 1 }) == Type::Int(Var { id: 2 }));
    assert!(Type::Int(Var { id: 1 }) != Type::Bool(Var { id: 1 }));
    let maybe_int = Type::Maybe(Var { id: 1 }, Box::new(Type::Int(Var { id: 2 })));
    let maybe_bool = Type::Maybe(Var { id: 1 }, Box::new(Type::Bool(Var { id: 2 })));
    assert!(!maybe_int.equals(&maybe_bool));
}

#[test]
fn functions_are_alike_if_they_are_the_same() {
    let ast = parse_source("fn (x) { x }").unwrap();
    let (pattern, body) = match &ast.node {
        Expr::Func { pattern, expr, .. } => (&**pattern, &**expr),
        _ => panic!("no function"),
    };
    let f = Type::Func { pattern, expr: body, impls: ImplsId { id: 0 } };
    let g = Type::Func { pattern, expr: body, impls: ImplsId { id: 1 } };
    assert!(f.equals(&f.clone()));
    assert!(!f.equals(&g));
    assert_eq!(f.size(), 0);
    assert!(f.holds_function());
    assert!(Type::Tuple(vec![Type::Int(Var { id: 0 }), g]).holds_function());
    assert!(!shapes().iter().any(|ty| ty.holds_function()));
}

#[test]
fn clone_keeps_shape_and_variables() {
    for ty in shapes() {
        let copy = ty.clone();
        assert!(copy.equals(&ty));
        assert_eq!(ids(&copy.vars()), ids(&ty.vars()));
    }
}

#[test]
fn duplicate_takes_new_variables() {
    let mut function = Function::new();
    function.new_variable();
    function.new_variable();
    let all = shapes();
    let copy = all[5].duplicate(&mut function);
    assert!(copy.equals(&all[5]));
    assert_eq!(ids(&copy.vars()), vec![2, 3, 4, 5]);
    assert_eq!(function.get_variable_count(), 6);
    assert_eq!(function.get_params().len(), 0);
}

#[test]
fn as_parameter_declares_parameters() {
    let mut function = Function::new();
    let all = shapes();
    let param = all[4].as_parameter(&mut function);
    assert!(param.equals(&all[4]));
    assert_eq!(ids(&param.vars()), vec![0, 1]);
    assert_eq!(ids(function.get_params()), vec![0, 1]);
    assert_eq!(function.get_variable_count(), 2);
}

#[test]
fn ret_declares_return_variables() {
    let mut function = Function::new();
    let all = shapes();
    all[5].ret(&mut function);
    all[0].ret(&mut function);
    assert_eq!(ids(function.get_returns()), vec![9, 10, 11, 12, 3]);
    assert_eq!(function.get_variable_count(), 0);
}

#[test]
fn merge_selects_variable_by_variable() {
    let mut function = Function::new();
    for _ in 0..20 {
        function.new_variable();
    }
    let mut block = function.new_block();
    let a = Type::Tuple(vec![Type::Int(Var { id: 1 }), Type::Bool(Var { id: 2 })]);
    let b = Type::Tuple(vec![Type::Int(Var { id: 3 }), Type::Bool(Var { id: 4 })]);
    let merged = a.merge(&b, Var { id: 0 }, &mut function, &mut block);
    assert!(merged.equals(&a));
    assert_eq!(ids(&merged.vars()), vec![20, 21]);
    block.ret(&mut function);
    let mut program = monoc::ir::Program::new();
    program.add_function(function);
    assert_eq!(
        program.to_text(),
        "f0 () -> \nmain:\n  r20 = phi(r0, r1, r3)\n  r21 = phi(r0, r2, r4)\n  return\n\n"
    );
}

#[test]
fn scope_finds_the_most_recent_definition() {
    let mut scope = Scope::new();
    assert!(scope.get("x").is_none());
    scope.assign("x", Type::Int(Var { id: 1 }));
    scope.assign("y", Type::Bool(Var { id: 2 }));
    assert!(matches!(scope.get("x"), Some(Type::Int(Var { id: 1 }))));
    assert!(matches!(scope.get("y"), Some(Type::Bool(Var { id: 2 }))));
    assert!(scope.get("z").is_none());
    scope.assign("x", Type::Bool(Var { id: 3 }));
    assert!(matches!(scope.get("x"), Some(Type::Bool(Var { id: 3 }))));
    assert!(matches!(scope.get("y"), Some(Type::Bool(Var { id: 2 }))));
}

#[test]
fn scope_node_overwrites_the_first_definition() {
    let mut node = ScopeNode::Definition {
        name: "x",
        ty: Type::Int(Var { id: 1 }),
        previous: Box::new(ScopeNode::Definition {
            name: "x",
            ty: Type::Int(Var { id: 2 }),
            previous: Box::new(ScopeNode::Empty),
        }),
    };
    assert!(!node.assign("y", &Type::Bool(Var { id: 9 })));
    assert!(node.assign("x", &Type::Bool(Var { id: 9 })));
    assert!(matches!(node.get("x"), Some(Type::Bool(Var { id: 9 }))));
    match node {
        ScopeNode::Definition { previous, .. } => {
            assert!(matches!(previous.get("x"), Some(Type::Int(Var { id: 2 }))));
        }
        _ => panic!("empty"),
    }
    assert!(ScopeNode::Empty.get("x").is_none());
    assert!(!ScopeNode::Empty.assign("x", &Type::Int(Var { id: 0 })));
}

#[test]
fn table_finds_the_first_implementation_of_a_shape() {
    let ast = parse_source("fn (x) { x }").unwrap();
    let (pattern, body) = match &ast.node {
        Expr::Func { pattern, expr, .. } => (&**pattern, &**expr),
        _ => panic!("no function"),
    };
    let mut table = monoc::impls::ImplTable::new();
    assert_eq!(table.len(), 0);
    let f = table.new_cell(pattern, body);
    let g = table.new_cell(pattern, body);
    assert_eq!((f, g), (ImplsId { id: 0 }, ImplsId { id: 1 }));
    assert_eq!(table.len(), 2);
    let int = || Type::Int(Var { id: 0 });
    let boolean = || Type::Bool(Var { id: 0 });
    assert_eq!(table.find(f, &int()), None);
    table.push(f, Implementation { param_ty: boolean(), return_ty: int(), entry: FunctionId { id: 7 } });
    table.push(f, Implementation { param_ty: int(), return_ty: boolean(), entry: FunctionId { id: 8 } });
    assert_eq!(table.count(f), 2);
    assert_eq!(table.count(g), 0);
    assert_eq!(table.find(f, &Type::Int(Var { id: 55 })), Some(1));
    assert_eq!(table.find(f, &boolean()), Some(0));
    assert_eq!(table.find(f, &Type::Tuple(vec![])), None);
    assert_eq!(table.find(g, &int()), None);
    assert_eq!(table.get(f, 1).entry, FunctionId { id: 8 });
    assert!(table.get(f, 1).return_ty.equals(&boolean()));
}

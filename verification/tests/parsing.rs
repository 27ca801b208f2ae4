use monoc::ast::{BinaryOp, Expr, Parsed};
use monoc::parser::{parse_source, ParseErrorType};
use monoc::position::Position;

fn text(expr: &Parsed<Expr>) -> String {
    expr.get_source().to_string()
}

fn fails(source: &str) -> (String, usize, i32, i32) {
    match parse_source(source) {
        Ok(_) => panic!("parsed"),
        Err(error) => {
            let what = match error.get_type() {
                ParseErrorType::ExpectedValue => "value".to_string(),
                ParseErrorType::ExpectedString(text) => text.to_string(),
            };
            let pos = error.get_position();
            let rest = pos.len();
            let left = Position::slice(pos, pos.next_while(|_| true));
            assert_eq!(left.len(), rest);
            (what, rest, pos.line(), pos.column())
        }
    }
}

#[test]
fn literal_is_a_run_of_digits() {
    let ast = parse_source("1234 rest").unwrap();
    assert!(matches!(ast.node, Expr::IntLiteral("1234")));
    assert_eq!(text(&ast), "1234");
}

#[test]
fn name_starts_with_a_letter() {
    let ast = parse_source("x1y2 + 3").unwrap();
    match &ast.node {
        Expr::Binary { left, right, op } => {
            assert!(matches!(left.node, Expr::Ident("x1y2")));
            assert!(matches!(right.node, Expr::IntLiteral("3")));
            assert_eq!(*op, BinaryOp::Plus);
        }
        _ => panic!("no sum"),
    }
    assert_eq!(text(&ast), "x1y2 + 3");
}

#[test]
fn truth_values_are_reserved_words() {
    assert!(matches!(parse_source("true").unwrap().node, Expr::BoolLiteral("true")));
    assert!(matches!(parse_source("false").unwrap().node, Expr::BoolLiteral("false")));
    assert!(matches!(parse_source("truth").unwrap().node, Expr::Ident("truth")));
}

#[test]
fn names_may_hold_letters_beyond_ascii() {
    assert!(matches!(parse_source("größe").unwrap().node, Expr::Ident("größe")));
}

#[test]
fn sum_groups_to_the_left() {
    let ast = parse_source("1 + 2 + 3").unwrap();
    match &ast.node {
        Expr::Binary { left, right, op: BinaryOp::Plus } => {
            assert_eq!(text(left), "1 + 2");
            assert_eq!(text(right), "3");
        }
        _ => panic!("no sum"),
    }
}

#[test]
fn assignment_groups_to_the_right() {
    let ast = parse_source("a = b = 1 + 2").unwrap();
    match &ast.node {
        Expr::Binary { left, right, op: BinaryOp::SingleEquals } => {
            assert_eq!(text(left), "a");
            assert_eq!(text(right), "b = 1 + 2");
        }
        _ => panic!("no assignment"),
    }
}

#[test]
fn commas_give_one_flat_tuple() {
    let ast = parse_source("(1, 2 + 3, x)").unwrap();
    match &ast.node {
        Expr::Tuple { exprs } => {
            assert_eq!(exprs.len(), 3);
            assert_eq!(text(&exprs[0]), "1");
            assert_eq!(text(&exprs[1]), "2 + 3");
            assert_eq!(text(&exprs[2]), "x");
        }
        _ => panic!("no tuple"),
    }
    assert_eq!(text(&ast), "(1, 2 + 3, x)");
}

#[test]
fn separators_give_one_flat_block() {
    let ast = parse_source("{ a = 1; b = 2\n c = 3 \n\n a }").unwrap();
    match &ast.node {
        Expr::Block { exprs, last } => {
            assert_eq!(exprs.len(), 3);
            assert_eq!(text(&exprs[0]), "a = 1");
            assert_eq!(text(&exprs[1]), "b = 2");
            assert_eq!(text(&exprs[2]), "c = 3");
            assert_eq!(text(last), "a");
        }
        _ => panic!("no block"),
    }
}

#[test]
fn brackets_around_one_expression_leave_no_node() {
    let ast = parse_source("{ ( x ) }").unwrap();
    assert!(matches!(ast.node, Expr::Ident("x")));
    assert_eq!(text(&ast), "{ ( x ) }");
}

#[test]
fn call_binds_tighter_than_sum() {
    let ast = parse_source("f(1) + g(2)(3)").unwrap();
    match &ast.node {
        Expr::Binary { left, right, op: BinaryOp::Plus } => {
            assert_eq!(text(left), "f(1)");
            assert_eq!(text(right), "g(2)(3)");
            match &right.node {
                Expr::Binary { left, right, op: BinaryOp::Bracket } => {
                    assert_eq!(text(left), "g(2)");
                    assert_eq!(text(right), "(3)");
                }
                _ => panic!("no call"),
            }
        }
        _ => panic!("no sum"),
    }
}

#[test]
fn function_has_an_optional_name() {
    match &parse_source("fn (x) { x }").unwrap().node {
        Expr::Func { name, pattern, expr } => {
            assert_eq!(*name, None);
            assert_eq!(text(pattern), "(x)");
            assert_eq!(text(expr), "{ x }");
        }
        _ => panic!("no function"),
    }
    match &parse_source("fn twice (x) { x + x }").unwrap().node {
        Expr::Func { name, .. } => assert_eq!(*name, Some("twice")),
        _ => panic!("no function"),
    }
}

#[test]
fn conditional_and_alternative() {
    let ast = parse_source("if c { 1 } else { 2 }").unwrap();
    match &ast.node {
        Expr::Binary { left, right, op: BinaryOp::Else } => {
            assert_eq!(text(left), "if c { 1 }");
            assert_eq!(text(right), "{ 2 }");
            match &left.node {
                Expr::If { cond, conc } => {
                    assert_eq!(text(cond), "c");
                    assert_eq!(text(conc), "{ 1 }");
                }
                _ => panic!("no conditional"),
            }
        }
        _ => panic!("no alternative"),
    }
}

#[test]
fn another_word_ends_the_expression() {
    let ast = parse_source("x elsewhere").unwrap();
    assert!(matches!(ast.node, Expr::Ident("x")));
}

#[test]
fn text_behind_the_expression_is_left_alone() {
    let ast = parse_source("1 + 2 )").unwrap();
    assert_eq!(text(&ast), "1 + 2");
}

#[test]
fn open_bracket_expects_its_end() {
    assert_eq!(fails("( 1"), (")".to_string(), 0, 1, 4));
    assert_eq!(fails("( 1 ]"), (")".to_string(), 1, 1, 5));
    assert_eq!(fails("{ 1 "), ("}".to_string(), 0, 1, 5));
}

#[test]
fn text_that_ends_inside_brackets_expects_their_end() {
    assert_eq!(fails("( 1 + "), (")".to_string(), 0, 1, 7));
    assert_eq!(fails("("), (")".to_string(), 0, 1, 2));
    assert_eq!(fails("{ x = "), ("}".to_string(), 0, 1, 7));
    assert_eq!(fails("( { 1 + "), ("}".to_string(), 0, 1, 9));
    assert_eq!(fails("{ ( 1 + "), (")".to_string(), 0, 1, 9));
    assert_eq!(fails("( fn "), ("(".to_string(), 0, 1, 6));
}

#[test]
fn operator_expects_a_value() {
    assert_eq!(fails("1 + "), ("value".to_string(), 0, 1, 5));
    assert_eq!(fails("( 1 + )"), ("value".to_string(), 1, 1, 7));
    assert_eq!(fails("1 + )"), ("value".to_string(), 1, 1, 5));
    assert_eq!(fails(""), ("value".to_string(), 0, 1, 1));
    assert_eq!(fails(" 1"), ("value".to_string(), 2, 1, 1));
    assert_eq!(fails("()"), ("value".to_string(), 1, 1, 2));
}

#[test]
fn function_expects_pattern_and_body() {
    assert_eq!(fails("fn x"), ("(".to_string(), 0, 1, 5));
    assert_eq!(fails("fn (x) x"), ("{".to_string(), 1, 1, 8));
    assert_eq!(fails("if c 1"), ("{".to_string(), 1, 1, 6));
    assert_eq!(fails("x else y"), ("{".to_string(), 1, 1, 8));
}

#[test]
fn error_position_counts_lines() {
    assert_eq!(fails("{\n  x = 1\n  y = \n}"), ("value".to_string(), 1, 4, 0));
}

#[test]
fn written_tree_reads_like_the_source() {
    assert_eq!(parse_source("1 + 2").unwrap().node.to_text(), "1 + 2");
    assert_eq!(parse_source("f(x, y)").unwrap().node.to_text(), "f ((x, y))");
    assert_eq!(parse_source("{ x = 1; x }").unwrap().node.to_text(), "{\n    x = 1\n    x\n}\n");
    assert_eq!(parse_source("fn id (x) { x }").unwrap().node.to_text(), "fn id(x) x\n");
    assert_eq!(parse_source("if a { 1 } else { 2 }").unwrap().node.to_text(), "if a 1 else 2");
    let nested = parse_source("{ a; { b; c } }").unwrap();
    assert_eq!(nested.node.to_text(), "{\n    a\n    {\n        b\n        c\n}\n\n}\n");
}

#[test]
fn write_indents_by_the_alignment() {
    let ast = parse_source("{ a; b }").unwrap();
    let mut out = String::from(">");
    ast.node.write(&mut out, 2);
    assert_eq!(out, ">{\n      a\n      b\n}\n");
    let mut out = String::new();
    ast.node.write(&mut out, -8);
    assert_eq!(out, "{\na\nb\n}\n");
}

use monoc::ast::Expr;
use monoc::ir::Function;
use monoc::parser::parse_source;

fn listed_as_white_space(c: char) -> bool {
    matches!(
        c,
        '\u{9}'..='\u{d}'
            | ' '
            | '\u{85}'
            | '\u{a0}'
            | '\u{1680}'
            | '\u{2000}'..='\u{200a}'
            | '\u{2028}'
            | '\u{2029}'
            | '\u{202f}'
            | '\u{205f}'
            | '\u{3000}'
    )
}

fn skipped_in_brackets(c: char) -> bool {
    let source = format!("({}7)", c);
    match parse_source(&source) {
        Ok(ast) => matches!(ast.node, Expr::IntLiteral("7")),
        Err(_) => false,
    }
}

#[test]
fn white_space_is_the_listed_characters() {
    let mut count = 0;
    for code in 0..=0x10ffffu32 {
        if let Some(c) = char::from_u32(code) {
            assert_eq!(c.is_whitespace(), listed_as_white_space(c), "{:?}", c);
            if listed_as_white_space(c) {
                count += 1;
            }
        }
    }
    assert_eq!(count, 25);
}

#[test]
fn parser_skips_the_listed_characters_and_no_others() {
    for code in 0..0x3100u32 {
        if let Some(c) = char::from_u32(code) {
            assert_eq!(skipped_in_brackets(c), listed_as_white_space(c), "{:?}", c);
        }
    }
}

#[test]
fn names_start_with_a_letter_among_the_first_characters() {
    for code in 0..128u32 {
        let c = char::from_u32(code).unwrap();
        let letter = c.is_ascii_lowercase() || c.is_ascii_uppercase();
        assert_eq!(c.is_alphabetic(), letter, "{:?}", c);
        let source = c.to_string();
        let named = match parse_source(&source) {
            Ok(ast) => matches!(ast.node, Expr::Ident(name) if name == source),
            Err(_) => false,
        };
        assert_eq!(named, letter, "{:?}", c);
    }
}

#[test]
fn names_go_on_with_letters_and_digits_among_the_first_characters() {
    for code in 0..128u32 {
        let c = char::from_u32(code).unwrap();
        let fits = c.is_ascii_lowercase() || c.is_ascii_uppercase() || c.is_ascii_digit();
        assert_eq!(c.is_alphanumeric(), fits, "{:?}", c);
        let source = format!("q{}", c);
        let named = match parse_source(&source) {
            Ok(ast) => matches!(ast.node, Expr::Ident(name) if name == source),
            Err(_) => false,
        };
        assert_eq!(named, fits, "{:?}", c);
    }
}

#[test]
fn names_take_letters_beyond_the_first_characters() {
    let ast = parse_source("größe + 1").unwrap();
    match ast.node {
        Expr::Binary { left, .. } => assert!(matches!(left.node, Expr::Ident("größe"))),
        _ => panic!("no sum"),
    }
}

#[test]
fn function_tells_whether_it_has_room() {
    let mut function = Function::new();
    assert!(function.has_room(usize::MAX));
    function.new_variable();
    assert!(!function.has_room(usize::MAX));
    assert!(function.has_room(usize::MAX - 1));
    assert!(function.has_room(0));
}

//! The parser: from source text to the syntax tree.
//!
//! An expression is read at one of four levels, from the loosest to the
//! tightest: `Top`, `Block`, `Tuple` and `Bottom`. At `Top` expressions may
//! be put in sequence with `;` or a line break, at `Top` and `Block` they may
//! be joined by commas, and everywhere but at `Bottom` by `+` and `=`. A
//! call and an `else` may follow at every level.

use crate::ast::{BinaryOp, Expr, Kind, Node, Parsed};
use crate::position::{lemma_advance_rest, lemma_span_advance, Place, Position};
use crate::scope::same_text;
use vstd::prelude::*;

verus! {

/// Whether `c` has the Unicode property `White_Space`: the controls from
/// tab to carriage return, the blank, next line, the no-break blank, and the
/// spaces and separators of the higher planes.
pub open spec fn is_space(c: char) -> bool {
    ||| '\u{9}' <= c <= '\u{d}'
    ||| c == ' '
    ||| c == '\u{85}'
    ||| c == '\u{a0}'
    ||| c == '\u{1680}'
    ||| '\u{2000}' <= c <= '\u{200a}'
    ||| c == '\u{2028}'
    ||| c == '\u{2029}'
    ||| c == '\u{202f}'
    ||| c == '\u{205f}'
    ||| c == '\u{3000}'
}

/// Whether `c` has the Unicode property `Alphabetic`.
pub uninterp spec fn is_letter(c: char) -> bool;

/// Whether `c` is alphabetic or numeric in the sense of Unicode.
pub uninterp spec fn is_letter_or_number(c: char) -> bool;

/// Whether `c` is one of the letters `a` to `z` and `A` to `Z`.
pub open spec fn is_ascii_letter(c: char) -> bool {
    'a' <= c <= 'z' || 'A' <= c <= 'Z'
}

/// Whether `c` is one of the digits `0` to `9`.
pub open spec fn is_ascii_digit(c: char) -> bool {
    '0' <= c <= '9'
}

/// Whether a name may start with `c`: among the first 128 characters the
/// letters `a` to `z` and `A` to `Z`, beyond them what is alphabetic.
pub open spec fn letter(c: char) -> bool {
    if c <= '\u{7f}' {
        is_ascii_letter(c)
    } else {
        is_letter(c)
    }
}

/// Whether a name may go on with `c`: among the first 128 characters the
/// letters and the digits, beyond them what is alphabetic or numeric.
pub open spec fn letter_or_number(c: char) -> bool {
    if c <= '\u{7f}' {
        is_ascii_letter(c) || is_ascii_digit(c)
    } else {
        is_letter_or_number(c)
    }
}

/// `char::is_whitespace` tells whether the character has the property
/// `White_Space`, which these characters have and no others.
pub assume_specification[ char::is_whitespace ](c: char) -> (b: bool)
    ensures
        b == is_space(c),
;

/// `char::is_alphabetic` depends on the character alone. Of the first 128
/// characters the letters `a` to `z` and `A` to `Z` are alphabetic and no
/// others.
pub assume_specification[ char::is_alphabetic ](c: char) -> (b: bool)
    ensures
        b == is_letter(c),
        c <= '\u{7f}' ==> b == is_ascii_letter(c),
;

/// `char::is_alphanumeric` depends on the character alone. Of the first 128
/// characters the letters and the digits are alphabetic or numeric and no
/// others.
pub assume_specification[ char::is_alphanumeric ](c: char) -> (b: bool)
    ensures
        b == is_letter_or_number(c),
        c <= '\u{7f}' ==> b == (is_ascii_letter(c) || is_ascii_digit(c)),
;

/// The kinds of characters that the parser tells apart.
#[derive(Debug, Copy, Clone, PartialEq, Eq, Structural)]
pub enum CharClass {
    /// White space, line breaks included.
    Space,
    /// White space within a line.
    Blank,
    /// The decimal digits `0` to `9`.
    Digit,
    /// What a name may start with.
    Letter,
    /// What a name may go on with.
    LetterOrNumber,
}

/// The levels at which an expression can be read, from the loosest to the
/// tightest.
#[derive(Debug, Copy, Clone, PartialEq, Eq, Structural)]
pub enum Prec {
    Top,
    Block,
    Tuple,
    Bottom,
}

#[derive(Debug, Copy, Clone)]
pub enum ParseErrorType {
    /// No expression starts here.
    ExpectedValue,
    /// The given text should stand here.
    ExpectedString(&'static str),
}

/// What is wrong with a source text, and where.
#[derive(Debug, Copy, Clone)]
pub struct ParseError<'a> {
    pos: Position<'a>,
    ty: ParseErrorType,
}

/// What was expected, as a mathematical value.
pub enum Expectation {
    Value,
    Text(Seq<char>),
}

/// A parse error as a mathematical value.
pub struct Diagnosis {
    pub pos: Place,
    pub ty: Expectation,
}

impl View for ParseErrorType {
    type V = Expectation;

    open spec fn view(&self) -> Expectation {
        match self {
            ParseErrorType::ExpectedValue => Expectation::Value,
            ParseErrorType::ExpectedString(text) => Expectation::Text(text@),
        }
    }
}

impl<'a> View for ParseError<'a> {
    type V = Diagnosis;

    closed spec fn view(&self) -> Diagnosis {
        Diagnosis { pos: self.pos@, ty: self.ty@ }
    }
}

impl<'a> ParseError<'a> {
    fn expected_value(pos: Position<'a>) -> (error: ParseError<'a>)
        ensures
            error@ == (Diagnosis { pos: pos@, ty: Expectation::Value }),
    {
        ParseError { pos, ty: ParseErrorType::ExpectedValue }
    }

    fn expected_string(pos: Position<'a>, string: &'static str) -> (error: ParseError<'a>)
        ensures
            error@ == (Diagnosis { pos: pos@, ty: Expectation::Text(string@) }),
    {
        ParseError { pos, ty: ParseErrorType::ExpectedString(string) }
    }

    /// The error as it is reported from inside brackets that end with
    /// `close`.
    fn unclosed(self, close: &'static str) -> (error: ParseError<'a>)
        ensures
            error@ == unclosed(self@, close@),
    {
        match self.ty {
            ParseErrorType::ExpectedValue => {
                if self.pos.len() == 0 {
                    ParseError::expected_string(self.pos, close)
                } else {
                    self
                }
            },
            ParseErrorType::ExpectedString(_) => self,
        }
    }

    /// Where the error was found.
    pub fn get_position(&self) -> (pos: Position<'a>)
        ensures
            pos@ == self@.pos,
    {
        self.pos
    }

    /// What was expected there.
    pub fn get_type(&self) -> (ty: ParseErrorType)
        ensures
            ty@ == self@.ty,
    {
        self.ty
    }
}

impl Prec {
    /// The place of the level on the ladder, the loosest first.
    pub open spec fn rank(self) -> int {
        match self {
            Prec::Top => 0,
            Prec::Block => 1,
            Prec::Tuple => 2,
            Prec::Bottom => 3,
        }
    }

    /// Whether the level is looser than `other`.
    fn looser_than(self, other: Prec) -> (looser: bool)
        ensures
            looser == (self.rank() < other.rank()),
    {
        let a: u8 = match self {
            Prec::Top => 0,
            Prec::Block => 1,
            Prec::Tuple => 2,
            Prec::Bottom => 3,
        };
        let b: u8 = match other {
            Prec::Top => 0,
            Prec::Block => 1,
            Prec::Tuple => 2,
            Prec::Bottom => 3,
        };
        a < b
    }
}

/// Whether `c` is of the kind `class`.
pub open spec fn member(class: CharClass, c: char) -> bool {
    match class {
        CharClass::Space => is_space(c),
        CharClass::Blank => is_space(c) && c != '\n',
        CharClass::Digit => is_ascii_digit(c),
        CharClass::Letter => letter(c),
        CharClass::LetterOrNumber => letter_or_number(c),
    }
}

/// How many characters at the front of `text` are of the kind `class`.
pub open spec fn run_of(text: Seq<char>, class: CharClass) -> nat
    decreases text.len(),
{
    if text.len() == 0 || !member(class, text[0]) {
        0
    } else {
        1 + run_of(text.drop_first(), class)
    }
}

/// The place behind the characters of the kind `class` that stand at
/// `place`.
pub open spec fn skipped(place: Place, class: CharClass) -> Place {
    place.advance(run_of(place.rest, class))
}

/// Skipping characters leaves no more text than there was, and less if
/// the first character is of the kind that is skipped.
pub proof fn lemma_skipped_shorter(place: Place, class: CharClass)
    ensures
        skipped(place, class).rest.len() <= place.rest.len(),
        place.rest.len() > 0 && member(class, place.rest[0]) ==> skipped(place, class).rest.len()
            < place.rest.len(),
{
    lemma_advance_rest(place, run_of(place.rest, class));
}

/// Skipping from a place that lies `j` characters behind `start`, for `j`
/// zero or one, ends at a place that cuts out a text with `start`: the one
/// between the two.
proof fn lemma_skipped_span(start: Place, from: Place, j: int, class: CharClass)
    requires
        j == 0 && from == start || j == 1 && start.rest.len() > 0 && from == start.step(),
    ensures
        start.cut(skipped(from, class)),
        start.span(skipped(from, class)) == start.until(skipped(from, class)),
{
    assert(from.rest =~= start.rest.subrange(j, start.rest.len() as int));
    lemma_span_advance(start, from, j, run_of(from.rest, class));
}

/// Tells whether `c` is of the kind `class`.
fn is_member(class: CharClass, c: char) -> (b: bool)
    ensures
        b == member(class, c),
{
    match class {
        CharClass::Space => c.is_whitespace(),
        CharClass::Blank => c.is_whitespace() && c != '\n',
        CharClass::Digit => '0' <= c && c <= '9',
        CharClass::Letter => c.is_alphabetic(),
        CharClass::LetterOrNumber => c.is_alphanumeric(),
    }
}

/// Moves forward over the characters of the kind `class`.
fn skip<'a>(pos: Position<'a>, class: CharClass) -> (end: Position<'a>)
    ensures
        end@ == skipped(pos@, class),
        end@.rest.len() <= pos@.rest.len(),
{
    let mut cur: Position<'a> = pos;
    loop
        invariant
            skipped(cur@, class) == skipped(pos@, class),
            cur@.rest.len() <= pos@.rest.len(),
        decreases cur@.rest.len(),
    {
        match cur.next() {
            Some((next, ch)) => {
                if is_member(class, ch) {
                    cur = next;
                } else {
                    return cur;
                }
            },
            None => {
                return cur;
            },
        }
    }
}

/// Moves forward over white space within the line.
fn skip_spaces<'a>(pos: Position<'a>) -> (end: Position<'a>)
    ensures
        end@ == skipped(pos@, CharClass::Blank),
        end@.rest.len() <= pos@.rest.len(),
{
    skip(pos, CharClass::Blank)
}

/// Moves forward over white space and line breaks.
fn skip_lines<'a>(pos: Position<'a>) -> (end: Position<'a>)
    ensures
        end@ == skipped(pos@, CharClass::Space),
        end@.rest.len() <= pos@.rest.len(),
{
    skip(pos, CharClass::Space)
}

/// What an error inside brackets comes to. Where an expression is missed
/// because the text has ended, it is the end of the brackets, `close`, that
/// is missed first of all.
pub open spec fn unclosed(error: Diagnosis, close: Seq<char>) -> Diagnosis {
    if error.ty is Value && error.pos.rest.len() == 0 {
        Diagnosis { pos: error.pos, ty: Expectation::Text(close) }
    } else {
        error
    }
}

/// The expression in round brackets that starts at `place`: the expression
/// inside, read at the level `Block`, with the brackets as its start and
/// end.
pub open spec fn parsed_paren(place: Place) -> Result<Node, Diagnosis>
    decreases place.rest.len(), 1nat,
{
    if place.rest.len() == 0 || place.rest[0] != '(' {
        Err(Diagnosis { pos: place, ty: Expectation::Text("("@) })
    } else {
        let inside = skipped(place.step(), CharClass::Space);
        if inside.rest.len() < place.rest.len() {
            match parsed(inside, Prec::Block) {
                Err(error) => Err(unclosed(error, ")"@)),
                Ok(inner) => {
                    let close = skipped(inner.end, CharClass::Space);
                    if close.rest.len() > 0 && close.rest[0] == ')' {
                        Ok(inner.spanning(place, close.step()))
                    } else {
                        Err(Diagnosis { pos: close, ty: Expectation::Text(")"@) })
                    }
                },
            }
        } else {
            Err(Diagnosis { pos: place, ty: Expectation::Value })
        }
    }
}

/// The expression in curly brackets that starts at `place`: the expression
/// inside, read at the level `Top`, with the brackets as its start and end.
pub open spec fn parsed_block(place: Place) -> Result<Node, Diagnosis>
    decreases place.rest.len(), 1nat,
{
    if place.rest.len() == 0 || place.rest[0] != '{' {
        Err(Diagnosis { pos: place, ty: Expectation::Text("{"@) })
    } else {
        let inside = skipped(place.step(), CharClass::Space);
        if inside.rest.len() < place.rest.len() {
            match parsed(inside, Prec::Top) {
                Err(error) => Err(unclosed(error, "}"@)),
                Ok(inner) => {
                    let close = skipped(inner.end, CharClass::Space);
                    if close.rest.len() > 0 && close.rest[0] == '}' {
                        Ok(inner.spanning(place, close.step()))
                    } else {
                        Err(Diagnosis { pos: close, ty: Expectation::Text("}"@) })
                    }
                },
            }
        } else {
            Err(Diagnosis { pos: place, ty: Expectation::Value })
        }
    }
}

/// The function that starts at `place` with the word `fn`, which ends at
/// `end`: an optional name, the pattern in round brackets, and the body in
/// curly brackets.
pub open spec fn parsed_function(place: Place, end: Place) -> Result<Node, Diagnosis>
    decreases place.rest.len(), 2nat,
{
    let after = skipped(end, CharClass::Space);
    let named = after.rest.len() > 0 && member(CharClass::Letter, after.rest[0]);
    let name_end = if named {
        skipped(after.step(), CharClass::LetterOrNumber)
    } else {
        after
    };
    let name = if named {
        Some(after.until(name_end))
    } else {
        None
    };
    let at = skipped(name_end, CharClass::Space);
    if at.rest.len() > 0 && at.rest[0] == '(' && at.rest.len() < place.rest.len() {
        match parsed_paren(at) {
            Err(error) => Err(error),
            Ok(pattern) => {
                let body_at = skipped(pattern.end, CharClass::Space);
                if body_at.rest.len() < place.rest.len() {
                    match parsed_block(body_at) {
                        Err(error) => Err(error),
                        Ok(body) => Ok(
                            Node {
                                start: place,
                                end: body.end,
                                kind: Kind::Func {
                                    name,
                                    pattern: Box::new(pattern),
                                    expr: Box::new(body),
                                },
                            },
                        ),
                    }
                } else {
                    Err(Diagnosis { pos: body_at, ty: Expectation::Text("{"@) })
                }
            },
        }
    } else {
        Err(Diagnosis { pos: at, ty: Expectation::Text("("@) })
    }
}

/// The conditional that starts at `place` with the word `if`, which ends at
/// `end`: the condition, read at the level `Tuple`, and the body in curly
/// brackets.
pub open spec fn parsed_conditional(place: Place, end: Place) -> Result<Node, Diagnosis>
    decreases place.rest.len(), 2nat,
{
    let cond_at = skipped(end, CharClass::Space);
    if cond_at.rest.len() < place.rest.len() {
        match parsed(cond_at, Prec::Tuple) {
            Err(error) => Err(error),
            Ok(cond) => {
                let body_at = skipped(cond.end, CharClass::Space);
                if body_at.rest.len() < place.rest.len() {
                    match parsed_block(body_at) {
                        Err(error) => Err(error),
                        Ok(body) => Ok(
                            Node {
                                start: place,
                                end: body.end,
                                kind: Kind::If { cond: Box::new(cond), conc: Box::new(body) },
                            },
                        ),
                    }
                } else {
                    Err(Diagnosis { pos: body_at, ty: Expectation::Text("{"@) })
                }
            },
        }
    } else {
        Err(Diagnosis { pos: cond_at, ty: Expectation::Value })
    }
}

/// The expression that starts at `place` without regard to what follows
/// it: a number, a name, `true` or `false`, a function, a conditional, or an
/// expression in brackets.
pub open spec fn parsed_prefix(place: Place) -> Result<Node, Diagnosis>
    decreases place.rest.len(), 3nat,
{
    if place.rest.len() == 0 {
        Err(Diagnosis { pos: place, ty: Expectation::Value })
    } else {
        let ch = place.rest[0];
        if member(CharClass::Digit, ch) {
            let end = skipped(place.step(), CharClass::Digit);
            Ok(Node { start: place, end, kind: Kind::IntLiteral(place.until(end)) })
        } else if ch == '(' {
            parsed_paren(place)
        } else if ch == '{' {
            parsed_block(place)
        } else if member(CharClass::Letter, ch) {
            let end = skipped(place.step(), CharClass::LetterOrNumber);
            let word = place.until(end);
            if word == "fn"@ {
                parsed_function(place, end)
            } else if word == "if"@ {
                parsed_conditional(place, end)
            } else if word == "true"@ || word == "false"@ {
                Ok(Node { start: place, end, kind: Kind::BoolLiteral(word) })
            } else {
                Ok(Node { start: place, end, kind: Kind::Ident(word) })
            }
        } else {
            Err(Diagnosis { pos: place, ty: Expectation::Value })
        }
    }
}

/// The expression that starts at `place`, read at `level`.
pub open spec fn parsed(place: Place, level: Prec) -> Result<Node, Diagnosis>
    decreases place.rest.len(), 4nat,
{
    match parsed_prefix(place) {
        Err(error) => Err(error),
        Ok(left) => if left.end.rest.len() < place.rest.len() {
            continued(left, level)
        } else {
            Ok(left)
        },
    }
}

/// The expression `node`, or the longer one that it is the start of, if it
/// has not become shorter in the rest of the text.
pub open spec fn continued_from(node: Node, left: Node, level: Prec) -> Result<Node, Diagnosis>
    decreases left.end.rest.len(), 5nat,
{
    if node.end.rest.len() < left.end.rest.len() {
        continued(node, level)
    } else {
        Ok(node)
    }
}

/// The expression that `left` is the start of when what follows it is read
/// at `level`. Behind white space within the line may stand:
///
/// - `(`: a call of `left` with the expression in the brackets;
/// - `+`, looser than `Bottom`: a sum with the expression at `Bottom`, so
///   that sums group to the left;
/// - `=`, looser than `Bottom`: an assignment of the expression at `Tuple`,
///   so that assignments group to the right;
/// - `,`, looser than `Tuple`: a tuple with the expression at `Tuple`;
/// - the word `else`: the alternative in curly brackets;
/// - `;` or a line break, looser than `Block`: a sequence with the
///   expression at `Block`, unless the text or the block ends there.
///
/// Anything else ends the expression.
pub open spec fn continued(left: Node, level: Prec) -> Result<Node, Diagnosis>
    decreases left.end.rest.len(), 6nat,
{
    let at = skipped(left.end, CharClass::Blank);
    if at.rest.len() == 0 || at.rest.len() > left.end.rest.len() {
        Ok(left)
    } else {
        let ch = at.rest[0];
        let right_at = skipped(at.step(), CharClass::Space);
        if ch == '(' {
            match parsed_paren(at) {
                Err(error) => Err(error),
                Ok(argument) => continued_from(
                    Node::binary(left, argument, BinaryOp::Bracket),
                    left,
                    level,
                ),
            }
        } else if ch == '+' && level.rank() < Prec::Bottom.rank() {
            if right_at.rest.len() < left.end.rest.len() {
                match parsed(right_at, Prec::Bottom) {
                    Err(error) => Err(error),
                    Ok(right) => continued_from(
                        Node::binary(left, right, BinaryOp::Plus),
                        left,
                        level,
                    ),
                }
            } else {
                Ok(left)
            }
        } else if ch == '=' && level.rank() < Prec::Bottom.rank() {
            if right_at.rest.len() < left.end.rest.len() {
                match parsed(right_at, Prec::Tuple) {
                    Err(error) => Err(error),
                    Ok(right) => continued_from(
                        Node::binary(left, right, BinaryOp::SingleEquals),
                        left,
                        level,
                    ),
                }
            } else {
                Ok(left)
            }
        } else if ch == ',' && level.rank() < Prec::Tuple.rank() {
            if right_at.rest.len() < left.end.rest.len() {
                match parsed(right_at, Prec::Tuple) {
                    Err(error) => Err(error),
                    Ok(right) => continued_from(Node::tuple(left, right), left, level),
                }
            } else {
                Ok(left)
            }
        } else if member(CharClass::Letter, ch) {
            let end = skipped(at, CharClass::Letter);
            let body_at = skipped(end, CharClass::Space);
            if at.until(end) == "else"@ && body_at.rest.len() < left.end.rest.len() {
                match parsed_block(body_at) {
                    Err(error) => Err(error),
                    Ok(body) => continued_from(
                        Node::binary(left, body, BinaryOp::Else),
                        left,
                        level,
                    ),
                }
            } else {
                Ok(left)
            }
        } else if (ch == ';' || ch == '\n') && level.rank() < Prec::Block.rank() {
            if right_at.rest.len() > 0 && right_at.rest[0] != '}' && right_at.rest.len()
                < left.end.rest.len() {
                match parsed(right_at, Prec::Block) {
                    Err(error) => Err(error),
                    Ok(right) => continued_from(Node::sequence(left, right), left, level),
                }
            } else {
                Ok(left)
            }
        } else {
            Ok(left)
        }
    }
}

/// Whether what the parser hands back is what the text stands for.
pub open spec fn agrees<'a>(
    result: Result<Parsed<'a, Expr<'a>>, ParseError<'a>>,
    meant: Result<Node, Diagnosis>,
) -> bool {
    match meant {
        Ok(node) => result matches Ok(parsed) && parsed.tree() == node,
        Err(diagnosis) => result matches Err(error) && error@ == diagnosis,
    }
}

/// Reads the expression in round brackets that starts at `start`.
fn parse_paren<'a>(start: Position<'a>) -> (result: Result<Parsed<'a, Expr<'a>>, ParseError<'a>>)
    ensures
        agrees(result, parsed_paren(start@)),
        result matches Ok(parsed) ==> parsed.end@.rest.len() < start@.rest.len(),
    decreases start@.rest.len(), 1nat,
{
    match start.next() {
        Some((pos, '(')) => {
            let inner = match parse(skip_lines(pos), Prec::Block) {
                Ok(inner) => inner,
                Err(error) => {
                    return Err(error.unclosed(")"));
                },
            };
            let close = skip_lines(inner.end());
            match close.next() {
                Some((end, ')')) => Ok(inner.spanning(start, end)),
                _ => Err(ParseError::expected_string(close, ")")),
            }
        },
        _ => Err(ParseError::expected_string(start, "(")),
    }
}

/// Reads the expression in curly brackets that starts at `start`.
fn parse_block<'a>(start: Position<'a>) -> (result: Result<Parsed<'a, Expr<'a>>, ParseError<'a>>)
    ensures
        agrees(result, parsed_block(start@)),
        result matches Ok(parsed) ==> parsed.end@.rest.len() < start@.rest.len(),
    decreases start@.rest.len(), 1nat,
{
    match start.next() {
        Some((pos, '{')) => {
            let inner = match parse(skip_lines(pos), Prec::Top) {
                Ok(inner) => inner,
                Err(error) => {
                    return Err(error.unclosed("}"));
                },
            };
            let close = skip_lines(inner.end());
            match close.next() {
                Some((end, '}')) => Ok(inner.spanning(start, end)),
                _ => Err(ParseError::expected_string(close, "}")),
            }
        },
        _ => Err(ParseError::expected_string(start, "{")),
    }
}

/// Reads the function that starts at `start` with the word `fn`, which
/// ends at `end`.
fn parse_function<'a>(start: Position<'a>, end: Position<'a>) -> (result: Result<
    Parsed<'a, Expr<'a>>,
    ParseError<'a>,
>)
    requires
        end@.rest.len() < start@.rest.len(),
    ensures
        agrees(result, parsed_function(start@, end@)),
        result matches Ok(parsed) ==> parsed.end@.rest.len() < start@.rest.len(),
    decreases start@.rest.len(), 2nat,
{
    let after = skip_lines(end);
    let (name, name_end) = match after.next() {
        Some((pos, ch)) => {
            if is_member(CharClass::Letter, ch) {
                let name_end = skip(pos, CharClass::LetterOrNumber);
                proof {
                    lemma_skipped_span(after@, pos@, 1, CharClass::LetterOrNumber);
                }
                (Some(Position::slice(after, name_end)), name_end)
            } else {
                (None, after)
            }
        },
        None => (None, after),
    };
    let at = skip_lines(name_end);
    let pattern = match at.next() {
        Some((_, '(')) => match parse_paren(at) {
            Ok(pattern) => pattern,
            Err(error) => {
                return Err(error);
            },
        },
        _ => {
            return Err(ParseError::expected_string(at, "("));
        },
    };
    let body_at = skip_lines(pattern.end());
    let body = match parse_block(body_at) {
        Ok(body) => body,
        Err(error) => {
            return Err(error);
        },
    };
    let end = body.end();
    Ok(Parsed::new(start, end, Expr::Func { name, pattern: Box::new(pattern), expr: Box::new(body) }))
}

/// Reads the conditional that starts at `start` with the word `if`, which
/// ends at `end`.
fn parse_conditional<'a>(start: Position<'a>, end: Position<'a>) -> (result: Result<
    Parsed<'a, Expr<'a>>,
    ParseError<'a>,
>)
    requires
        end@.rest.len() < start@.rest.len(),
    ensures
        agrees(result, parsed_conditional(start@, end@)),
        result matches Ok(parsed) ==> parsed.end@.rest.len() < start@.rest.len(),
    decreases start@.rest.len(), 2nat,
{
    let cond = match parse(skip_lines(end), Prec::Tuple) {
        Ok(cond) => cond,
        Err(error) => {
            return Err(error);
        },
    };
    let body_at = skip_lines(cond.end());
    let body = match parse_block(body_at) {
        Ok(body) => body,
        Err(error) => {
            return Err(error);
        },
    };
    let end = body.end();
    Ok(Parsed::new(start, end, Expr::If { cond: Box::new(cond), conc: Box::new(body) }))
}

/// Reads the expression that starts at `start` without regard to what
/// follows it.
fn parse_prefix<'a>(start: Position<'a>) -> (result: Result<Parsed<'a, Expr<'a>>, ParseError<'a>>)
    ensures
        agrees(result, parsed_prefix(start@)),
        result matches Ok(parsed) ==> parsed.end@.rest.len() < start@.rest.len(),
    decreases start@.rest.len(), 3nat,
{
    match start.next() {
        None => Err(ParseError::expected_value(start)),
        Some((pos, ch)) => {
            if is_member(CharClass::Digit, ch) {
                let end = skip(pos, CharClass::Digit);
                proof {
                    lemma_skipped_span(start@, pos@, 1, CharClass::Digit);
                }
                Ok(Parsed::new(start, end, Expr::IntLiteral(Position::slice(start, end))))
            } else if ch == '(' {
                parse_paren(start)
            } else if ch == '{' {
                parse_block(start)
            } else if is_member(CharClass::Letter, ch) {
                let end = skip(pos, CharClass::LetterOrNumber);
                proof {
                    lemma_skipped_span(start@, pos@, 1, CharClass::LetterOrNumber);
                }
                let word = Position::slice(start, end);
                if same_text(word, "fn") {
                    parse_function(start, end)
                } else if same_text(word, "if") {
                    parse_conditional(start, end)
                } else if same_text(word, "true") || same_text(word, "false") {
                    Ok(Parsed::new(start, end, Expr::BoolLiteral(word)))
                } else {
                    Ok(Parsed::new(start, end, Expr::Ident(word)))
                }
            } else {
                Err(ParseError::expected_value(start))
            }
        },
    }
}

/// Reads the expression that starts at `start` at the level `level`.
fn parse<'a>(start: Position<'a>, level: Prec) -> (result: Result<
    Parsed<'a, Expr<'a>>,
    ParseError<'a>,
>)
    ensures
        agrees(result, parsed(start@, level)),
        result matches Ok(parsed) ==> parsed.end@.rest.len() < start@.rest.len(),
    decreases start@.rest.len(), 4nat,
{
    let mut left = match parse_prefix(start) {
        Ok(left) => left,
        Err(error) => {
            return Err(error);
        },
    };
    loop
        invariant
            parsed(start@, level) == continued(left.tree(), level),
            left.end@.rest.len() < start@.rest.len(),
        decreases left.end@.rest.len(),
    {
        let ghost before = left.tree();
        let at = skip_spaces(left.end());
        match at.next() {
            None => {
                return Ok(left);
            },
            Some((pos, ch)) => {
                if ch == '(' {
                    let argument = match parse_paren(at) {
                        Ok(argument) => argument,
                        Err(error) => {
                            return Err(error);
                        },
                    };
                    left = Expr::new_binary(left, argument, BinaryOp::Bracket);
                } else if ch == '+' && level.looser_than(Prec::Bottom) {
                    let right = match parse(skip_lines(pos), Prec::Bottom) {
                        Ok(right) => right,
                        Err(error) => {
                            return Err(error);
                        },
                    };
                    left = Expr::new_binary(left, right, BinaryOp::Plus);
                } else if ch == '=' && level.looser_than(Prec::Bottom) {
                    let right = match parse(skip_lines(pos), Prec::Tuple) {
                        Ok(right) => right,
                        Err(error) => {
                            return Err(error);
                        },
                    };
                    left = Expr::new_binary(left, right, BinaryOp::SingleEquals);
                } else if ch == ',' && level.looser_than(Prec::Tuple) {
                    let right = match parse(skip_lines(pos), Prec::Tuple) {
                        Ok(right) => right,
                        Err(error) => {
                            return Err(error);
                        },
                    };
                    left = Expr::new_tuple(left, right);
                } else if is_member(CharClass::Letter, ch) {
                    let end = skip(at, CharClass::Letter);
                    proof {
                        lemma_skipped_shorter(at@, CharClass::Letter);
                        lemma_skipped_span(at@, at@, 0, CharClass::Letter);
                    }
                    if !same_text(Position::slice(at, end), "else") {
                        return Ok(left);
                    }
                    let body = match parse_block(skip_lines(end)) {
                        Ok(body) => body,
                        Err(error) => {
                            return Err(error);
                        },
                    };
                    left = Expr::new_binary(left, body, BinaryOp::Else);
                } else if (ch == ';' || ch == '\n') && level.looser_than(Prec::Block) {
                    let next = skip_lines(pos);
                    match next.next() {
                        None => {
                            return Ok(left);
                        },
                        Some((_, '}')) => {
                            return Ok(left);
                        },
                        Some(_) => {},
                    }
                    let right = match parse(next, Prec::Block) {
                        Ok(right) => right,
                        Err(error) => {
                            return Err(error);
                        },
                    };
                    left = Expr::new_block(left, right);
                } else {
                    return Ok(left);
                }
            },
        }
    }
}

/// Reads `source` as one expression, with sequences allowed at the top.
pub fn parse_source<'a>(source: &'a str) -> (result: Result<Parsed<'a, Expr<'a>>, ParseError<'a>>)
    ensures
        agrees(result, parsed(Place { line: 1, column: 1, rest: source@ }, Prec::Top)),
{
    parse(Position::from_source(source), Prec::Top)
}

} // verus!

//! Writing a syntax tree back as text, for the eyes of the programmer.

use crate::ast::{BinaryOp, Expr, Parsed};
use vstd::prelude::*;
use vstd::string::*;

verus! {

/// `align` spaces, none if `align` is not positive.
pub open spec fn indent(align: int) -> Seq<char> {
    Seq::new(
        if align > 0 {
            align as nat
        } else {
            0
        },
        |i: int| ' ',
    )
}

/// The indentation one level further in: four more, as far as the number
/// can grow.
pub open spec fn deeper(align: i32) -> i32 {
    if align <= i32::MAX - 4 {
        (align + 4) as i32
    } else {
        align
    }
}

/// An operator between its operands. A call is closed by a bracket behind
/// its argument.
pub open spec fn operator_text(op: BinaryOp) -> Seq<char> {
    match op {
        BinaryOp::Plus => " + "@,
        BinaryOp::Bracket => " ("@,
        BinaryOp::SingleEquals => " = "@,
        BinaryOp::Else => " else "@,
    }
}

/// What closes the operator behind its right operand.
pub open spec fn closing_text(op: BinaryOp) -> Seq<char> {
    match op {
        BinaryOp::Bracket => ")"@,
        _ => ""@,
    }
}

/// The text of an expression in a block that is indented by `align`.
///
/// Literals and names are written as they were read, tuples in round
/// brackets with `, ` between their parts, and sequences in curly brackets
/// with one expression on each line, four spaces further in.
pub open spec fn written<'a>(expr: Expr<'a>, align: i32) -> Seq<char>
    decreases expr,
{
    match expr {
        Expr::IntLiteral(lexeme) => lexeme@,
        Expr::BoolLiteral(lexeme) => lexeme@,
        Expr::Ident(lexeme) => lexeme@,
        Expr::Tuple { exprs } => "("@ + written_items(exprs@, align, exprs@.len()) + ")"@,
        Expr::Block { exprs, last } => "{\n"@ + written_lines(exprs@, deeper(align), exprs@.len())
            + indent(deeper(align) as int) + written(last.node, deeper(align)) + "\n}\n"@,
        Expr::Func { name, pattern, expr } => "fn"@ + (match name {
            Some(name) => " "@ + name@,
            None => Seq::empty(),
        }) + "("@ + written(pattern.node, align) + ") "@ + written(expr.node, align) + "\n"@,
        Expr::Binary { left, right, op } => written(left.node, align) + operator_text(op)
            + written(right.node, align) + closing_text(op),
        Expr::If { cond, conc } => "if "@ + written(cond.node, align) + " "@ + written(
            conc.node,
            align,
        ),
    }
}

/// The first `n` of `exprs` with `, ` between one and the next.
pub open spec fn written_items<'a>(exprs: Seq<Parsed<'a, Expr<'a>>>, align: i32, n: nat) -> Seq<
    char,
>
    decreases exprs, n,
{
    if n == 0 || n > exprs.len() {
        Seq::empty()
    } else if n == 1 {
        written(exprs[0].node, align)
    } else {
        written_items(exprs, align, (n - 1) as nat) + ", "@ + written(exprs[n - 1].node, align)
    }
}

/// The first `n` of `exprs`, each on a line of its own behind `align`
/// spaces.
pub open spec fn written_lines<'a>(exprs: Seq<Parsed<'a, Expr<'a>>>, align: i32, n: nat) -> Seq<
    char,
>
    decreases exprs, n,
{
    if n == 0 || n > exprs.len() {
        Seq::empty()
    } else {
        written_lines(exprs, align, (n - 1) as nat) + indent(align as int) + written(
            exprs[n - 1].node,
            align,
        ) + "\n"@
    }
}

/// Appends `align` spaces.
fn write_indent(out: &mut String, align: i32)
    ensures
        final(out)@ == old(out)@ + indent(align as int),
{
    let mut i: i32 = 0;
    assert(out@ =~= old(out)@ + Seq::new(0, |k: int| ' '));
    while i < align
        invariant
            0 <= i,
            align > 0 ==> i <= align,
            align <= 0 ==> i == 0,
            out@ == old(out)@ + Seq::new(i as nat, |k: int| ' '),
        decreases align - i,
    {
        out.push(' ');
        i += 1;
        assert(out@ =~= old(out)@ + Seq::new(i as nat, |k: int| ' '));
    }
    assert(out@ =~= old(out)@ + indent(align as int));
}

impl<'a> Expr<'a> {
    /// Appends the text of the expression, as it stands in a block that is
    /// indented by `align`.
    pub fn write(&self, out: &mut String, align: i32)
        ensures
            final(out)@ == old(out)@ + written(*self, align),
        decreases self,
    {
        match self {
            Expr::IntLiteral(lexeme) => {
                out.append(lexeme);
            },
            Expr::BoolLiteral(lexeme) => {
                out.append(lexeme);
            },
            Expr::Ident(lexeme) => {
                out.append(lexeme);
            },
            Expr::Tuple { exprs } => {
                out.append("(");
                let ghost head = out@;
                let mut i: usize = 0;
                assert(out@ =~= head + written_items(exprs@, align, 0));
                while i < exprs.len()
                    invariant
                        i <= exprs.len(),
                        *self == (Expr::Tuple { exprs: *exprs }),
                        decreases_to!(self => exprs),
                        out@ == head + written_items(exprs@, align, i as nat),
                    decreases exprs.len() - i,
                {
                    if i > 0 {
                        out.append(", ");
                    }
                    assert(decreases_to!(exprs => exprs@[i as int]));
                    exprs[i].node.write(out, align);
                    i += 1;
                    assert(out@ =~= head + written_items(exprs@, align, i as nat));
                }
                out.append(")");
                assert(out@ =~= old(out)@ + written(*self, align));
            },
            Expr::Block { exprs, last } => {
                let inner: i32 = if align <= i32::MAX - 4 {
                    align + 4
                } else {
                    align
                };
                out.append("{\n");
                let ghost head = out@;
                let mut i: usize = 0;
                assert(out@ =~= head + written_lines(exprs@, inner, 0));
                while i < exprs.len()
                    invariant
                        i <= exprs.len(),
                        *self == (Expr::Block { exprs: *exprs, last: *last }),
                        decreases_to!(self => exprs),
                        out@ == head + written_lines(exprs@, inner, i as nat),
                    decreases exprs.len() - i,
                {
                    write_indent(out, inner);
                    assert(decreases_to!(exprs => exprs@[i as int]));
                    exprs[i].node.write(out, inner);
                    out.append("\n");
                    i += 1;
                    assert(out@ =~= head + written_lines(exprs@, inner, i as nat));
                }
                write_indent(out, inner);
                last.node.write(out, inner);
                out.append("\n}\n");
                assert(out@ =~= old(out)@ + written(*self, align));
            },
            Expr::Func { name, pattern, expr } => {
                out.append("fn");
                match name {
                    Some(name) => {
                        out.append(" ");
                        out.append(name);
                    },
                    None => {},
                }
                out.append("(");
                pattern.node.write(out, align);
                out.append(") ");
                expr.node.write(out, align);
                out.append("\n");
                assert(out@ =~= old(out)@ + written(*self, align));
            },
            Expr::Binary { left, right, op } => {
                left.node.write(out, align);
                out.append(
                    match op {
                        BinaryOp::Plus => " + ",
                        BinaryOp::Bracket => " (",
                        BinaryOp::SingleEquals => " = ",
                        BinaryOp::Else => " else ",
                    },
                );
                right.node.write(out, align);
                out.append(
                    match op {
                        BinaryOp::Bracket => ")",
                        _ => "",
                    },
                );
                assert(out@ =~= old(out)@ + written(*self, align));
            },
            Expr::If { cond, conc } => {
                out.append("if ");
                cond.node.write(out, align);
                out.append(" ");
                conc.node.write(out, align);
                assert(out@ =~= old(out)@ + written(*self, align));
            },
        }
    }

    /// The text of the expression.
    pub fn to_text(&self) -> (text: String)
        ensures
            text@ == written(*self, 0),
    {
        let mut text = String::new();
        self.write(&mut text, 0);
        assert(text@ =~= written(*self, 0));
        text
    }
}

} // verus!

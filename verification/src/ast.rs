//! The syntax tree: expressions, each with the stretch of source text that
//! it was read from.

use crate::literal::{is_int_literal, parse_int};
use crate::position::{Place, Position};
use vstd::prelude::*;

verus! {

/// A node together with the positions where its text starts and ends.
#[derive(Debug)]
pub struct Parsed<'a, T> {
    pub start: Position<'a>,
    pub end: Position<'a>,
    pub node: T,
}

#[derive(Debug)]
pub enum Expr<'a> {
    IntLiteral(&'a str),
    BoolLiteral(&'a str),
    Ident(&'a str),
    Tuple { exprs: Vec<Parsed<'a, Expr<'a>>> },
    Block { exprs: Vec<Parsed<'a, Expr<'a>>>, last: Box<Parsed<'a, Expr<'a>>> },
    Func {
        name: Option<&'a str>,
        pattern: Box<Parsed<'a, Expr<'a>>>,
        expr: Box<Parsed<'a, Expr<'a>>>,
    },
    Binary { left: Box<Parsed<'a, Expr<'a>>>, right: Box<Parsed<'a, Expr<'a>>>, op: BinaryOp },
    If { cond: Box<Parsed<'a, Expr<'a>>>, conc: Box<Parsed<'a, Expr<'a>>> },
}

#[derive(Debug, Copy, Clone, PartialEq, Eq, Structural)]
pub enum BinaryOp {
    Plus,
    Bracket,
    SingleEquals,
    Else,
}

impl<'a, T> Parsed<'a, T> {
    /// Where the text of the node starts.
    pub open spec fn from(&self) -> Place {
        self.start@
    }

    /// Where the text of the node ends.
    pub open spec fn to(&self) -> Place {
        self.end@
    }

    /// Whether start and end cut out a text, as they do when the end lies
    /// at or behind the start in one source.
    pub open spec fn spanned(&self) -> bool {
        self.from().cut(self.to())
    }

    /// The text of the node.
    pub open spec fn text(&self) -> Seq<char> {
        self.from().span(self.to())
    }

    pub fn new(start: Position<'a>, end: Position<'a>, node: T) -> (parsed: Parsed<'a, T>)
        ensures
            parsed.from() == start@,
            parsed.to() == end@,
            parsed.node == node,
    {
        Parsed { start, end, node }
    }

    pub fn start(&self) -> (pos: Position<'a>)
        ensures
            pos@ == self.from(),
    {
        self.start
    }

    pub fn end(&self) -> (pos: Position<'a>)
        ensures
            pos@ == self.to(),
    {
        self.end
    }

    /// The text that the node was read from.
    pub fn get_source(&self) -> (text: &'a str)
        requires
            self.spanned(),
        ensures
            text@ == self.text(),
    {
        Position::slice(self.start(), self.end())
    }

    pub fn get_node(&self) -> (node: &T)
        ensures
            *node == self.node,
    {
        &self.node
    }
}

impl<'a> Expr<'a> {
    /// `left op right`, reaching from the start of `left` to the end of
    /// `right`.
    pub fn new_binary(
        left: Parsed<'a, Expr<'a>>,
        right: Parsed<'a, Expr<'a>>,
        op: BinaryOp,
    ) -> (parsed: Parsed<'a, Expr<'a>>)
        ensures
            parsed.from() == left.from(),
            parsed.to() == right.to(),
            parsed.node == (Expr::Binary { left: Box::new(left), right: Box::new(right), op }),
            parsed.tree() == Node::binary(left.tree(), right.tree(), op),
    {
        proof {
            lemma_joined(left, right, op);
        }
        Parsed::new(
            left.start(),
            right.end(),
            Expr::Binary { left: Box::new(left), right: Box::new(right), op },
        )
    }

    /// The elements of the tuple that `left, right` denotes: those of `left`
    /// followed by `right` if `left` is a tuple itself, else the two.
    pub open spec fn tuple_items(
        left: Parsed<'a, Expr<'a>>,
        right: Parsed<'a, Expr<'a>>,
    ) -> Seq<Parsed<'a, Expr<'a>>> {
        match left.node {
            Expr::Tuple { exprs } => exprs@.push(right),
            _ => seq![left, right],
        }
    }

    /// The tuple `left, right`. A tuple on the left is continued, so that
    /// a chain of commas gives one flat tuple.
    pub fn new_tuple(left: Parsed<'a, Expr<'a>>, right: Parsed<'a, Expr<'a>>) -> (parsed: Parsed<
        'a,
        Expr<'a>,
    >)
        ensures
            parsed.from() == left.from(),
            parsed.to() == right.to(),
            parsed.node matches Expr::Tuple { exprs } && exprs@ == Self::tuple_items(left, right),
            parsed.tree() == Node::tuple(left.tree(), right.tree()),
    {
        proof {
            lemma_joined(left, right, BinaryOp::Plus);
        }
        let start = left.start();
        let end = right.end();
        let node = match left.node {
            Expr::Tuple { exprs } => {
                let mut exprs = exprs;
                exprs.push(right);
                Expr::Tuple { exprs }
            },
            node => {
                let mut exprs: Vec<Parsed<'a, Expr<'a>>> = Vec::new();
                exprs.push(Parsed { start: left.start, end: left.end, node });
                exprs.push(right);
                assert(exprs@ =~= seq![left, right]);
                Expr::Tuple { exprs }
            },
        };
        Parsed::new(start, end, node)
    }

    /// The expressions before the last one of the sequence `left; right`:
    /// all of `left` if it is a sequence itself, else `left` alone.
    pub open spec fn block_items(left: Parsed<'a, Expr<'a>>) -> Seq<Parsed<'a, Expr<'a>>> {
        match left.node {
            Expr::Block { exprs, last } => exprs@.push(*last),
            _ => seq![left],
        }
    }

    /// The sequence `left; right`. A sequence on the left is continued, so
    /// that a chain of separators gives one flat block.
    pub fn new_block(left: Parsed<'a, Expr<'a>>, right: Parsed<'a, Expr<'a>>) -> (parsed: Parsed<
        'a,
        Expr<'a>,
    >)
        ensures
            parsed.from() == left.from(),
            parsed.to() == right.to(),
            parsed.node matches Expr::Block { exprs, last } && exprs@ == Self::block_items(left)
                && *last == right,
            parsed.tree() == Node::sequence(left.tree(), right.tree()),
    {
        proof {
            lemma_joined(left, right, BinaryOp::Plus);
        }
        let start = left.start();
        let end = right.end();
        let node = match left.node {
            Expr::Block { exprs, last } => {
                let mut exprs = exprs;
                exprs.push(*last);
                Expr::Block { exprs, last: Box::new(right) }
            },
            node => {
                let mut exprs: Vec<Parsed<'a, Expr<'a>>> = Vec::new();
                exprs.push(Parsed { start: left.start, end: left.end, node });
                assert(exprs@ =~= seq![left]);
                Expr::Block { exprs, last: Box::new(right) }
            },
        };
        Parsed::new(start, end, node)
    }
}

impl<'a> Parsed<'a, Expr<'a>> {
    /// Whether the tree can be handed to the compiler: every node has a
    /// text, and every integer literal is that of a signed 32-bit integer.
    pub open spec fn compilable(&self) -> bool
        decreases self,
    {
        &&& self.spanned()
        &&& match self.node {
            Expr::IntLiteral(lexeme) => is_int_literal(lexeme@),
            Expr::BoolLiteral(_) => true,
            Expr::Ident(_) => true,
            Expr::Tuple { exprs } => forall|i: int|
                0 <= i < exprs@.len() ==> (#[trigger] exprs@[i]).compilable(),
            Expr::Block { exprs, last } => {
                &&& forall|i: int| 0 <= i < exprs@.len() ==> (#[trigger] exprs@[i]).compilable()
                &&& last.compilable()
            },
            Expr::Func { pattern, expr, .. } => pattern.compilable() && expr.compilable(),
            Expr::Binary { left, right, .. } => left.compilable() && right.compilable(),
            Expr::If { cond, conc } => cond.compilable() && conc.compilable(),
        }
    }

    /// Whether nothing in the tree branches: it holds no `if` and no
    /// `else`, in the bodies of its functions neither.
    pub open spec fn unbranched(&self) -> bool
        decreases self,
    {
        match self.node {
            Expr::IntLiteral(_) => true,
            Expr::BoolLiteral(_) => true,
            Expr::Ident(_) => true,
            Expr::Tuple { exprs } => forall|i: int|
                0 <= i < exprs@.len() ==> (#[trigger] exprs@[i]).unbranched(),
            Expr::Block { exprs, last } => {
                &&& forall|i: int| 0 <= i < exprs@.len() ==> (#[trigger] exprs@[i]).unbranched()
                &&& last.unbranched()
            },
            Expr::Func { expr, .. } => expr.unbranched(),
            Expr::Binary { left, right, op } => op != BinaryOp::Else && left.unbranched()
                && right.unbranched(),
            Expr::If { .. } => false,
        }
    }

    /// Tells whether the tree can be handed to the compiler.
    pub fn is_compilable(&self) -> (ok: bool)
        ensures
            ok == self.compilable(),
        decreases self,
    {
        if !Position::encloses(self.start, self.end) {
            return false;
        }
        match &self.node {
            Expr::IntLiteral(lexeme) => parse_int(lexeme).is_some(),
            Expr::BoolLiteral(_) => true,
            Expr::Ident(_) => true,
            Expr::Tuple { exprs } => Self::all_compilable(exprs),
            Expr::Block { exprs, last } => Self::all_compilable(exprs) && last.is_compilable(),
            Expr::Func { pattern, expr, .. } => pattern.is_compilable() && expr.is_compilable(),
            Expr::Binary { left, right, .. } => left.is_compilable() && right.is_compilable(),
            Expr::If { cond, conc } => cond.is_compilable() && conc.is_compilable(),
        }
    }

    /// Tells whether every tree of the list can be handed to the compiler.
    pub fn all_compilable(exprs: &Vec<Parsed<'a, Expr<'a>>>) -> (ok: bool)
        ensures
            ok == forall|i: int| 0 <= i < exprs@.len() ==> (#[trigger] exprs@[i]).compilable(),
        decreases exprs,
    {
        let mut i: usize = 0;
        while i < exprs.len()
            invariant
                i <= exprs.len(),
                forall|j: int| 0 <= j < i ==> (#[trigger] exprs@[j]).compilable(),
            decreases exprs.len() - i,
        {
            if !exprs[i].is_compilable() {
                return false;
            }
            i += 1;
        }
        true
    }
}

/// A piece of syntax as a mathematical value: where it starts, where it
/// ends and what it is.
pub struct Node {
    pub start: Place,
    pub end: Place,
    pub kind: Kind,
}

/// What a piece of syntax is, as a mathematical value.
pub enum Kind {
    IntLiteral(Seq<char>),
    BoolLiteral(Seq<char>),
    Ident(Seq<char>),
    Tuple(Seq<Node>),
    Block(Seq<Node>, Box<Node>),
    Func { name: Option<Seq<char>>, pattern: Box<Node>, expr: Box<Node> },
    Binary { left: Box<Node>, right: Box<Node>, op: BinaryOp },
    If { cond: Box<Node>, conc: Box<Node> },
}

impl Node {
    /// The same syntax with another start and end.
    pub open spec fn spanning(self, start: Place, end: Place) -> Node {
        Node { start, end, kind: self.kind }
    }

    /// `left op right`
    pub open spec fn binary(left: Node, right: Node, op: BinaryOp) -> Node {
        Node {
            start: left.start,
            end: right.end,
            kind: Kind::Binary { left: Box::new(left), right: Box::new(right), op },
        }
    }

    /// `left, right`: a tuple on the left is continued.
    pub open spec fn tuple(left: Node, right: Node) -> Node {
        Node {
            start: left.start,
            end: right.end,
            kind: Kind::Tuple(
                match left.kind {
                    Kind::Tuple(nodes) => nodes.push(right),
                    _ => seq![left, right],
                },
            ),
        }
    }

    /// `left; right`: a sequence on the left is continued.
    pub open spec fn sequence(left: Node, right: Node) -> Node {
        Node {
            start: left.start,
            end: right.end,
            kind: Kind::Block(
                match left.kind {
                    Kind::Block(nodes, last) => nodes.push(*last),
                    _ => seq![left],
                },
                Box::new(right),
            ),
        }
    }
}

impl<'a> Parsed<'a, Expr<'a>> {
    /// The tree as a mathematical value.
    pub open spec fn tree(&self) -> Node
        decreases self,
    {
        Node {
            start: self.start@,
            end: self.end@,
            kind: match self.node {
                Expr::IntLiteral(lexeme) => Kind::IntLiteral(lexeme@),
                Expr::BoolLiteral(lexeme) => Kind::BoolLiteral(lexeme@),
                Expr::Ident(lexeme) => Kind::Ident(lexeme@),
                Expr::Tuple { exprs } => Kind::Tuple(Self::trees(exprs@)),
                Expr::Block { exprs, last } => Kind::Block(
                    Self::trees(exprs@),
                    Box::new(last.tree()),
                ),
                Expr::Func { name, pattern, expr } => Kind::Func {
                    name: match name {
                        Some(name) => Some(name@),
                        None => None,
                    },
                    pattern: Box::new(pattern.tree()),
                    expr: Box::new(expr.tree()),
                },
                Expr::Binary { left, right, op } => Kind::Binary {
                    left: Box::new(left.tree()),
                    right: Box::new(right.tree()),
                    op,
                },
                Expr::If { cond, conc } => Kind::If {
                    cond: Box::new(cond.tree()),
                    conc: Box::new(conc.tree()),
                },
            },
        }
    }

    /// The trees of a list as mathematical values.
    pub open spec fn trees(exprs: Seq<Parsed<'a, Expr<'a>>>) -> Seq<Node>
        decreases exprs,
    {
        Seq::new(
            exprs.len(),
            |i: int|
                if 0 <= i < exprs.len() {
                    exprs[i].tree()
                } else {
                    Node {
                        start: exprs[0].start@,
                        end: exprs[0].start@,
                        kind: Kind::Tuple(seq![]),
                    }
                },
        )
    }

    /// The tree with another start and end.
    pub fn spanning(self, start: Position<'a>, end: Position<'a>) -> (parsed: Parsed<'a, Expr<'a>>)
        ensures
            parsed.tree() == self.tree().spanning(start@, end@),
    {
        Parsed { start, end, node: self.node }
    }
}

/// What the three ways of putting two trees together make of their values.
proof fn lemma_joined<'a>(left: Parsed<'a, Expr<'a>>, right: Parsed<'a, Expr<'a>>, op: BinaryOp)
    ensures
        forall|parsed: Parsed<'a, Expr<'a>>|
            parsed.start@ == left.start@ && parsed.end@ == right.end@ && parsed.node == (
            Expr::Binary { left: Box::new(left), right: Box::new(right), op }) ==> #[trigger] parsed.tree()
                == Node::binary(left.tree(), right.tree(), op),
        forall|parsed: Parsed<'a, Expr<'a>>|
            parsed.start@ == left.start@ && parsed.end@ == right.end@ && (
            parsed.node matches Expr::Tuple { exprs } && exprs@ == Expr::tuple_items(left, right))
                ==> #[trigger] parsed.tree() == Node::tuple(left.tree(), right.tree()),
        forall|parsed: Parsed<'a, Expr<'a>>|
            parsed.start@ == left.start@ && parsed.end@ == right.end@ && (
            parsed.node matches Expr::Block { exprs, last } && exprs@ == Expr::block_items(left)
                && *last == right) ==> #[trigger] parsed.tree() == Node::sequence(
                left.tree(),
                right.tree(),
            ),
{
    assert forall|parsed: Parsed<'a, Expr<'a>>|
        parsed.start@ == left.start@ && parsed.end@ == right.end@ && (
        parsed.node matches Expr::Tuple { exprs } && exprs@ == Expr::tuple_items(
            left,
            right,
        )) implies #[trigger] parsed.tree() == Node::tuple(left.tree(), right.tree()) by {
        let exprs = parsed.node->Tuple_exprs;
        match left.node {
            Expr::Tuple { exprs: items } => {
                assert(Parsed::trees(exprs@) =~= Parsed::trees(items@).push(right.tree()));
            },
            _ => {
                assert(Parsed::trees(exprs@) =~= seq![left.tree(), right.tree()]);
            },
        }
    }
    assert forall|parsed: Parsed<'a, Expr<'a>>|
        parsed.start@ == left.start@ && parsed.end@ == right.end@ && (
        parsed.node matches Expr::Block { exprs, last } && exprs@ == Expr::block_items(left)
            && *last == right) implies #[trigger] parsed.tree() == Node::sequence(
        left.tree(),
        right.tree(),
    ) by {
        let exprs = parsed.node->Block_exprs;
        match left.node {
            Expr::Block { exprs: items, last } => {
                assert(Parsed::trees(exprs@) =~= Parsed::trees(items@).push(last.tree()));
            },
            _ => {
                assert(Parsed::trees(exprs@) =~= seq![left.tree()]);
            },
        }
    }
}

} // verus!

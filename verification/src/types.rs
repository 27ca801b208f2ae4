//! The types that the compiler gives to expressions. A type says of which
//! shape a value is and in which variables of the current function its parts
//! are held.

use crate::ast::{Expr, Parsed};
use crate::ir::{Block, Function, FunctionId, FunctionView, InstructionView, Var, var_range};
use vstd::prelude::*;
use vstd::std_specs::cmp::PartialEqSpecImpl;

verus! {

/// The identity of a function value: the number of the list of
/// implementations that all copies of the value share.
#[derive(Debug, Copy, Clone, PartialEq, Eq, Structural)]
pub struct ImplsId {
    pub id: usize,
}

#[derive(Debug)]
pub enum Type<'a, 'b> {
    /// An integer, held in the variable.
    Int(Var),
    /// A truth value, held in the variable as 0 or 1.
    Bool(Var),
    /// A value that is there if the variable holds a non-zero number.
    Maybe(Var, Box<Type<'a, 'b>>),
    /// A product of values.
    Tuple(Vec<Type<'a, 'b>>),
    /// A function: its parameter pattern, its body and the list of its
    /// implementations. It takes no variable at run time.
    Func { pattern: &'b Parsed<'a, Expr<'a>>, expr: &'b Parsed<'a, Expr<'a>>, impls: ImplsId },
}

/// One compiled instance of a function: the function `entry` of the program
/// takes the variables of `param_ty` and returns those of `return_ty`.
#[derive(Debug)]
pub struct Implementation<'a, 'b> {
    pub param_ty: Type<'a, 'b>,
    pub return_ty: Type<'a, 'b>,
    pub entry: FunctionId,
}

/// What a function value is made of: its parameter pattern and its body.
pub struct Source<'a> {
    pub pattern: Parsed<'a, Expr<'a>>,
    pub body: Parsed<'a, Expr<'a>>,
}

/// A type as a mathematical value.
pub enum TypeView<'a> {
    Int(Var),
    Bool(Var),
    Maybe(Var, Box<TypeView<'a>>),
    Tuple(Seq<TypeView<'a>>),
    Func { pattern: Parsed<'a, Expr<'a>>, expr: Parsed<'a, Expr<'a>>, impls: ImplsId },
}

/// An implementation as a mathematical value.
pub struct ImplementationView<'a> {
    pub param_ty: TypeView<'a>,
    pub return_ty: TypeView<'a>,
    pub entry: FunctionId,
}

impl<'a> TypeView<'a> {
    /// The number of variables that a value of the type takes.
    pub open spec fn size(self) -> nat
        decreases self,
    {
        match self {
            TypeView::Int(_) => 1,
            TypeView::Bool(_) => 1,
            TypeView::Maybe(_, inner) => 1 + inner.size(),
            TypeView::Tuple(types) => Self::sizes(types),
            TypeView::Func { .. } => 0,
        }
    }

    /// The sum of the sizes of `types`.
    pub open spec fn sizes(types: Seq<TypeView<'a>>) -> nat
        decreases types,
    {
        if types.len() == 0 {
            0
        } else {
            Self::sizes(types.drop_last()) + types.last().size()
        }
    }

    /// The variables of the type, each node before its parts and the parts
    /// from left to right.
    pub open spec fn vars(self) -> Seq<Var>
        decreases self,
    {
        match self {
            TypeView::Int(var) => seq![var],
            TypeView::Bool(var) => seq![var],
            TypeView::Maybe(tag, inner) => seq![tag] + inner.vars(),
            TypeView::Tuple(types) => Self::vars_of(types),
            TypeView::Func { .. } => seq![],
        }
    }

    /// The variables of `types`, one type after the other.
    pub open spec fn vars_of(types: Seq<TypeView<'a>>) -> Seq<Var>
        decreases types,
    {
        if types.len() == 0 {
            seq![]
        } else {
            Self::vars_of(types.drop_last()) + types.last().vars()
        }
    }

    /// Whether the two types are built alike, whatever variables they hold.
    /// Two function types are alike if they are the same function.
    pub open spec fn same_shape(self, other: TypeView<'a>) -> bool
        decreases self,
    {
        match (self, other) {
            (TypeView::Int(_), TypeView::Int(_)) => true,
            (TypeView::Bool(_), TypeView::Bool(_)) => true,
            (TypeView::Maybe(_, a), TypeView::Maybe(_, b)) => a.same_shape(*b),
            (TypeView::Tuple(a), TypeView::Tuple(b)) => {
                &&& a.len() == b.len()
                &&& forall|i: int| 0 <= i < a.len() ==> (#[trigger] a[i]).same_shape(b[i])
            },
            (TypeView::Func { impls: a, .. }, TypeView::Func { impls: b, .. }) => a == b,
            _ => false,
        }
    }

    /// The type with its variables replaced, in order, by those of `vars`
    /// from index `at` on.
    pub open spec fn map_at(self, vars: Seq<Var>, at: int) -> TypeView<'a>
        decreases self,
    {
        match self {
            TypeView::Int(_) => TypeView::Int(vars[at]),
            TypeView::Bool(_) => TypeView::Bool(vars[at]),
            TypeView::Maybe(_, inner) => TypeView::Maybe(
                vars[at],
                Box::new(inner.map_at(vars, at + 1)),
            ),
            TypeView::Tuple(types) => TypeView::Tuple(
                Seq::new(
                    types.len(),
                    |i: int|
                        if 0 <= i < types.len() {
                            types[i].map_at(vars, at + Self::sizes(types.take(i)))
                        } else {
                            self
                        },
                ),
            ),
            TypeView::Func { .. } => self,
        }
    }

    /// The type with its variables replaced, in order, by the first
    /// variables of `vars`.
    pub open spec fn map_to(self, vars: Seq<Var>) -> TypeView<'a> {
        self.map_at(vars, 0)
    }

    /// Whether a function type occurs in the type.
    pub open spec fn holds_function(self) -> bool
        decreases self,
    {
        match self {
            TypeView::Int(_) => false,
            TypeView::Bool(_) => false,
            TypeView::Maybe(_, inner) => inner.holds_function(),
            TypeView::Tuple(types) => exists|i: int|
                0 <= i < types.len() && (#[trigger] types[i]).holds_function(),
            TypeView::Func { .. } => true,
        }
    }

    /// Whether every function value in the type is one of the functions
    /// `cells`, under the number of its list of implementations, and has a
    /// pattern and a body that can be handed to the compiler.
    pub open spec fn known(self, cells: Seq<Source<'a>>) -> bool
        decreases self,
    {
        match self {
            TypeView::Int(_) => true,
            TypeView::Bool(_) => true,
            TypeView::Maybe(_, inner) => inner.known(cells),
            TypeView::Tuple(types) => forall|i: int|
                0 <= i < types.len() ==> (#[trigger] types[i]).known(cells),
            TypeView::Func { pattern, expr, impls } => {
                &&& impls.id < cells.len()
                &&& cells[impls.id as int] == (Source { pattern, body: expr })
                &&& pattern.compilable()
                &&& expr.compilable()
            },
        }
    }

    /// Every variable of the type is one of the first `count`.
    pub open spec fn within(self, count: int) -> bool {
        forall|k: int| 0 <= k < self.vars().len() ==> (#[trigger] self.vars()[k]).id < count
    }
}

/// The instructions that merge the values in `a` and `b`, variable by
/// variable, into new variables from number `first` on.
pub open spec fn phis(cond: Var, a: Seq<Var>, b: Seq<Var>, first: int) -> Seq<InstructionView> {
    Seq::new(
        a.len(),
        |i: int|
            InstructionView::Phi { dest: Var { id: (first + i) as usize }, cond, a: a[i], b: b[i] },
    )
}

/// The sizes of the first `i + 1` types are those of the first `i` and of
/// the next one; no prefix is larger than the whole.
pub proof fn lemma_sizes_take<'a>(types: Seq<TypeView<'a>>, i: int)
    requires
        0 <= i < types.len(),
    ensures
        TypeView::sizes(types.take(i + 1)) == TypeView::sizes(types.take(i)) + types[i].size(),
        TypeView::sizes(types.take(i + 1)) <= TypeView::sizes(types),
        TypeView::vars_of(types.take(i + 1)) == TypeView::vars_of(types.take(i)) + types[i].vars(),
    decreases types.len() - i,
{
    assert(types.take(i + 1).drop_last() =~= types.take(i));
    assert(types.take(i + 1).last() == types[i]);
    if i + 1 < types.len() {
        lemma_sizes_take(types, i + 1);
    } else {
        assert(types.take(i + 1) =~= types);
    }
}

/// A type has as many variables as its size says.
pub proof fn lemma_vars_len<'a>(ty: TypeView<'a>)
    ensures
        ty.vars().len() == ty.size(),
    decreases ty,
{
    match ty {
        TypeView::Maybe(_, inner) => {
            lemma_vars_len(*inner);
        },
        TypeView::Tuple(types) => {
            lemma_vars_of_len(types);
        },
        _ => {},
    }
}

/// A list of types has as many variables as the sum of its sizes says.
pub proof fn lemma_vars_of_len<'a>(types: Seq<TypeView<'a>>)
    ensures
        TypeView::vars_of(types).len() == TypeView::sizes(types),
    decreases types,
{
    if types.len() > 0 {
        lemma_vars_of_len(types.drop_last());
        lemma_vars_len(types.last());
    }
}

/// The variables of the `i`-th of a list of types stand in the variables of
/// the list behind those of the `i` types before it.
pub proof fn lemma_vars_of_part<'a>(types: Seq<TypeView<'a>>, i: int)
    requires
        0 <= i < types.len(),
    ensures
        TypeView::sizes(types.take(i)) + types[i].size() <= TypeView::sizes(types),
        TypeView::vars_of(types).subrange(
            TypeView::sizes(types.take(i)) as int,
            (TypeView::sizes(types.take(i)) + types[i].size()) as int,
        ) == types[i].vars(),
    decreases types.len(),
{
    let front = types.drop_last();
    lemma_vars_of_len(front);
    lemma_vars_len(types.last());
    lemma_vars_of_len(types);
    if i == types.len() - 1 {
        assert(types.take(i) =~= front);
        assert(TypeView::vars_of(types).subrange(
            TypeView::sizes(front) as int,
            (TypeView::sizes(front) + types[i].size()) as int,
        ) =~= types[i].vars());
    } else {
        lemma_vars_of_part(front, i);
        assert(front.take(i) =~= types.take(i));
        let lo = TypeView::sizes(types.take(i)) as int;
        let hi = lo + types[i].size();
        assert(TypeView::vars_of(types).subrange(lo, hi) =~= TypeView::vars_of(front).subrange(
            lo,
            hi,
        ));
    }
}

/// Every type is built like itself.
pub proof fn lemma_same_shape_reflexive<'a>(ty: TypeView<'a>)
    ensures
        ty.same_shape(ty),
    decreases ty,
{
    match ty {
        TypeView::Maybe(_, inner) => {
            lemma_same_shape_reflexive(*inner);
        },
        TypeView::Tuple(types) => {
            assert forall|i: int| 0 <= i < types.len() implies (#[trigger] types[i]).same_shape(
                types[i],
            ) by {
                lemma_same_shape_reflexive(types[i]);
            }
        },
        _ => {},
    }
}

/// Being built alike goes both ways.
pub proof fn lemma_same_shape_symmetric<'a>(a: TypeView<'a>, b: TypeView<'a>)
    requires
        a.same_shape(b),
    ensures
        b.same_shape(a),
    decreases a,
{
    match (a, b) {
        (TypeView::Maybe(_, x), TypeView::Maybe(_, y)) => {
            lemma_same_shape_symmetric(*x, *y);
        },
        (TypeView::Tuple(x), TypeView::Tuple(y)) => {
            assert forall|i: int| 0 <= i < y.len() implies (#[trigger] y[i]).same_shape(x[i]) by {
                assert(x[i].same_shape(y[i]));
                lemma_same_shape_symmetric(x[i], y[i]);
            }
        },
        _ => {},
    }
}

/// Being built alike carries over from one pair to the next.
pub proof fn lemma_same_shape_transitive<'a>(a: TypeView<'a>, b: TypeView<'a>, c: TypeView<'a>)
    requires
        a.same_shape(b),
        b.same_shape(c),
    ensures
        a.same_shape(c),
    decreases a,
{
    match (a, b, c) {
        (TypeView::Maybe(_, x), TypeView::Maybe(_, y), TypeView::Maybe(_, z)) => {
            lemma_same_shape_transitive(*x, *y, *z);
        },
        (TypeView::Tuple(x), TypeView::Tuple(y), TypeView::Tuple(z)) => {
            assert forall|i: int| 0 <= i < x.len() implies (#[trigger] x[i]).same_shape(z[i]) by {
                assert(x[i].same_shape(y[i]));
                assert(y[i].same_shape(z[i]));
                lemma_same_shape_transitive(x[i], y[i], z[i]);
            }
        },
        _ => {},
    }
}

/// Types that are built alike have the same size.
pub proof fn lemma_same_shape_size<'a>(a: TypeView<'a>, b: TypeView<'a>)
    requires
        a.same_shape(b),
    ensures
        a.size() == b.size(),
    decreases a,
{
    match (a, b) {
        (TypeView::Maybe(_, x), TypeView::Maybe(_, y)) => {
            lemma_same_shape_size(*x, *y);
        },
        (TypeView::Tuple(x), TypeView::Tuple(y)) => {
            lemma_same_shape_sizes(x, y, x.len() as int);
            assert(x.take(x.len() as int) =~= x);
            assert(y.take(y.len() as int) =~= y);
        },
        _ => {},
    }
}

/// Lists of types that are built alike one by one have the same sizes over
/// every prefix.
pub proof fn lemma_same_shape_sizes<'a>(a: Seq<TypeView<'a>>, b: Seq<TypeView<'a>>, n: int)
    requires
        a.len() == b.len(),
        forall|i: int| 0 <= i < a.len() ==> (#[trigger] a[i]).same_shape(b[i]),
        0 <= n <= a.len(),
    ensures
        TypeView::sizes(a.take(n)) == TypeView::sizes(b.take(n)),
    decreases a, n,
{
    if n > 0 {
        lemma_same_shape_sizes(a, b, n - 1);
        lemma_sizes_take(a, n - 1);
        lemma_sizes_take(b, n - 1);
        assert(a[n - 1].same_shape(b[n - 1]));
        lemma_same_shape_size(a[n - 1], b[n - 1]);
    } else {
        assert(a.take(0).len() == 0);
        assert(b.take(0).len() == 0);
    }
}

/// Replacing the variables of a type keeps its shape and its size, and
/// the new variables are those that were put in.
pub proof fn lemma_map_at<'a>(ty: TypeView<'a>, vars: Seq<Var>, at: int)
    requires
        0 <= at,
        at + ty.size() <= vars.len(),
    ensures
        ty.map_at(vars, at).same_shape(ty),
        ty.same_shape(ty.map_at(vars, at)),
        ty.map_at(vars, at).size() == ty.size(),
        ty.map_at(vars, at).vars() == vars.subrange(at, at + ty.size()),
    decreases ty,
{
    let mapped = ty.map_at(vars, at);
    match ty {
        TypeView::Int(_) => {
            assert(mapped.vars() =~= vars.subrange(at, at + 1));
        },
        TypeView::Bool(_) => {
            assert(mapped.vars() =~= vars.subrange(at, at + 1));
        },
        TypeView::Maybe(_, inner) => {
            lemma_map_at(*inner, vars, at + 1);
            assert(mapped.vars() =~= vars.subrange(at, at + ty.size()));
        },
        TypeView::Tuple(types) => {
            let mapped_types = mapped->Tuple_0;
            assert forall|i: int| 0 <= i < types.len() implies {
                &&& (#[trigger] mapped_types[i]).same_shape(types[i])
                &&& types[i].same_shape(mapped_types[i])
                &&& mapped_types[i].size() == types[i].size()
                &&& mapped_types[i].vars() == vars.subrange(
                    at + TypeView::sizes(types.take(i)),
                    at + TypeView::sizes(types.take(i)) + types[i].size(),
                )
            } by {
                lemma_vars_of_part(types, i);
                lemma_map_at(types[i], vars, at + TypeView::sizes(types.take(i)));
            }
            lemma_map_at_prefix(types, mapped_types, vars, at, types.len() as int);
            assert(types.take(types.len() as int) =~= types);
            assert(mapped_types.take(types.len() as int) =~= mapped_types);
        },
        TypeView::Func { .. } => {
            assert(mapped.vars() =~= vars.subrange(at, at));
        },
    }
}

/// What `lemma_map_at` says of a tuple, over the first `n` of its parts.
proof fn lemma_map_at_prefix<'a>(
    types: Seq<TypeView<'a>>,
    mapped: Seq<TypeView<'a>>,
    vars: Seq<Var>,
    at: int,
    n: int,
)
    requires
        0 <= at,
        at + TypeView::sizes(types) <= vars.len(),
        mapped.len() == types.len(),
        0 <= n <= types.len(),
        forall|i: int|
            0 <= i < types.len() ==> {
                &&& (#[trigger] mapped[i]).size() == types[i].size()
                &&& mapped[i].vars() == vars.subrange(
                    at + TypeView::sizes(types.take(i)),
                    at + TypeView::sizes(types.take(i)) + types[i].size(),
                )
            },
    ensures
        TypeView::sizes(mapped.take(n)) == TypeView::sizes(types.take(n)),
        TypeView::sizes(types.take(n)) <= TypeView::sizes(types),
        TypeView::vars_of(mapped.take(n)) == vars.subrange(
            at,
            at + TypeView::sizes(types.take(n)),
        ),
    decreases n,
{
    if n == 0 {
        assert(mapped.take(0).len() == 0);
        assert(types.take(0).len() == 0);
        assert(TypeView::vars_of(mapped.take(0)) =~= vars.subrange(at, at));
    } else {
        lemma_map_at_prefix(types, mapped, vars, at, n - 1);
        lemma_sizes_take(types, n - 1);
        lemma_sizes_take(mapped, n - 1);
        assert(mapped[n - 1].size() == types[n - 1].size());
        assert(TypeView::vars_of(mapped.take(n)) =~= vars.subrange(
            at,
            at + TypeView::sizes(types.take(n)),
        ));
    }
}

/// Replacing the variables of a type leaves its function values alone.
pub proof fn lemma_map_at_known<'a>(
    ty: TypeView<'a>,
    vars: Seq<Var>,
    at: int,
    cells: Seq<Source<'a>>,
)
    requires
        ty.known(cells),
    ensures
        ty.map_at(vars, at).known(cells),
    decreases ty,
{
    match ty {
        TypeView::Maybe(_, inner) => {
            lemma_map_at_known(*inner, vars, at + 1, cells);
        },
        TypeView::Tuple(types) => {
            let mapped = ty.map_at(vars, at)->Tuple_0;
            assert forall|i: int| 0 <= i < mapped.len() implies (#[trigger] mapped[i]).known(
                cells,
            ) by {
                assert(types[i].known(cells));
                lemma_map_at_known(types[i], vars, at + TypeView::sizes(types.take(i)), cells);
            }
        },
        _ => {},
    }
}

/// A type whose function values are among the functions `cells` has them
/// among any longer list of functions.
pub proof fn lemma_known_more<'a>(ty: TypeView<'a>, cells: Seq<Source<'a>>, more: Seq<Source<'a>>)
    requires
        ty.known(cells),
        cells.is_prefix_of(more),
    ensures
        ty.known(more),
    decreases ty,
{
    match ty {
        TypeView::Maybe(_, inner) => {
            lemma_known_more(*inner, cells, more);
        },
        TypeView::Tuple(types) => {
            assert forall|i: int| 0 <= i < types.len() implies (#[trigger] types[i]).known(
                more,
            ) by {
                assert(types[i].known(cells));
                lemma_known_more(types[i], cells, more);
            }
        },
        TypeView::Func { impls, .. } => {
            assert(more[impls.id as int] == cells[impls.id as int]);
        },
        _ => {},
    }
}

/// Types that are built alike and whose function values are among the
/// same functions differ in their variables only: with the same variables
/// put in, they are the same.
pub proof fn lemma_alike_same<'a>(
    a: TypeView<'a>,
    b: TypeView<'a>,
    cells: Seq<Source<'a>>,
    vars: Seq<Var>,
    at: int,
)
    requires
        a.same_shape(b),
        a.known(cells),
        b.known(cells),
    ensures
        a.map_at(vars, at) == b.map_at(vars, at),
    decreases a,
{
    match (a, b) {
        (TypeView::Maybe(_, x), TypeView::Maybe(_, y)) => {
            lemma_alike_same(*x, *y, cells, vars, at + 1);
        },
        (TypeView::Tuple(x), TypeView::Tuple(y)) => {
            let mapped_a = a.map_at(vars, at)->Tuple_0;
            let mapped_b = b.map_at(vars, at)->Tuple_0;
            assert forall|i: int| 0 <= i < x.len() implies mapped_a[i] == mapped_b[i] by {
                assert(x[i].same_shape(y[i]));
                assert(x[i].known(cells));
                assert(y[i].known(cells));
                lemma_same_shape_sizes(x, y, i);
                lemma_alike_same(x[i], y[i], cells, vars, at + TypeView::sizes(x.take(i)));
            }
            assert(mapped_a =~= mapped_b);
        },
        _ => {},
    }
}

/// The law of types and sizes: a type has as many variables as its size
/// says, and putting its own variables back in gives the type itself, which
/// is built like it.
pub proof fn lemma_type_size_law<'a>(ty: TypeView<'a>)
    ensures
        ty.vars().len() == ty.size(),
        ty.map_to(ty.vars()) == ty,
        ty.map_to(ty.vars()).same_shape(ty),
{
    lemma_vars_len(ty);
    assert(ty.vars().subrange(0, ty.size() as int) =~= ty.vars());
    lemma_map_back(ty, ty.vars(), 0);
    lemma_same_shape_reflexive(ty);
}

/// What `duplicate` and `as_parameter` make of a type: a type of its
/// shape and size that holds the next variables, from number `first` on, in
/// order.
pub proof fn lemma_duplicate_law<'a>(ty: TypeView<'a>, first: int)
    ensures
        ty.map_to(var_range(first, ty.size())).same_shape(ty),
        ty.map_to(var_range(first, ty.size())).size() == ty.size(),
        ty.map_to(var_range(first, ty.size())).vars() == var_range(first, ty.size()),
        ty.map_to(var_range(first, ty.size())).vars().len() == ty.size(),
{
    let fresh = var_range(first, ty.size());
    lemma_map_at(ty, fresh, 0);
    assert(fresh.subrange(0, ty.size() as int) =~= fresh);
}

/// Putting into a type the variables that it holds already changes nothing.
pub proof fn lemma_map_back<'a>(ty: TypeView<'a>, vars: Seq<Var>, at: int)
    requires
        0 <= at,
        at + ty.size() <= vars.len(),
        vars.subrange(at, at + ty.size()) == ty.vars(),
    ensures
        ty.map_at(vars, at) == ty,
    decreases ty,
{
    match ty {
        TypeView::Int(var) => {
            assert(vars.subrange(at, at + 1)[0] == var);
        },
        TypeView::Bool(var) => {
            assert(vars.subrange(at, at + 1)[0] == var);
        },
        TypeView::Maybe(tag, inner) => {
            lemma_vars_len(*inner);
            assert(vars.subrange(at, at + ty.size())[0] == tag);
            assert(vars.subrange(at + 1, at + 1 + inner.size()) =~= inner.vars()) by {
                assert forall|k: int| 0 <= k < inner.size() implies vars.subrange(
                    at + 1,
                    at + 1 + inner.size(),
                )[k] == inner.vars()[k] by {
                    assert(vars.subrange(at, at + ty.size())[k + 1] == ty.vars()[k + 1]);
                }
            }
            lemma_map_back(*inner, vars, at + 1);
        },
        TypeView::Tuple(types) => {
            let mapped = ty.map_at(vars, at)->Tuple_0;
            assert forall|i: int| 0 <= i < types.len() implies #[trigger] mapped[i] == types[i] by {
                lemma_vars_of_part(types, i);
                let lo = TypeView::sizes(types.take(i)) as int;
                assert(vars.subrange(at + lo, at + lo + types[i].size()) =~= types[i].vars()) by {
                    assert forall|k: int| 0 <= k < types[i].size() implies vars.subrange(
                        at + lo,
                        at + lo + types[i].size(),
                    )[k] == types[i].vars()[k] by {
                        assert(vars.subrange(at, at + ty.size())[lo + k] == ty.vars()[lo + k]);
                        assert(TypeView::vars_of(types).subrange(lo, lo + types[i].size())[k]
                            == types[i].vars()[k]);
                    }
                }
                lemma_map_back(types[i], vars, at + lo);
            }
            assert(mapped =~= types);
        },
        TypeView::Func { .. } => {},
    }
}

/// The parts of a tuple hold variables of the tuple.
pub proof fn lemma_part_within<'a>(types: Seq<TypeView<'a>>, i: int, count: int)
    requires
        TypeView::Tuple(types).within(count),
        0 <= i < types.len(),
    ensures
        types[i].within(count),
{
    lemma_vars_of_part(types, i);
    lemma_vars_len(types[i]);
    lemma_vars_of_len(types);
    let lo = TypeView::sizes(types.take(i)) as int;
    let whole = TypeView::Tuple(types);
    assert(whole.vars() == TypeView::vars_of(types));
    assert forall|k: int| 0 <= k < types[i].vars().len() implies (#[trigger] types[i].vars()[k]).id
        < count by {
        assert(TypeView::vars_of(types).subrange(lo, lo + types[i].size())[k] == types[i].vars()[k]);
        assert(whole.vars()[lo + k].id < count);
    }
}

/// A tuple holds the variables of its first `n` parts, and no others, among
/// its first variables.
pub proof fn lemma_tuple_within<'a>(types: Seq<TypeView<'a>>, n: int, count: int)
    requires
        0 <= n <= types.len(),
        forall|i: int| 0 <= i < n ==> (#[trigger] types[i]).within(count),
    ensures
        forall|k: int|
            0 <= k < TypeView::vars_of(types.take(n)).len() ==> (#[trigger] TypeView::vars_of(
                types.take(n),
            )[k]).id < count,
    decreases n,
{
    if n == 0 {
        assert(types.take(0).len() == 0);
    } else {
        lemma_tuple_within(types, n - 1, count);
        lemma_sizes_take(types, n - 1);
        let front = TypeView::vars_of(types.take(n - 1));
        assert forall|k: int|
            0 <= k < TypeView::vars_of(types.take(n)).len() implies (#[trigger] TypeView::vars_of(
            types.take(n),
        )[k]).id < count by {
            if k < front.len() {
                assert(TypeView::vars_of(types.take(n))[k] == front[k]);
            } else {
                assert(types[n - 1].within(count));
                assert(TypeView::vars_of(types.take(n))[k] == types[n - 1].vars()[k - front.len()]);
            }
        }
    }
}

impl<'a, 'b> Type<'a, 'b> {
    /// The type as a mathematical value.
    pub open spec fn model(&self) -> TypeView<'a>
        decreases self,
    {
        match self {
            Type::Int(var) => TypeView::Int(*var),
            Type::Bool(var) => TypeView::Bool(*var),
            Type::Maybe(tag, inner) => TypeView::Maybe(*tag, Box::new(inner.model())),
            Type::Tuple(types) => TypeView::Tuple(Self::models(types@)),
            Type::Func { pattern, expr, impls } => TypeView::Func {
                pattern: **pattern,
                expr: **expr,
                impls: *impls,
            },
        }
    }

    /// The types of a list as mathematical values.
    pub open spec fn models(types: Seq<Type<'a, 'b>>) -> Seq<TypeView<'a>>
        decreases types,
    {
        Seq::new(
            types.len(),
            |i: int|
                if 0 <= i < types.len() {
                    types[i].model()
                } else {
                    TypeView::Int(Var { id: 0 })
                },
        )
    }
}

impl<'a, 'b> View for Type<'a, 'b> {
    type V = TypeView<'a>;

    open spec fn view(&self) -> TypeView<'a> {
        self.model()
    }
}

impl<'a, 'b> View for Implementation<'a, 'b> {
    type V = ImplementationView<'a>;

    open spec fn view(&self) -> ImplementationView<'a> {
        ImplementationView {
            param_ty: self.param_ty@,
            return_ty: self.return_ty@,
            entry: self.entry,
        }
    }
}

impl<'a, 'b> PartialEq for Type<'a, 'b> {
    /// Types are equal if they are built alike, whatever variables they
    /// hold.
    fn eq(&self, other: &Type<'a, 'b>) -> (alike: bool) {
        self.equals(other)
    }
}

impl<'a, 'b> Eq for Type<'a, 'b> {

}

impl<'a, 'b> PartialEqSpecImpl for Type<'a, 'b> {
    open spec fn obeys_eq_spec() -> bool {
        true
    }

    open spec fn eq_spec(&self, other: &Type<'a, 'b>) -> bool {
        self@.same_shape(other@)
    }
}

impl<'a, 'b> Clone for Type<'a, 'b> {
    fn clone(&self) -> (copy: Type<'a, 'b>)
        ensures
            copy@ == self@,
        decreases self,
    {
        match self {
            Type::Int(var) => Type::Int(*var),
            Type::Bool(var) => Type::Bool(*var),
            Type::Maybe(tag, inner) => Type::Maybe(*tag, Box::new((&**inner).clone())),
            Type::Tuple(types) => {
                let mut copies: Vec<Type<'a, 'b>> = Vec::new();
                let mut i: usize = 0;
                while i < types.len()
                    invariant
                        i <= types.len(),
                        copies@.len() == i,
                        forall|j: int| 0 <= j < i ==> (#[trigger] copies@[j])@ == types@[j]@,
                        *self == Type::Tuple(*types),
                        decreases_to!(self => types),
                    decreases types.len() - i,
                {
                    assert(decreases_to!(self => types[i as int]));
                    copies.push(types[i].clone());
                    i += 1;
                }
                assert(Self::models(copies@) =~= Self::models(types@));
                Type::Tuple(copies)
            },
            Type::Func { pattern, expr, impls } => Type::Func {
                pattern: *pattern,
                expr: *expr,
                impls: *impls,
            },
        }
    }
}

impl<'a, 'b> Type<'a, 'b> {
    /// Appends the variables of the type to `out`.
    fn collect_vars(&self, out: &mut Vec<Var>)
        ensures
            final(out)@ == old(out)@ + self@.vars(),
        decreases self,
    {
        match self {
            Type::Int(var) => {
                out.push(*var);
                assert(out@ =~= old(out)@ + self@.vars());
            },
            Type::Bool(var) => {
                out.push(*var);
                assert(out@ =~= old(out)@ + self@.vars());
            },
            Type::Maybe(tag, inner) => {
                out.push(*tag);
                inner.collect_vars(out);
                assert(out@ =~= old(out)@ + self@.vars());
            },
            Type::Tuple(types) => {
                let mut i: usize = 0;
                assert(Self::models(types@).take(0) =~= Seq::empty());
                assert(out@ =~= old(out)@ + TypeView::vars_of(Self::models(types@).take(0)));
                while i < types.len()
                    invariant
                        i <= types.len(),
                        out@ == old(out)@ + TypeView::vars_of(Self::models(types@).take(i as int)),
                        *self == Type::Tuple(*types),
                        decreases_to!(self => types),
                    decreases types.len() - i,
                {
                    proof {
                        lemma_sizes_take(Self::models(types@), i as int);
                    }
                    assert(decreases_to!(self => types[i as int]));
                    types[i].collect_vars(out);
                    i += 1;
                    assert(out@ =~= old(out)@ + TypeView::vars_of(
                        Self::models(types@).take(i as int),
                    ));
                }
                assert(Self::models(types@).take(types.len() as int) =~= Self::models(types@));
            },
            Type::Func { .. } => {
                assert(out@ =~= old(out)@ + self@.vars());
            },
        }
    }

    /// The variables of the type, each node before its parts and the parts
    /// from left to right.
    pub fn vars(&self) -> (vars: Vec<Var>)
        ensures
            vars@ == self@.vars(),
    {
        let mut vars: Vec<Var> = Vec::new();
        self.collect_vars(&mut vars);
        assert(vars@ =~= self@.vars());
        vars
    }

    /// The number of variables that a value of the type takes.
    pub fn size(&self) -> (size: usize)
        ensures
            size == self@.size(),
    {
        proof {
            lemma_vars_len(self@);
        }
        self.vars().len()
    }

    /// Whether the two types are built alike, whatever variables they hold.
    pub fn equals(&self, other: &Type<'a, 'b>) -> (alike: bool)
        ensures
            alike == self@.same_shape(other@),
        decreases self,
    {
        match (self, other) {
            (Type::Int(_), Type::Int(_)) => true,
            (Type::Bool(_), Type::Bool(_)) => true,
            (Type::Maybe(_, a), Type::Maybe(_, b)) => a.equals(b),
            (Type::Tuple(a), Type::Tuple(b)) => {
                assert(Self::models(a@).len() == a@.len());
                assert(Self::models(b@).len() == b@.len());
                if a.len() != b.len() {
                    return false;
                }
                let mut i: usize = 0;
                while i < a.len()
                    invariant
                        i <= a.len(),
                        a.len() == b.len(),
                        forall|j: int|
                            0 <= j < i ==> (#[trigger] Self::models(a@)[j]).same_shape(
                                Self::models(b@)[j],
                            ),
                        *self == Type::Tuple(*a),
                        decreases_to!(self => a),
                        *other == Type::Tuple(*b),
                    decreases a.len() - i,
                {
                    assert(decreases_to!(self => a[i as int]));
                    if !a[i].equals(&b[i]) {
                        assert(!Self::models(a@)[i as int].same_shape(Self::models(b@)[i as int]));
                        return false;
                    }
                    i += 1;
                }
                true
            },
            (Type::Func { impls: a, .. }, Type::Func { impls: b, .. }) => a.id == b.id,
            _ => false,
        }
    }

    /// Whether a function type occurs in the type.
    pub fn holds_function(&self) -> (found: bool)
        ensures
            found == self@.holds_function(),
        decreases self,
    {
        match self {
            Type::Int(_) => false,
            Type::Bool(_) => false,
            Type::Maybe(_, inner) => inner.holds_function(),
            Type::Tuple(types) => {
                let mut i: usize = 0;
                while i < types.len()
                    invariant
                        i <= types.len(),
                        forall|j: int| 0 <= j < i ==> !(#[trigger] types@[j])@.holds_function(),
                        *self == Type::Tuple(*types),
                        decreases_to!(self => types),
                    decreases types.len() - i,
                {
                    assert(decreases_to!(self => types[i as int]));
                    if types[i].holds_function() {
                        assert(self@ == TypeView::Tuple(Self::models(types@)));
                        assert(Self::models(types@)[i as int].holds_function());
                        assert(self@->Tuple_0[i as int].holds_function());
                        assert(self@.holds_function());
                        return true;
                    }
                    i += 1;
                }
                assert forall|j: int| 0 <= j < types.len() implies !(#[trigger] Self::models(
                    types@,
                )[j]).holds_function() by {
                    assert(!types@[j]@.holds_function());
                }
                assert(self@ == TypeView::Tuple(Self::models(types@)));
                false
            },
            Type::Func { .. } => true,
        }
    }

    /// The type with its variables replaced, in order, by those of `vars`
    /// from index `at` on.
    fn map_at(&self, vars: &Vec<Var>, at: usize) -> (mapped: Type<'a, 'b>)
        requires
            at + self@.size() <= vars@.len(),
        ensures
            mapped@ == self@.map_at(vars@, at as int),
        decreases self,
    {
        match self {
            Type::Int(_) => Type::Int(vars[at]),
            Type::Bool(_) => Type::Bool(vars[at]),
            Type::Maybe(_, inner) => {
                assert(self@.size() == 1 + inner@.size());
                let limit: usize = vars.len();
                Type::Maybe(vars[at], Box::new(inner.map_at(vars, at + 1)))
            },
            Type::Tuple(types) => {
                let mut mapped: Vec<Type<'a, 'b>> = Vec::new();
                let limit: usize = vars.len();
                let mut offset: usize = at;
                let mut i: usize = 0;
                let ghost views = Self::models(types@);
                assert(views.take(0).len() == 0);
                while i < types.len()
                    invariant
                        i <= types.len(),
                        views == Self::models(types@),
                        mapped@.len() == i,
                        offset == at + TypeView::sizes(views.take(i as int)),
                        at + TypeView::sizes(views) <= vars@.len(),
                        vars@.len() == limit,
                        forall|j: int|
                            0 <= j < i ==> (#[trigger] mapped@[j])@ == views[j].map_at(
                                vars@,
                                at + TypeView::sizes(views.take(j)),
                            ),
                        *self == Type::Tuple(*types),
                        decreases_to!(self => types),
                    decreases types.len() - i,
                {
                    proof {
                        lemma_sizes_take(views, i as int);
                        assert(views[i as int] == types@[i as int]@);
                        assert(decreases_to!(self => types[i as int]));
                    }
                    let part = types[i].map_at(vars, offset);
                    let size = types[i].size();
                    mapped.push(part);
                    offset = offset + size;
                    i += 1;
                }
                assert(Self::models(mapped@) =~= self@.map_at(vars@, at as int)->Tuple_0);
                Type::Tuple(mapped)
            },
            Type::Func { pattern, expr, impls } => Type::Func {
                pattern: *pattern,
                expr: *expr,
                impls: *impls,
            },
        }
    }

    /// The type with its variables replaced, in order, by the first
    /// variables of `vars`.
    pub fn map_to(&self, vars: &Vec<Var>) -> (mapped: Type<'a, 'b>)
        requires
            self@.size() <= vars@.len(),
        ensures
            mapped@ == self@.map_to(vars@),
    {
        self.map_at(vars, 0)
    }

    /// A type of the same shape whose variables are new variables of
    /// `function`.
    pub fn duplicate(&self, function: &mut Function) -> (copy: Type<'a, 'b>)
        requires
            old(function)@.variable_count + self@.size() <= usize::MAX,
        ensures
            copy@ == self@.map_to(
                var_range(old(function)@.variable_count as int, self@.size()),
            ),
            final(function)@ == old(function)@.grown(self@.size() as int),
    {
        let size = self.size();
        let mut fresh: Vec<Var> = Vec::new();
        let ghost first = function@.variable_count as int;
        let mut i: usize = 0;
        while i < size
            invariant
                i <= size,
                first + size <= usize::MAX,
                first == old(function)@.variable_count,
                function@ == old(function)@.grown(i as int),
                fresh@ == var_range(first, i as nat),
            decreases size - i,
        {
            let variable = function.new_variable();
            fresh.push(variable);
            i += 1;
            assert(fresh@ =~= var_range(first, i as nat));
        }
        self.map_to(&fresh)
    }

    /// A type of the same shape whose variables are new parameters of
    /// `function`, declared in order.
    pub fn as_parameter(&self, function: &mut Function) -> (param_ty: Type<'a, 'b>)
        requires
            old(function)@.variable_count + self@.size() <= usize::MAX,
        ensures
            param_ty@ == self@.map_to(
                var_range(old(function)@.variable_count as int, self@.size()),
            ),
            final(function)@ == (FunctionView {
                params: old(function)@.params + var_range(
                    old(function)@.variable_count as int,
                    self@.size(),
                ),
                ..old(function)@.grown(self@.size() as int)
            }),
    {
        let size = self.size();
        let mut fresh: Vec<Var> = Vec::new();
        let ghost first = function@.variable_count as int;
        let mut i: usize = 0;
        assert(old(function)@.params + var_range(first, 0) =~= old(function)@.params);
        while i < size
            invariant
                i <= size,
                first + size <= usize::MAX,
                first == old(function)@.variable_count,
                function@ == (FunctionView {
                    params: old(function)@.params + var_range(first, i as nat),
                    ..old(function)@.grown(i as int)
                }),
                fresh@ == var_range(first, i as nat),
            decreases size - i,
        {
            let variable = function.add_parameter();
            fresh.push(variable);
            i += 1;
            assert(fresh@ =~= var_range(first, i as nat));
            assert(function@.params =~= old(function)@.params + var_range(first, i as nat));
        }
        self.map_to(&fresh)
    }

    /// Declares the variables of the type, in order, as return variables of
    /// `function`.
    pub fn ret(&self, function: &mut Function)
        ensures
            final(function)@ == (FunctionView {
                returns: old(function)@.returns + self@.vars(),
                ..old(function)@
            }),
    {
        let vars = self.vars();
        let mut i: usize = 0;
        assert(old(function)@.returns + vars@.take(0) =~= old(function)@.returns);
        while i < vars.len()
            invariant
                i <= vars.len(),
                function@ == (FunctionView {
                    returns: old(function)@.returns + vars@.take(i as int),
                    ..old(function)@
                }),
            decreases vars.len() - i,
        {
            function.add_return(vars[i]);
            i += 1;
            assert(function@.returns =~= old(function)@.returns + vars@.take(i as int));
        }
        assert(vars@.take(vars.len() as int) =~= vars@);
    }

    /// Merges two values of one shape behind a branch on `cond`: for each
    /// pair of variables a `phi` that picks the one of `self` if `cond` is
    /// not zero and the one of `other` if it is. The result holds the new
    /// variables.
    pub fn merge(
        &self,
        other: &Type<'a, 'b>,
        cond: Var,
        function: &mut Function,
        block: &mut Block,
    ) -> (merged: Type<'a, 'b>)
        requires
            self@.same_shape(other@),
            old(function)@.variable_count + self@.size() <= usize::MAX,
        ensures
            merged@ == self@.map_to(
                var_range(old(function)@.variable_count as int, self@.size()),
            ),
            final(function)@ == old(function)@.grown(self@.size() as int),
            final(block)@.insts == old(block)@.insts + phis(
                cond,
                self@.vars(),
                other@.vars(),
                old(function)@.variable_count as int,
            ),
            final(block)@.id == old(block)@.id,
            final(block)@.exit == old(block)@.exit,
            final(block)@.committed == old(block)@.committed,
    {
        let ours = self.vars();
        let theirs = other.vars();
        proof {
            lemma_vars_len(self@);
            lemma_vars_len(other@);
            lemma_same_shape_size(self@, other@);
        }
        let mut fresh: Vec<Var> = Vec::new();
        let ghost first = function@.variable_count as int;
        let ghost all = phis(cond, ours@, theirs@, first);
        let mut i: usize = 0;
        assert(old(block)@.insts + all.take(0) =~= old(block)@.insts);
        while i < ours.len()
            invariant
                i <= ours.len(),
                ours@.len() == theirs@.len(),
                first + ours@.len() <= usize::MAX,
                first == old(function)@.variable_count,
                all == phis(cond, ours@, theirs@, first),
                function@ == old(function)@.grown(i as int),
                fresh@ == var_range(first, i as nat),
                block@.insts == old(block)@.insts + all.take(i as int),
                block@.id == old(block)@.id,
                block@.exit == old(block)@.exit,
                block@.committed == old(block)@.committed,
            decreases ours.len() - i,
        {
            let dest = block.phi(cond, ours[i], theirs[i], function);
            fresh.push(dest);
            i += 1;
            assert(fresh@ =~= var_range(first, i as nat));
            assert(block@.insts =~= old(block)@.insts + all.take(i as int));
        }
        assert(all.take(ours.len() as int) =~= all);
        self.map_to(&fresh)
    }
}

} // verus!

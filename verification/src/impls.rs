//! The implementations of function values. Every function value has a list
//! of the instances that were compiled for it; all copies of the value name
//! the same list, which only ever grows.

use crate::ast::{Expr, Parsed};
use crate::ir::ProgramView;
use crate::types::{Implementation, ImplementationView, ImplsId, Source, Type, TypeView};
use vstd::prelude::*;

verus! {

/// A function value: its pattern, its body and its implementations.
#[derive(Debug)]
pub struct Cell<'a, 'b> {
    pattern: &'b Parsed<'a, Expr<'a>>,
    body: &'b Parsed<'a, Expr<'a>>,
    impls: Vec<Implementation<'a, 'b>>,
}

/// The function values of a program, each with the list of its
/// implementations.
#[derive(Debug)]
pub struct ImplTable<'a, 'b> {
    cells: Vec<Cell<'a, 'b>>,
}

/// A function value as a mathematical value.
pub struct CellView<'a> {
    pub pattern: Parsed<'a, Expr<'a>>,
    pub body: Parsed<'a, Expr<'a>>,
    pub impls: Seq<ImplementationView<'a>>,
}

/// The function values as a mathematical value.
pub type TableView<'a> = Seq<CellView<'a>>;

/// The functions of the table, without their implementations.
pub open spec fn registry<'a>(table: TableView<'a>) -> Seq<Source<'a>> {
    Seq::new(table.len(), |c: int| Source { pattern: table[c].pattern, body: table[c].body })
}

/// The table with a new function value that has no implementation yet.
pub open spec fn with_cell<'a>(
    table: TableView<'a>,
    pattern: Parsed<'a, Expr<'a>>,
    body: Parsed<'a, Expr<'a>>,
) -> TableView<'a> {
    table.push(CellView { pattern, body, impls: Seq::empty() })
}

/// The table with one more implementation of the function value `cell`.
pub open spec fn with_impl<'a>(table: TableView<'a>, cell: int, imp: ImplementationView<'a>) -> TableView<
    'a,
> {
    table.update(cell, CellView { impls: table[cell].impls.push(imp), ..table[cell] })
}

/// Whether no two implementations in `list` take parameters of one shape.
pub open spec fn distinct_shapes<'a>(list: Seq<ImplementationView<'a>>) -> bool {
    forall|i: int, j: int|
        #![trigger list[i], list[j]]
        0 <= i < list.len() && 0 <= j < list.len() && i != j ==> !list[i].param_ty.same_shape(
            list[j].param_ty,
        )
}

/// Whether no implementation in `list` takes a parameter of the shape of
/// `ty`.
pub open spec fn absent<'a>(list: Seq<ImplementationView<'a>>, ty: TypeView<'a>) -> bool {
    forall|i: int| 0 <= i < list.len() ==> !(#[trigger] list[i]).param_ty.same_shape(ty)
}

/// Whether `index` is the first implementation in `list` that takes a
/// parameter of the shape of `ty`.
pub open spec fn first_of_shape<'a>(
    list: Seq<ImplementationView<'a>>,
    ty: TypeView<'a>,
    index: int,
) -> bool {
    &&& 0 <= index < list.len()
    &&& list[index].param_ty.same_shape(ty)
    &&& absent(list.take(index), ty)
}

/// Whether every function value of `old` is still there in `new`, with
/// the same implementations at the front of its list.
pub open spec fn table_extends<'a>(new: TableView<'a>, old: TableView<'a>) -> bool {
    &&& old.len() <= new.len()
    &&& forall|c: int|
        0 <= c < old.len() ==> {
            &&& (#[trigger] old[c]).impls.is_prefix_of(new[c].impls)
            &&& old[c].pattern == new[c].pattern
            &&& old[c].body == new[c].body
        }
}

/// A table that continues another has its functions at the front of its
/// own.
pub proof fn lemma_registry_extends<'a>(new: TableView<'a>, old: TableView<'a>)
    requires
        table_extends(new, old),
    ensures
        registry(old).is_prefix_of(registry(new)),
{
    assert forall|c: int| 0 <= c < old.len() implies registry(old)[c] == registry(new)[c] by {
        assert(old[c].pattern == new[c].pattern);
    }
}

/// Whether an implementation stands for a function of `program` that takes
/// as many parameters as its parameter type has variables and returns as
/// many values as its return type has.
pub open spec fn implements<'a>(imp: ImplementationView<'a>, program: ProgramView) -> bool {
    &&& imp.entry.id < program.functions.len()
    &&& program.functions[imp.entry.id as int].params.len() == imp.param_ty.size()
    &&& program.functions[imp.entry.id as int].returns.len() == imp.return_ty.size()
}

/// What holds of the table while a program is compiled: every
/// implementation stands for a function of the program, the function
/// values in its types have their lists in the table, and no list holds two
/// implementations for one shape of parameter.
pub open spec fn table_ok<'a>(table: TableView<'a>, program: ProgramView) -> bool {
    forall|c: int|
        0 <= c < table.len() ==> {
            &&& distinct_shapes((#[trigger] table[c]).impls)
            &&& table[c].pattern.compilable()
            &&& table[c].body.compilable()
            &&& forall|i: int|
                0 <= i < table[c].impls.len() ==> {
                    &&& implements(#[trigger] table[c].impls[i], program)
                    &&& table[c].impls[i].param_ty.known(registry(table))
                    &&& table[c].impls[i].return_ty.known(registry(table))
                }
        }
}

impl<'a, 'b> View for ImplTable<'a, 'b> {
    type V = TableView<'a>;

    closed spec fn view(&self) -> TableView<'a> {
        Seq::new(
            self.cells@.len(),
            |c: int|
                CellView {
                    pattern: *self.cells@[c].pattern,
                    body: *self.cells@[c].body,
                    impls: Seq::new(
                        self.cells@[c].impls@.len(),
                        |i: int| self.cells@[c].impls@[i]@,
                    ),
                },
        )
    }
}

impl<'a, 'b> ImplTable<'a, 'b> {
    /// A table without lists.
    pub fn new() -> (table: ImplTable<'a, 'b>)
        ensures
            table@.len() == 0,
    {
        ImplTable { cells: Vec::new() }
    }

    /// The number of lists.
    pub fn len(&self) -> (n: usize)
        ensures
            n == self@.len(),
    {
        self.cells.len()
    }

    /// Enters a new function value, with an empty list of implementations.
    pub fn new_cell(
        &mut self,
        pattern: &'b Parsed<'a, Expr<'a>>,
        body: &'b Parsed<'a, Expr<'a>>,
    ) -> (impls: ImplsId)
        ensures
            impls.id == old(self)@.len(),
            final(self)@ == with_cell(old(self)@, *pattern, *body),
    {
        let impls = ImplsId { id: self.cells.len() };
        self.cells.push(Cell { pattern, body, impls: Vec::new() });
        assert forall|c: int| 0 <= c < self@.len() implies self@[c] == with_cell(
            old(self)@,
            *pattern,
            *body,
        )[c] by {
            if c < old(self)@.len() {
                assert(self@[c].impls =~= old(self)@[c].impls);
            } else {
                assert(self@[c].impls =~= Seq::empty());
            }
        }
        assert(self@ =~= with_cell(old(self)@, *pattern, *body));
        impls
    }

    /// The number of implementations in the list `impls`.
    pub fn count(&self, impls: ImplsId) -> (n: usize)
        requires
            impls.id < self@.len(),
        ensures
            n == self@[impls.id as int].impls.len(),
    {
        self.cells[impls.id].impls.len()
    }

    /// The first implementation in the list `impls` whose parameter is of
    /// the shape of `argument_ty`.
    pub fn find(&self, impls: ImplsId, argument_ty: &Type<'a, 'b>) -> (found: Option<usize>)
        requires
            impls.id < self@.len(),
        ensures
            found matches Some(index) ==> first_of_shape(
                self@[impls.id as int].impls,
                argument_ty@,
                index as int,
            ),
            found is None ==> absent(self@[impls.id as int].impls, argument_ty@),
    {
        let list = &self.cells[impls.id].impls;
        let ghost view = self@[impls.id as int].impls;
        let mut i: usize = 0;
        while i < list.len()
            invariant
                i <= list.len(),
                impls.id < self@.len(),
                view == self@[impls.id as int].impls,
                list@.len() == view.len(),
                forall|j: int| 0 <= j < list@.len() ==> (#[trigger] list@[j])@ == view[j],
                absent(view.take(i as int), argument_ty@),
            decreases list.len() - i,
        {
            if list[i].param_ty.equals(argument_ty) {
                return Some(i);
            }
            assert forall|j: int| 0 <= j < i + 1 implies !(#[trigger] view.take(
                i + 1,
            )[j]).param_ty.same_shape(argument_ty@) by {
                if j < i {
                    assert(view.take(i as int)[j] == view[j]);
                }
            }
            i += 1;
        }
        assert(view.take(i as int) =~= view);
        None
    }

    pub fn get(&self, impls: ImplsId, index: usize) -> (imp: &Implementation<'a, 'b>)
        requires
            impls.id < self@.len(),
            index < self@[impls.id as int].impls.len(),
        ensures
            imp@ == self@[impls.id as int].impls[index as int],
    {
        &self.cells[impls.id].impls[index]
    }

    /// Appends an implementation to the list `impls`.
    pub fn push(&mut self, impls: ImplsId, imp: Implementation<'a, 'b>)
        requires
            impls.id < old(self)@.len(),
        ensures
            final(self)@ == with_impl(old(self)@, impls.id as int, imp@),
    {
        let mut list: Vec<Implementation<'a, 'b>> = Vec::new();
        std::mem::swap(&mut list, &mut self.cells[impls.id].impls);
        list.push(imp);
        let pattern = self.cells[impls.id].pattern;
        let body = self.cells[impls.id].body;
        self.cells[impls.id] = Cell { pattern, body, impls: list };
        assert forall|c: int| 0 <= c < self@.len() implies self@[c] == with_impl(
            old(self)@,
            impls.id as int,
            imp@,
        )[c] by {
            if c == impls.id {
                assert(self@[c].impls =~= old(self)@[c].impls.push(imp@));
            } else {
                assert(self@[c].impls =~= old(self)@[c].impls);
            }
        }
        assert(self@ =~= with_impl(old(self)@, impls.id as int, imp@));
    }
}

} // verus!

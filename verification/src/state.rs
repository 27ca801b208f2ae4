//! The state of the compiler, and what holds of it before and after every
//! expression.

use crate::ast::{Expr, Parsed};
use crate::compiler::Failure;
use crate::cursor::{advanced, building, lemma_advanced_chain, lemma_advanced_none, lemma_emit};
use crate::defined::{lemma_supplies_chain, lemma_supplies_emit, supplies};
use crate::elaboration::{bound, bound_all};
use crate::impls::{
    absent,
    distinct_shapes,
    implements,
    lemma_registry_extends,
    registry,
    table_extends,
    table_ok,
    TableView,
    with_cell,
    with_impl,
};
use crate::ir::{BlockView, FunctionView, InstructionView, ProgramView, Var, var_range};
use crate::reach::{flowing, loop_free};
use crate::scope::{assigned, Binding, lemma_overwrite, lookup};
use crate::types::{
    ImplementationView,
    lemma_known_more,
    lemma_part_within,
    lemma_same_shape_symmetric,
    phis,
    Source,
    TypeView,
};
use vstd::prelude::*;

verus! {

/// Every type in scope holds variables that exist and function values whose
/// lists are in the table.
pub open spec fn scope_ok<'a>(scope: Seq<Binding<'a>>, count: int, cells: Seq<Source<'a>>) -> bool {
    forall|i: int|
        0 <= i < scope.len() ==> (#[trigger] scope[i]).ty.within(count) && scope[i].ty.known(cells)
}

/// All that compiling an expression reads and changes, as a mathematical
/// value: the scope, the program so far, the function that is being built,
/// the cursor, and the table of implementations.
pub struct State<'a> {
    pub scope: Seq<Binding<'a>>,
    pub program: ProgramView,
    pub function: FunctionView,
    pub block: BlockView,
    pub table: TableView<'a>,
}

impl<'a> State<'a> {
    /// What holds whenever an expression is about to be compiled, and again
    /// when it has been compiled. The program is well formed and in
    /// single-assignment form, with every variable written where its uses can
    /// be reached from; the function that is being built is in order
    /// with its cursor; the table and the scope are in order.
    pub open spec fn ready(self) -> bool {
        &&& self.program.well_formed()
        &&& self.program.single_assignment()
        &&& self.program.ordered()
        &&& flowing(self.program)
        &&& loop_free(self.program)
        &&& building(self.function, self.block, self.program)
        &&& table_ok(self.table, self.program)
        &&& scope_ok(self.scope, self.function.variable_count as int, registry(self.table))
    }

    /// How the state after compiling an expression relates to the state
    /// `before`: functions were only added to the program, implementations
    /// only added to the table, and the function moved on as `advanced`
    /// says.
    pub open spec fn follows(self, before: State<'a>) -> bool {
        &&& self.program.extends(before.program)
        &&& table_extends(self.table, before.table)
        &&& advanced(before.function, before.block, self.function, self.block)
    }

    /// The state with `inst` appended to the cursor, `n` variables later.
    pub open spec fn emitted(self, inst: InstructionView, n: nat) -> State<'a> {
        State { function: self.function.grown(n as int), block: self.block.with(inst), ..self }
    }
}

/// What holds when an expression has been compiled with success: the state
/// is in order again and follows the state before, every new variable is
/// written by an instruction, and the type of the expression holds variables
/// that exist and function values whose lists are in the table.
pub open spec fn compiled<'a>(
    before: State<'a>,
    after: State<'a>,
    result: Result<TypeView<'a>, Failure>,
) -> bool {
    result matches Ok(ty) ==> {
        &&& after.ready()
        &&& after.follows(before)
        &&& supplies(before, after)
        &&& ty.within(after.function.variable_count as int)
        &&& ty.known(registry(after.table))
    }
}

/// Matching a pattern against a type that is in order leaves the scope in
/// order.
pub proof fn lemma_bound_ok<'a>(
    pattern: Parsed<'a, Expr<'a>>,
    ty: TypeView<'a>,
    scope: Seq<Binding<'a>>,
    count: int,
    cells: Seq<Source<'a>>,
)
    requires
        scope_ok(scope, count, cells),
        ty.within(count),
        ty.known(cells),
    ensures
        bound(pattern, ty, scope) matches Ok(after) ==> scope_ok(after, count, cells),
    decreases pattern, 0nat,
{
    match pattern.node {
        Expr::Ident(name) => {
            lemma_assigned_ok(scope, name@, ty, count, cells);
        },
        Expr::Tuple { exprs } => {
            match ty {
                TypeView::Tuple(types) => {
                    if types.len() == exprs@.len() {
                        lemma_bound_all_ok(exprs@, types, scope, exprs@.len(), count, cells);
                    }
                },
                _ => {},
            }
        },
        _ => {},
    }
}

/// Matching patterns against the parts of a tuple that is in order leaves
/// the scope in order.
pub proof fn lemma_bound_all_ok<'a>(
    patterns: Seq<Parsed<'a, Expr<'a>>>,
    types: Seq<TypeView<'a>>,
    scope: Seq<Binding<'a>>,
    n: nat,
    count: int,
    cells: Seq<Source<'a>>,
)
    requires
        scope_ok(scope, count, cells),
        TypeView::Tuple(types).within(count),
        TypeView::Tuple(types).known(cells),
        n <= patterns.len(),
        patterns.len() == types.len(),
    ensures
        bound_all(patterns, types, scope, n) matches Ok(after) ==> scope_ok(after, count, cells),
    decreases patterns, n,
{
    if n > 0 {
        lemma_bound_all_ok(patterns, types, scope, (n - 1) as nat, count, cells);
        match bound_all(patterns, types, scope, (n - 1) as nat) {
            Err(_) => {},
            Ok(before) => {
                lemma_part_within(types, n - 1, count);
                let whole = TypeView::Tuple(types);
                assert(whole.known(cells));
                assert(whole->Tuple_0 == types);
                assert(types[n - 1].known(cells));
                lemma_bound_ok(patterns[n - 1], types[n - 1], before, count, cells);
            },
        }
    }
}

/// Assigning a type that is in order leaves the scope in order.
pub proof fn lemma_assigned_ok<'a>(
    scope: Seq<Binding<'a>>,
    name: Seq<char>,
    ty: TypeView<'a>,
    count: int,
    cells: Seq<Source<'a>>,
)
    requires
        scope_ok(scope, count, cells),
        ty.within(count),
        ty.known(cells),
    ensures
        scope_ok(assigned(scope, name, ty), count, cells),
{
    lemma_overwrite(scope, name, ty);
    let after = assigned(scope, name, ty);
    assert forall|i: int| 0 <= i < after.len() implies (#[trigger] after[i]).ty.within(count)
        && after[i].ty.known(cells) by {
        if lookup(scope, name) is Some {
            assert(after[i] == scope[i] || after[i] == (Binding { name, ty }));
        } else {
            if i > 0 {
                assert(after[i] == scope[i - 1]);
            }
        }
    }
}

/// What a name stands for in a scope that is in order is in order.
pub proof fn lemma_lookup_ok<'a>(
    scope: Seq<Binding<'a>>,
    name: Seq<char>,
    count: int,
    cells: Seq<Source<'a>>,
)
    requires
        scope_ok(scope, count, cells),
    ensures
        lookup(scope, name) matches Some(ty) ==> ty.within(count) && ty.known(cells),
    decreases scope.len(),
{
    if scope.len() > 0 {
        if scope[0].name != name {
            let rest = scope.drop_first();
            assert forall|i: int| 0 <= i < rest.len() implies (#[trigger] rest[i]).ty.within(count)
                && rest[i].ty.known(cells) by {
                assert(rest[i] == scope[i + 1]);
            }
            lemma_lookup_ok(rest, name, count, cells);
        }
    }
}

/// A scope that is in order stays in order when variables and lists are
/// added.
pub proof fn lemma_scope_more<'a>(
    scope: Seq<Binding<'a>>,
    count: int,
    cells: Seq<Source<'a>>,
    count2: int,
    cells2: Seq<Source<'a>>,
)
    requires
        scope_ok(scope, count, cells),
        count <= count2,
        cells.is_prefix_of(cells2),
    ensures
        scope_ok(scope, count2, cells2),
{
    assert forall|i: int| 0 <= i < scope.len() implies (#[trigger] scope[i]).ty.within(count2)
        && scope[i].ty.known(cells2) by {
        assert(scope[i].ty.within(count));
        lemma_known_more(scope[i].ty, cells, cells2);
    }
}

/// A table that is in order stays in order when the program is continued.
pub proof fn lemma_table_program<'a>(table: TableView<'a>, program: ProgramView, longer: ProgramView)
    requires
        table_ok(table, program),
        longer.extends(program),
    ensures
        table_ok(table, longer),
{
    assert forall|c: int| 0 <= c < table.len() implies {
        &&& distinct_shapes((#[trigger] table[c]).impls)
        &&& table[c].pattern.compilable()
        &&& table[c].body.compilable()
        &&& forall|i: int|
            0 <= i < table[c].impls.len() ==> {
                &&& implements(#[trigger] table[c].impls[i], longer)
                &&& table[c].impls[i].param_ty.known(registry(table))
                &&& table[c].impls[i].return_ty.known(registry(table))
            }
    } by {
        assert(distinct_shapes(table[c].impls));
        assert forall|i: int| 0 <= i < table[c].impls.len() implies {
            &&& implements(#[trigger] table[c].impls[i], longer)
            &&& table[c].impls[i].param_ty.known(registry(table))
            &&& table[c].impls[i].return_ty.known(registry(table))
        } by {
            assert(implements(table[c].impls[i], program));
            assert(longer.functions[table[c].impls[i].entry.id as int]
                == program.functions[table[c].impls[i].entry.id as int]);
        }
    }
}

/// A table that is in order stays in order when a function value without
/// implementations is added.
pub proof fn lemma_table_cell<'a>(
    table: TableView<'a>,
    program: ProgramView,
    pattern: Parsed<'a, Expr<'a>>,
    body: Parsed<'a, Expr<'a>>,
)
    requires
        table_ok(table, program),
        pattern.compilable(),
        body.compilable(),
    ensures
        table_ok(with_cell(table, pattern, body), program),
        table_extends(with_cell(table, pattern, body), table),
        registry(table).is_prefix_of(registry(with_cell(table, pattern, body))),
{
    let longer = with_cell(table, pattern, body);
    assert forall|c: int| 0 <= c < table.len() implies {
        &&& (#[trigger] table[c]).impls.is_prefix_of(longer[c].impls)
        &&& table[c].pattern == longer[c].pattern
        &&& table[c].body == longer[c].body
    } by {
        assert(longer[c] == table[c]);
    }
    lemma_registry_extends(longer, table);
    assert forall|c: int| 0 <= c < longer.len() implies {
        &&& distinct_shapes((#[trigger] longer[c]).impls)
        &&& longer[c].pattern.compilable()
        &&& longer[c].body.compilable()
        &&& forall|i: int|
            0 <= i < longer[c].impls.len() ==> {
                &&& implements(#[trigger] longer[c].impls[i], program)
                &&& longer[c].impls[i].param_ty.known(registry(longer))
                &&& longer[c].impls[i].return_ty.known(registry(longer))
            }
    } by {
        if c < table.len() {
            assert(longer[c] == table[c]);
            assert(distinct_shapes(table[c].impls));
            assert forall|i: int| 0 <= i < longer[c].impls.len() implies {
                &&& implements(#[trigger] longer[c].impls[i], program)
                &&& longer[c].impls[i].param_ty.known(registry(longer))
                &&& longer[c].impls[i].return_ty.known(registry(longer))
            } by {
                assert(implements(table[c].impls[i], program));
                lemma_known_more(table[c].impls[i].param_ty, registry(table), registry(longer));
                lemma_known_more(table[c].impls[i].return_ty, registry(table), registry(longer));
            }
        }
    }
}

/// A table that is in order stays in order when a function value gets an
/// implementation that is in order and whose shape of parameter is new to
/// its list.
pub proof fn lemma_table_push<'a>(
    table: TableView<'a>,
    program: ProgramView,
    cell: int,
    imp: ImplementationView<'a>,
)
    requires
        table_ok(table, program),
        0 <= cell < table.len(),
        absent(table[cell].impls, imp.param_ty),
        implements(imp, program),
        imp.param_ty.known(registry(table)),
        imp.return_ty.known(registry(table)),
    ensures
        table_ok(with_impl(table, cell, imp), program),
        table_extends(with_impl(table, cell, imp), table),
        registry(with_impl(table, cell, imp)) == registry(table),
{
    let list = table[cell].impls.push(imp);
    let longer = with_impl(table, cell, imp);
    assert(registry(longer) =~= registry(table));
    assert forall|c: int| 0 <= c < longer.len() implies {
        &&& distinct_shapes((#[trigger] longer[c]).impls)
        &&& longer[c].pattern.compilable()
        &&& longer[c].body.compilable()
        &&& forall|i: int|
            0 <= i < longer[c].impls.len() ==> {
                &&& implements(#[trigger] longer[c].impls[i], program)
                &&& longer[c].impls[i].param_ty.known(registry(longer))
                &&& longer[c].impls[i].return_ty.known(registry(longer))
            }
    } by {
        assert(distinct_shapes(table[c].impls));
        if c == cell {
            assert forall|i: int, j: int|
                #![trigger list[i], list[j]]
                0 <= i < list.len() && 0 <= j < list.len() && i != j implies !list[i].param_ty.same_shape(
                list[j].param_ty,
            ) by {
                let last = table[cell].impls.len() as int;
                if i < last && j < last {
                    assert(list[i] == table[cell].impls[i]);
                    assert(list[j] == table[cell].impls[j]);
                } else if i < last {
                    assert(!table[cell].impls[i].param_ty.same_shape(imp.param_ty));
                } else {
                    assert(!table[cell].impls[j].param_ty.same_shape(imp.param_ty));
                    if imp.param_ty.same_shape(table[cell].impls[j].param_ty) {
                        lemma_same_shape_symmetric(imp.param_ty, table[cell].impls[j].param_ty);
                    }
                }
            }
            assert forall|i: int| 0 <= i < list.len() implies {
                &&& implements(#[trigger] list[i], program)
                &&& list[i].param_ty.known(registry(longer))
                &&& list[i].return_ty.known(registry(longer))
            } by {
                if i < table[cell].impls.len() {
                    assert(list[i] == table[cell].impls[i]);
                    assert(implements(table[cell].impls[i], program));
                }
            }
        } else {
            assert(longer[c] == table[c]);
            assert forall|i: int| 0 <= i < longer[c].impls.len() implies {
                &&& implements(#[trigger] longer[c].impls[i], program)
                &&& longer[c].impls[i].param_ty.known(registry(longer))
                &&& longer[c].impls[i].return_ty.known(registry(longer))
            } by {
                assert(implements(table[c].impls[i], program));
            }
        }
    }
    assert forall|c: int| 0 <= c < table.len() implies {
        &&& (#[trigger] table[c]).impls.is_prefix_of(longer[c].impls)
        &&& table[c].pattern == longer[c].pattern
        &&& table[c].body == longer[c].body
    } by {
        if c != cell {
            assert(longer[c] == table[c]);
        }
    }
}

/// One table after the other: what continues a continuation continues the
/// first.
pub proof fn lemma_table_chain<'a>(a: TableView<'a>, b: TableView<'a>, c: TableView<'a>)
    requires
        table_extends(b, a),
        table_extends(c, b),
    ensures
        table_extends(c, a),
{
    assert forall|i: int| 0 <= i < a.len() implies {
        &&& (#[trigger] a[i]).impls.is_prefix_of(c[i].impls)
        &&& a[i].pattern == c[i].pattern
        &&& a[i].body == c[i].body
    } by {
        assert(a[i].impls.is_prefix_of(b[i].impls));
        assert(b[i].impls.is_prefix_of(c[i].impls));
    }
}

/// After an instruction that is in order was appended to the cursor, the
/// state is in order and follows the state before.
pub proof fn lemma_state_emit<'a>(s: State<'a>, inst: InstructionView, n: nat)
    requires
        s.ready(),
        s.function.variable_count + n <= usize::MAX,
        inst.defs() == var_range(s.function.variable_count as int, n),
        forall|k: int|
            0 <= k < inst.uses().len() ==> (#[trigger] inst.uses()[k]).id < s.function.variable_count,
        inst.call_fits(s.program),
    ensures
        s.emitted(inst, n).ready(),
        s.emitted(inst, n).follows(s),
        supplies(s, s.emitted(inst, n)),
{
    lemma_supplies_emit(s, inst, n);
    lemma_emit(s.function, s.block, s.program, inst, n);
    lemma_scope_more(
        s.scope,
        s.function.variable_count as int,
        registry(s.table),
        s.function.variable_count + n,
        registry(s.table),
    );
    lemma_table_chain(s.table, s.table, s.table);
}

/// One piece of code after the other: the state after the second follows
/// the state before the first.
pub proof fn lemma_follows_chain<'a>(a: State<'a>, b: State<'a>, c: State<'a>)
    requires
        a.ready(),
        b.ready(),
        b.follows(a),
        c.follows(b),
    ensures
        c.follows(a),
        c.ready() && supplies(a, b) && supplies(b, c) ==> supplies(a, c),
{
    lemma_table_chain(a.table, b.table, c.table);
    lemma_advanced_chain(a.function, a.block, b.function, b.block, c.function, c.block);
    if c.ready() && supplies(a, b) && supplies(b, c) {
        lemma_supplies_chain(a, b, c);
    }
}

/// A state follows itself.
pub proof fn lemma_follows_self<'a>(a: State<'a>)
    ensures
        a.follows(a),
        supplies(a, a),
{
    lemma_advanced_none(a.function, a.block);
    lemma_table_chain(a.table, a.table, a.table);
}

/// A type whose variables exist keeps them when variables are added.
pub proof fn lemma_type_more<'a>(
    ty: TypeView<'a>,
    count: int,
    cells: Seq<Source<'a>>,
    count2: int,
    cells2: Seq<Source<'a>>,
)
    requires
        ty.within(count),
        ty.known(cells),
        count <= count2,
        cells.is_prefix_of(cells2),
    ensures
        ty.within(count2),
        ty.known(cells2),
{
    lemma_known_more(ty, cells, cells2);
    assert forall|k: int| 0 <= k < ty.vars().len() implies (#[trigger] ty.vars()[k]).id < count2 by {
        assert(ty.vars()[k].id < count);
    }
}

/// The state with the first `n` of the instructions `insts` appended to the
/// cursor, each of which writes one new variable.
pub open spec fn emitted_all<'a>(s: State<'a>, insts: Seq<InstructionView>, n: int) -> State<'a> {
    State {
        function: s.function.grown(n),
        block: BlockView { insts: s.block.insts + insts.take(n), ..s.block },
        ..s
    }
}

/// After the instructions that merge two values were appended to the
/// cursor, the state is in order and follows the state before.
pub proof fn lemma_state_phis<'a>(s: State<'a>, cond: Var, a: Seq<Var>, b: Seq<Var>, n: int)
    requires
        s.ready(),
        a.len() == b.len(),
        0 <= n <= a.len(),
        s.function.variable_count + a.len() <= usize::MAX,
        cond.id < s.function.variable_count,
        forall|k: int| 0 <= k < a.len() ==> (#[trigger] a[k]).id < s.function.variable_count,
        forall|k: int| 0 <= k < b.len() ==> (#[trigger] b[k]).id < s.function.variable_count,
    ensures
        emitted_all(s, phis(cond, a, b, s.function.variable_count as int), n).ready(),
        emitted_all(s, phis(cond, a, b, s.function.variable_count as int), n).follows(s),
        supplies(s, emitted_all(s, phis(cond, a, b, s.function.variable_count as int), n)),
    decreases n,
{
    let all = phis(cond, a, b, s.function.variable_count as int);
    if n == 0 {
        assert(s.block.insts + all.take(0) =~= s.block.insts);
        assert(emitted_all(s, all, 0) == s);
        lemma_follows_self(s);
    } else {
        lemma_state_phis(s, cond, a, b, n - 1);
        let mid = emitted_all(s, all, n - 1);
        let inst = all[n - 1];
        assert(inst.defs() =~= var_range(mid.function.variable_count as int, 1));
        assert(inst.uses() =~= seq![cond, a[n - 1], b[n - 1]]);
        lemma_state_emit(mid, inst, 1);
        assert(mid.block.insts.push(inst) =~= s.block.insts + all.take(n));
        assert(mid.emitted(inst, 1) == emitted_all(s, all, n));
        lemma_follows_chain(s, mid, mid.emitted(inst, 1));
    }
}

} // verus!

//! That every variable of a compiled function has a source: it is a
//! parameter, or an instruction writes it.

use crate::ast::{Expr, Parsed};
use crate::compiler::Failure;
use crate::cursor::advanced;
use crate::impls::TableView;
use crate::ir::{
    BlockView,
    ExitInstruction,
    FunctionView,
    InstructionView,
    ProgramView,
    Var,
    var_range,
};
use crate::reach::{defs_reach_uses, is_path, reachable, reads, writes};
use crate::state::State;
use crate::types::TypeView;
use vstd::prelude::*;

verus! {

/// Whether the variable `v` is a parameter of the function or is written
/// by one of its instructions.
pub open spec fn has_source(function: FunctionView, v: Var) -> bool {
    ||| exists|p: int| 0 <= p < function.params.len() && #[trigger] function.params[p] == v
    ||| exists|b: int, i: int, k: int| #[trigger]
        function.is_site(b, i, k) && function.def_at(b, i, k) == v
}

/// Whether every variable of the function is a parameter or is written by
/// one of its instructions.
pub open spec fn all_defined(function: FunctionView) -> bool {
    forall|v: Var| v.id < function.variable_count ==> #[trigger] has_source(function, v)
}

/// Whether in every function of the program every variable is a parameter
/// or is written by an instruction.
pub open spec fn program_defined(program: ProgramView) -> bool {
    forall|f: int| 0 <= f < program.functions.len() ==> all_defined(#[trigger] program.functions[f])
}

/// Whether every variable that has a source in `f` has one in `g`.
pub open spec fn sources_kept(f: FunctionView, g: FunctionView) -> bool {
    forall|v: Var| #[trigger] has_source(f, v) ==> has_source(g, v)
}

/// In a function in which every variable has a source and every variable
/// is written where its uses can be reached from, a variable that a block
/// reads is a parameter, or it is written in a block from which there is a
/// way to the block that reads it.
pub proof fn lemma_read_is_supplied(function: FunctionView, b: int, v: Var)
    requires
        function.within(),
        all_defined(function),
        defs_reach_uses(function),
        reads(function, b, v),
    ensures
        (exists|p: int| 0 <= p < function.params.len() && #[trigger] function.params[p] == v)
            || (exists|d: int| #[trigger] writes(function, d, v) && reachable(function, d, b)),
{
    assert(function.blocks[b].within(
        function.variable_count as int,
        function.blocks.len() as int,
    ));
    if exists|i: int, j: int|
        0 <= i < function.blocks[b].insts.len() && 0 <= j < function.blocks[b].insts[i].uses().len()
            && #[trigger] function.blocks[b].insts[i].uses()[j] == v {
        let (i, j) = choose|i: int, j: int|
            0 <= i < function.blocks[b].insts.len() && 0 <= j
                < function.blocks[b].insts[i].uses().len()
                && #[trigger] function.blocks[b].insts[i].uses()[j] == v;
        assert(function.blocks[b].insts[i].within(function.variable_count as int));
        assert(has_source(function, v));
        if !(exists|p: int| 0 <= p < function.params.len() && #[trigger] function.params[p] == v) {
            let (d, i2, k) = choose|d: int, i2: int, k: int| #[trigger]
                function.is_site(d, i2, k) && function.def_at(d, i2, k) == v;
            assert(function.blocks[b].insts[i].uses()[j] == function.def_at(d, i2, k));
            assert(writes(function, d, v) && reachable(function, d, b));
        }
    } else {
        let j = choose|j: int|
            0 <= j < function.blocks[b].exit.uses().len()
                && #[trigger] function.blocks[b].exit.uses()[j] == v;
        assert(has_source(function, v));
        if !(exists|p: int| 0 <= p < function.params.len() && #[trigger] function.params[p] == v) {
            let (d, i2, k) = choose|d: int, i2: int, k: int| #[trigger]
                function.is_site(d, i2, k) && function.def_at(d, i2, k) == v;
            assert(function.blocks[b].exit.uses()[j] == function.def_at(d, i2, k));
            assert(writes(function, d, v) && reachable(function, d, b));
        }
    }
}

/// Whether what stands at place `i` of the last block of the way `path`
/// comes behind a definition of `v` on that way: `v` is a parameter, or an
/// instruction writes it in an earlier block of the way, or in the last block
/// before place `i`. The exit of a block stands at the place behind its last
/// instruction.
pub open spec fn defined_before(function: FunctionView, path: Seq<int>, i: int, v: Var) -> bool {
    ||| exists|p: int| 0 <= p < function.params.len() && #[trigger] function.params[p] == v
    ||| exists|s: int, w: int, k: int|
        0 <= s < path.len() && #[trigger] function.is_site(path[s], w, k) && function.def_at(
            path[s],
            w,
            k,
        ) == v && (s < path.len() - 1 || w < i)
}

/// In a function of one block in which every variable has a source and is
/// written before it is read, every variable that an instruction reads is
/// defined before it on every way to the instruction.
pub proof fn lemma_one_block_defined_before(function: FunctionView, path: Seq<int>, i: int, j: int)
    requires
        function.blocks.len() == 1,
        function.within(),
        function.ordered(),
        all_defined(function),
        is_path(function, path),
        path.last() == 0,
        0 <= i < function.blocks[0].insts.len(),
        0 <= j < function.blocks[0].insts[i].uses().len(),
    ensures
        defined_before(function, path, i, function.blocks[0].insts[i].uses()[j]),
{
    let v = function.blocks[0].insts[i].uses()[j];
    assert(function.blocks[0].within(function.variable_count as int, 1));
    assert(function.blocks[0].insts[i].within(function.variable_count as int));
    assert(has_source(function, v));
    if !(exists|p: int| 0 <= p < function.params.len() && #[trigger] function.params[p] == v) {
        let (d, w, k) = choose|d: int, w: int, k: int| #[trigger]
            function.is_site(d, w, k) && function.def_at(d, w, k) == v;
        let s = path.len() - 1;
        assert(function.is_site(path[s], w, k) && function.def_at(path[s], w, k) == v);
    }
}

/// In a function of one block in which every variable has a source, every
/// variable of the function is defined before the exit on every way to it:
/// so are the variable that the exit reads and the variables that are
/// returned.
pub proof fn lemma_one_block_defined_at_end(function: FunctionView, path: Seq<int>, v: Var)
    requires
        function.blocks.len() == 1,
        all_defined(function),
        is_path(function, path),
        path.last() == 0,
        v.id < function.variable_count,
    ensures
        defined_before(function, path, function.blocks[0].insts.len() as int, v),
{
    assert(has_source(function, v));
    if !(exists|p: int| 0 <= p < function.params.len() && #[trigger] function.params[p] == v) {
        let (d, w, k) = choose|d: int, w: int, k: int| #[trigger]
            function.is_site(d, w, k) && function.def_at(d, w, k) == v;
        let s = path.len() - 1;
        assert(function.is_site(path[s], w, k) && function.def_at(path[s], w, k) == v);
    }
}

/// A function keeps the sources of another if it has the same parameters and
/// in every block the same instructions at the front.
pub proof fn lemma_sources_prefix(f: FunctionView, g: FunctionView)
    requires
        f.params == g.params,
        f.blocks.len() <= g.blocks.len(),
        forall|b: int|
            0 <= b < f.blocks.len() ==> (#[trigger] f.blocks[b]).insts.is_prefix_of(
                g.blocks[b].insts,
            ),
    ensures
        sources_kept(f, g),
{
    assert forall|v: Var| #[trigger] has_source(f, v) implies has_source(g, v) by {
        if exists|p: int| 0 <= p < f.params.len() && #[trigger] f.params[p] == v {
            let p = choose|p: int| 0 <= p < f.params.len() && #[trigger] f.params[p] == v;
            assert(g.params[p] == v);
        } else {
            let (b, i, k) = choose|b: int, i: int, k: int| #[trigger]
                f.is_site(b, i, k) && f.def_at(b, i, k) == v;
            assert(f.blocks[b].insts.is_prefix_of(g.blocks[b].insts));
            assert(g.blocks[b].insts[i] == f.blocks[b].insts[i]);
            assert(g.is_site(b, i, k) && g.def_at(b, i, k) == v);
        }
    }
}

/// What was compiled keeps the sources that there were.
pub proof fn lemma_sources_advanced(
    f: FunctionView,
    b: BlockView,
    f2: FunctionView,
    b2: BlockView,
)
    requires
        advanced(f, b, f2, b2),
        b.id < f.blocks.len(),
        b2.id < f2.blocks.len(),
    ensures
        sources_kept(f.overlay(b), f2.overlay(b2)),
{
    let g = f.overlay(b);
    let g2 = f2.overlay(b2);
    assert forall|i: int| 0 <= i < g.blocks.len() implies (#[trigger] g.blocks[i]).insts.is_prefix_of(
        g2.blocks[i].insts,
    ) by {
        if i != b.id {
            assert(f2.blocks[i] == f.blocks[i]);
        }
    }
    lemma_sources_prefix(g, g2);
}

/// Whether the code compiled between two states gave every new variable of
/// the function a source, and every new function of the program a source
/// for each of its variables.
pub open spec fn supplies<'a>(before: State<'a>, after: State<'a>) -> bool {
    &&& forall|v: Var|
        before.function.variable_count <= v.id < after.function.variable_count
            ==> #[trigger] has_source(after.function.overlay(after.block), v)
    &&& forall|f: int|
        before.program.functions.len() <= f < after.program.functions.len() ==> all_defined(
            #[trigger] after.program.functions[f],
        )
}

/// One piece of code after the other: what both supply, the whole supplies.
pub proof fn lemma_supplies_chain<'a>(a: State<'a>, b: State<'a>, c: State<'a>)
    requires
        supplies(a, b),
        supplies(b, c),
        c.follows(b),
        b.block.id < b.function.blocks.len(),
        c.block.id < c.function.blocks.len(),
    ensures
        supplies(a, c),
{
    lemma_sources_advanced(b.function, b.block, c.function, c.block);
    assert forall|v: Var|
        a.function.variable_count <= v.id < c.function.variable_count implies #[trigger] has_source(
        c.function.overlay(c.block),
        v,
    ) by {
        if v.id < b.function.variable_count {
            assert(has_source(b.function.overlay(b.block), v));
        }
    }
    assert forall|f: int|
        a.program.functions.len() <= f < c.program.functions.len() implies all_defined(
        #[trigger] c.program.functions[f],
    ) by {
        if f < b.program.functions.len() {
            assert(c.program.functions[f] == b.program.functions[f]);
        }
    }
}

/// A conditional as a whole supplies what its body supplies: branching to
/// the body and leaving it add no variables, and leaving it keeps the
/// sources.
pub proof fn lemma_supplies_diamond<'a>(
    mid: State<'a>,
    forkd: State<'a>,
    body: State<'a>,
    after: State<'a>,
)
    requires
        supplies(forkd, body),
        forkd.function.variable_count == mid.function.variable_count,
        forkd.program == mid.program,
        after.function.variable_count == body.function.variable_count,
        after.program == body.program,
        sources_kept(body.function.overlay(body.block), after.function.overlay(after.block)),
    ensures
        supplies(mid, after),
{
    assert forall|v: Var|
        mid.function.variable_count <= v.id < after.function.variable_count implies #[trigger] has_source(
        after.function.overlay(after.block),
        v,
    ) by {
        assert(has_source(body.function.overlay(body.block), v));
    }
}

/// A function that was compiled from its parameters on has a source for
/// every variable when it is finished: the first variables are its
/// parameters, and the others were supplied while its body was compiled.
pub proof fn lemma_finished_defined<'a>(sub: State<'a>, done: State<'a>, finished: FunctionView)
    requires
        sub.function.params == var_range(0, sub.function.variable_count as nat),
        supplies(sub, done),
        done.function.params == sub.function.params,
        done.block.id < done.function.blocks.len(),
        finished.params == done.function.params,
        finished.variable_count == done.function.variable_count,
        finished.blocks == done.function.overlay(
            done.block.closed_by(ExitInstruction::Return),
        ).blocks,
    ensures
        all_defined(finished),
{
    let held = done.function.overlay(done.block);
    lemma_sources_prefix(held, finished);
    assert forall|v: Var| v.id < finished.variable_count implies #[trigger] has_source(
        finished,
        v,
    ) by {
        if v.id < sub.function.variable_count {
            assert(finished.params[v.id as int] == v);
        } else {
            assert(has_source(held, v));
        }
    }
}

/// An instruction that writes the next `n` variables supplies them.
pub proof fn lemma_supplies_emit<'a>(s: State<'a>, inst: InstructionView, n: nat)
    requires
        s.block.id < s.function.blocks.len(),
        s.function.variable_count + n <= usize::MAX,
        inst.defs() == var_range(s.function.variable_count as int, n),
    ensures
        supplies(s, s.emitted(inst, n)),
{
    let t = s.emitted(inst, n);
    let g = t.function.overlay(t.block);
    let at = s.block.insts.len() as int;
    assert forall|v: Var|
        s.function.variable_count <= v.id < t.function.variable_count implies #[trigger] has_source(
        g,
        v,
    ) by {
        let k = v.id - s.function.variable_count;
        assert(g.blocks[s.block.id as int].insts[at] == inst);
        assert(inst.defs()[k] == v);
        assert(g.is_site(s.block.id as int, at, k) && g.def_at(s.block.id as int, at, k) == v);
    }
}

/// Whether every function of the program has one block.
pub open spec fn one_block(program: ProgramView) -> bool {
    forall|f: int| 0 <= f < program.functions.len() ==> (#[trigger] program.functions[f]).blocks.len()
        == 1
}

/// Whether no function value of the table has a body that branches.
pub open spec fn table_unbranched<'a>(table: TableView<'a>) -> bool {
    forall|c: int| 0 <= c < table.len() ==> (#[trigger] table[c]).body.unbranched()
}

/// Whether the code compiled between two states left the function with the
/// blocks that it had and the cursor where it was, gave every new function
/// of the program one block, and put no function value with a body that
/// branches in the table.
pub open spec fn one_block_kept<'a>(before: State<'a>, after: State<'a>) -> bool {
    &&& after.function.blocks.len() == before.function.blocks.len()
    &&& after.block.id == before.block.id
    &&& table_unbranched(after.table)
    &&& forall|f: int|
        before.program.functions.len() <= f < after.program.functions.len() ==> (
        #[trigger] after.program.functions[f]).blocks.len() == 1
}

/// What holds when an expression in which nothing branches has been
/// compiled with success, no function value in the table having a body that
/// branches: no block was added to the function, and every function that was
/// added to the program has one block.
pub open spec fn unbranching<'a>(
    expr: Parsed<'a, Expr<'a>>,
    before: State<'a>,
    after: State<'a>,
    result: Result<TypeView<'a>, Failure>,
) -> bool {
    expr.unbranched() && table_unbranched(before.table) && result is Ok ==> one_block_kept(
        before,
        after,
    )
}

/// One piece of code after the other: what neither adds, the two do not
/// add.
pub proof fn lemma_one_block_chain<'a>(a: State<'a>, b: State<'a>, c: State<'a>)
    requires
        one_block_kept(a, b),
        one_block_kept(b, c),
        c.program.extends(b.program),
    ensures
        one_block_kept(a, c),
{
    assert forall|f: int|
        a.program.functions.len() <= f < c.program.functions.len() implies (
    #[trigger] c.program.functions[f]).blocks.len() == 1 by {
        if f < b.program.functions.len() {
            assert(c.program.functions[f] == b.program.functions[f]);
        }
    }
}

} // verus!

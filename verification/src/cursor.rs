//! How a function is built through a cursor. The compiler holds one open
//! block, the cursor, appends instructions to it, and closes it when control
//! leaves it; the slot of every open block stays empty until then. This
//! module states what holds of a function and its cursor at every step, and
//! proves that the steps keep it.

use crate::ir::{
    BlockView,
    ExitInstruction,
    FunctionView,
    InstructionView,
    ProgramView,
    Var,
    var_range,
};
use crate::reach::{
    acyclic,
    closed_reach,
    defs_reach_uses,
    flowing,
    leads,
    lemma_ranked_acyclic,
    lemma_reachable_kept,
    lemma_reachable_self,
    lemma_reachable_step,
    loop_free,
    names,
    ranked,
    ranks,
    reachable,
};
use vstd::prelude::*;

verus! {

/// What holds of every function that the compiler has its hands on: its
/// blocks are numbered, all that it names exists, its calls fit the program,
/// it is in single-assignment form, within a block every variable is
/// written before it is read, and there is a way from every block that writes
/// a variable to every block that reads it.
pub open spec fn consistent(function: FunctionView, program: ProgramView) -> bool {
    &&& function.numbered()
    &&& function.within()
    &&& function.calls_fit(program)
    &&& function.single_assignment()
    &&& function.ordered()
    &&& defs_reach_uses(function)
}

/// The slot of every block that is not closed yet is as `new_block` left it.
pub open spec fn open_slots_fresh(function: FunctionView) -> bool {
    forall|i: int|
        0 <= i < function.blocks.len() && !(#[trigger] function.blocks[i]).committed
            ==> function.blocks[i] == BlockView::fresh(i as usize)
}

/// What holds while `function` is built with `block` as the cursor: the
/// cursor is open and so is its slot, the function with the cursor put in its
/// slot is consistent, there is a way to the cursor from every block that is
/// closed, and the closed blocks can be put in an order that every exit
/// follows.
pub open spec fn building(function: FunctionView, block: BlockView, program: ProgramView) -> bool {
    &&& block.id < function.blocks.len()
    &&& !block.committed
    &&& block.exit == ExitInstruction::Return
    &&& !function.blocks[block.id as int].committed
    &&& open_slots_fresh(function)
    &&& consistent(function.overlay(block), program)
    &&& closed_reach(function.overlay(block), block.id as int)
    &&& ranked(function.overlay(block), block.id as int)
}

/// How a function and its cursor may differ before and after a piece of
/// code was compiled. Parameters and return variables are the same,
/// variables and blocks were only added, and every block but the cursor is
/// untouched. If the cursor is still the same block, instructions were only
/// appended to it. If it has moved, it has moved to a new block, and the old
/// cursor is closed and holds the old instructions at its front. Every new
/// block but the cursor is closed.
pub open spec fn advanced(
    function: FunctionView,
    block: BlockView,
    function2: FunctionView,
    block2: BlockView,
) -> bool {
    &&& function2.params == function.params
    &&& function2.returns == function.returns
    &&& function.variable_count <= function2.variable_count
    &&& function.blocks.len() <= function2.blocks.len()
    &&& block2.id == block.id || block2.id >= function.blocks.len()
    &&& forall|i: int|
        0 <= i < function.blocks.len() && i != block.id ==> #[trigger] function2.blocks[i]
            == function.blocks[i]
    &&& forall|i: int|
        function.blocks.len() <= i < function2.blocks.len() && i != block2.id ==> (
        #[trigger] function2.blocks[i]).committed
    &&& block2.id == block.id ==> block.insts.is_prefix_of(block2.insts)
    &&& block2.id != block.id ==> {
        &&& function2.blocks[block.id as int].committed
        &&& block.insts.is_prefix_of(function2.blocks[block.id as int].insts)
    }
}

/// Nothing compiled, nothing changed.
pub proof fn lemma_advanced_none(function: FunctionView, block: BlockView)
    ensures
        advanced(function, block, function, block),
{
}

/// Two pieces of code compiled one after the other are one piece of code.
pub proof fn lemma_advanced_chain(
    f0: FunctionView,
    b0: BlockView,
    f1: FunctionView,
    b1: BlockView,
    f2: FunctionView,
    b2: BlockView,
)
    requires
        b0.id < f0.blocks.len(),
        b1.id < f1.blocks.len(),
        advanced(f0, b0, f1, b1),
        advanced(f1, b1, f2, b2),
    ensures
        advanced(f0, b0, f2, b2),
{
    assert forall|i: int| 0 <= i < f0.blocks.len() && i != b0.id implies #[trigger] f2.blocks[i]
        == f0.blocks[i] by {
        assert(f1.blocks[i] == f0.blocks[i]);
        assert(i != b1.id);
        assert(f2.blocks[i] == f1.blocks[i]);
    }
    assert forall|i: int| f0.blocks.len() <= i < f2.blocks.len() && i != b2.id implies (
    #[trigger] f2.blocks[i]).committed by {
        if i < f1.blocks.len() {
            if i == b1.id {
            } else {
                assert(f1.blocks[i].committed);
                assert(f2.blocks[i] == f1.blocks[i]);
            }
        }
    }
    if b2.id != b0.id {
        if b1.id == b0.id {
        } else {
            assert(b0.id != b1.id);
            assert(f2.blocks[b0.id as int] == f1.blocks[b0.id as int]);
        }
    }
}

/// An instruction whose variables exist in a function exists in a longer
/// one.
pub proof fn lemma_within_more(function: FunctionView, count: int, blocks: int)
    requires
        function.variable_count <= count <= usize::MAX,
        function.blocks.len() <= blocks,
        function.within(),
    ensures
        forall|i: int|
            0 <= i < function.blocks.len() ==> (#[trigger] function.blocks[i]).within(count, blocks),
{
    assert forall|i: int| 0 <= i < function.blocks.len() implies (#[trigger] function.blocks[i]).within(
        count,
        blocks,
    ) by {
        let b = function.blocks[i];
        assert(b.within(function.variable_count as int, function.blocks.len() as int));
        assert forall|j: int| 0 <= j < b.insts.len() implies (#[trigger] b.insts[j]).within(
            count,
        ) by {
            assert(b.insts[j].within(function.variable_count as int));
        }
    }
}

/// Single assignment carries over to a function with the same parameters
/// in which every variable is written where it was written before.
pub proof fn lemma_single_assignment_kept(f: FunctionView, f2: FunctionView)
    requires
        f.single_assignment(),
        f2.params == f.params,
        forall|b: int, i: int, k: int| #[trigger]
            f2.is_site(b, i, k) ==> f.is_site(b, i, k) && f.def_at(b, i, k) == f2.def_at(b, i, k),
    ensures
        f2.single_assignment(),
{
    assert forall|b1: int, i1: int, k1: int, b2: int, i2: int, k2: int|
        #![trigger f2.is_site(b1, i1, k1), f2.is_site(b2, i2, k2)]
        f2.is_site(b1, i1, k1) && f2.is_site(b2, i2, k2) && f2.def_at(b1, i1, k1) == f2.def_at(
            b2,
            i2,
            k2,
        ) implies b1 == b2 && i1 == i2 && k1 == k2 by {
        assert(f.is_site(b1, i1, k1) && f.is_site(b2, i2, k2));
    }
    assert forall|p: int, b: int, i: int, k: int|
        #![trigger f2.params[p], f2.is_site(b, i, k)]
        0 <= p < f2.params.len() && f2.is_site(b, i, k) implies f2.params[p] != f2.def_at(
            b,
            i,
            k,
        ) by {
        assert(f.is_site(b, i, k));
        assert(f.params[p] != f.def_at(b, i, k));
    }
}

/// The order of writing and reading carries over to a function whose
/// blocks hold the same instructions.
pub proof fn lemma_ordered_kept(f: FunctionView, f2: FunctionView)
    requires
        f.ordered(),
        f2.blocks.len() == f.blocks.len(),
        forall|b: int| 0 <= b < f.blocks.len() ==> (#[trigger] f2.blocks[b]).insts == f.blocks[b].insts,
    ensures
        f2.ordered(),
{
    assert forall|b: int, reader: int, j: int, writer: int, k: int|
        #![trigger f2.blocks[b].insts[reader].uses()[j], f2.is_site(b, writer, k)]
        0 <= reader <= writer && 0 <= j < f2.blocks[b].insts[reader].uses().len() && f2.is_site(
            b,
            writer,
            k,
        ) implies f2.blocks[b].insts[reader].uses()[j].id < f2.def_at(b, writer, k).id by {
        assert(f2.blocks[b].insts == f.blocks[b].insts);
        assert(f.is_site(b, writer, k));
        assert(f.blocks[b].insts[reader].uses()[j].id < f.def_at(b, writer, k).id);
    }
}

/// The ways from writes to reads carry over to a function that has the
/// same instructions and exits, and possibly more blocks without
/// instructions.
pub proof fn lemma_flow_kept(f: FunctionView, f2: FunctionView, c: int)
    requires
        defs_reach_uses(f),
        closed_reach(f, c),
        f.blocks.len() <= f2.blocks.len(),
        forall|b: int|
            0 <= b < f.blocks.len() ==> (#[trigger] f2.blocks[b]).insts == f.blocks[b].insts
                && f2.blocks[b].exit == f.blocks[b].exit && f2.blocks[b].committed
                == f.blocks[b].committed,
        forall|b: int|
            f.blocks.len() <= b < f2.blocks.len() ==> (#[trigger] f2.blocks[b]).insts.len() == 0
                && f2.blocks[b].exit == ExitInstruction::Return && !f2.blocks[b].committed,
    ensures
        defs_reach_uses(f2),
        closed_reach(f2, c),
{
    assert forall|u: int, v: int| #[trigger] leads(f, u, v) implies leads(f2, u, v) by {
        assert(f2.blocks[u].exit == f.blocks[u].exit);
    }
    assert forall|b: int, i: int, j: int, d: int, i2: int, k: int|
        #![trigger f2.blocks[b].insts[i].uses()[j], f2.is_site(d, i2, k)]
        0 <= b < f2.blocks.len() && 0 <= i < f2.blocks[b].insts.len() && 0 <= j
            < f2.blocks[b].insts[i].uses().len() && f2.is_site(d, i2, k)
            && f2.blocks[b].insts[i].uses()[j] == f2.def_at(d, i2, k) implies reachable(
        f2,
        d,
        b,
    ) by {
        assert(f2.blocks[b].insts == f.blocks[b].insts);
        assert(f2.blocks[d].insts == f.blocks[d].insts);
        assert(f.is_site(d, i2, k));
        assert(f.blocks[b].insts[i].uses()[j] == f.def_at(d, i2, k));
        lemma_reachable_kept(f, f2, d, b);
    }
    assert forall|b: int, j: int, d: int, i2: int, k: int|
        #![trigger f2.blocks[b].exit.uses()[j], f2.is_site(d, i2, k)]
        0 <= b < f2.blocks.len() && 0 <= j < f2.blocks[b].exit.uses().len() && f2.is_site(d, i2, k)
            && f2.blocks[b].exit.uses()[j] == f2.def_at(d, i2, k) implies reachable(f2, d, b) by {
        assert(f2.blocks[d].insts == f.blocks[d].insts);
        assert(f.is_site(d, i2, k));
        if b < f.blocks.len() {
            assert(f2.blocks[b].exit == f.blocks[b].exit);
            assert(f.blocks[b].exit.uses()[j] == f.def_at(d, i2, k));
            lemma_reachable_kept(f, f2, d, b);
        }
    }
    assert forall|u: int| 0 <= u < f2.blocks.len() && (#[trigger] f2.blocks[u]).committed implies reachable(
        f2,
        u,
        c,
    ) by {
        assert(f2.blocks[u].committed == f.blocks[u].committed);
        assert(f.blocks[u].committed);
        lemma_reachable_kept(f, f2, u, c);
    }
}

/// An order that every exit follows is one of every function that has the
/// same exits, and possibly more blocks that are not closed.
pub proof fn lemma_ranked_kept(f: FunctionView, f2: FunctionView, c: int)
    requires
        ranked(f, c),
        0 <= c < f.blocks.len(),
        f.blocks.len() <= f2.blocks.len(),
        forall|b: int|
            0 <= b < f.blocks.len() ==> (#[trigger] f2.blocks[b]).exit == f.blocks[b].exit
                && f2.blocks[b].committed == f.blocks[b].committed,
        forall|b: int| f.blocks.len() <= b < f2.blocks.len() ==> !(#[trigger] f2.blocks[b]).committed,
    ensures
        ranked(f2, c),
{
    let rank = choose|rank: Seq<int>| ranks(f, c, rank);
    let rank2 = Seq::new(
        f2.blocks.len(),
        |i: int|
            if i < rank.len() {
                rank[i]
            } else {
                0
            },
    );
    assert forall|u: int|
        0 <= u < f2.blocks.len() && (#[trigger] f2.blocks[u]).committed implies rank2[u]
        < rank2[c] by {
        assert(f2.blocks[u].committed == f.blocks[u].committed);
        assert(f.blocks[u].committed);
    }
    assert forall|u: int, v: int|
        f2.blocks[u].committed && f2.blocks[v].committed && #[trigger] leads(
            f2,
            u,
            v,
        ) implies rank2[u] < rank2[v] by {
        assert(f2.blocks[u].exit == f.blocks[u].exit);
        assert(f2.blocks[u].committed == f.blocks[u].committed);
        assert(f2.blocks[v].committed == f.blocks[v].committed);
        assert(leads(f, u, v));
    }
    assert(ranks(f2, c, rank2));
}

/// Appending to the cursor an instruction that reads variables that exist,
/// writes the next `n` variables and, if it is a call, fits the program,
/// keeps the function in order.
pub proof fn lemma_emit(
    function: FunctionView,
    block: BlockView,
    program: ProgramView,
    inst: InstructionView,
    n: nat,
)
    requires
        building(function, block, program),
        function.variable_count + n <= usize::MAX,
        inst.defs() == var_range(function.variable_count as int, n),
        forall|k: int|
            0 <= k < inst.uses().len() ==> (#[trigger] inst.uses()[k]).id < function.variable_count,
        inst.call_fits(program),
    ensures
        building(function.grown(n as int), block.with(inst), program),
        advanced(function, block, function.grown(n as int), block.with(inst)),
{
    let f = function.overlay(block);
    let function2 = function.grown(n as int);
    let block2 = block.with(inst);
    let f2 = function2.overlay(block2);
    let count = function.variable_count as int;
    let at = block.insts.len() as int;
    let me = block.id as int;
    assert(f2.blocks.len() == f.blocks.len());
    assert(f2.blocks[me].insts == block.insts.push(inst));
    assert forall|b: int| 0 <= b < f.blocks.len() && b != me implies #[trigger] f2.blocks[b]
        == f.blocks[b] by {}
    lemma_within_more(f, count + n, f.blocks.len() as int);
    // all that is named exists
    assert forall|i: int| 0 <= i < f2.blocks.len() implies (#[trigger] f2.blocks[i]).within(
        f2.variable_count as int,
        f2.blocks.len() as int,
    ) by {
        if i == me {
            assert(f.blocks[me].within(count + n, f.blocks.len() as int));
            assert forall|j: int| 0 <= j < f2.blocks[me].insts.len() implies (
            #[trigger] f2.blocks[me].insts[j]).within(count + n) by {
                if j < at {
                    assert(f2.blocks[me].insts[j] == f.blocks[me].insts[j]);
                    assert(f.blocks[me].insts[j].within(count + n));
                }
            }
        } else {
            assert(f.blocks[i].within(count + n, f.blocks.len() as int));
        }
    }
    assert(f2.within()) by {
        assert forall|k: int| 0 <= k < f2.params.len() implies (#[trigger] f2.params[k]).id
            < f2.variable_count by {
            assert(f.params[k].id < f.variable_count);
        }
        assert forall|k: int| 0 <= k < f2.returns.len() implies (#[trigger] f2.returns[k]).id
            < f2.variable_count by {
            assert(f.returns[k].id < f.variable_count);
        }
    }
    // calls fit
    assert forall|i: int| 0 <= i < f2.blocks.len() implies (#[trigger] f2.blocks[i]).calls_fit(
        program,
    ) by {
        assert(f.blocks[i].calls_fit(program));
        if i == me {
            assert forall|j: int| 0 <= j < f2.blocks[me].insts.len() implies (
            #[trigger] f2.blocks[me].insts[j]).call_fits(program) by {
                if j < at {
                    assert(f2.blocks[me].insts[j] == f.blocks[me].insts[j]);
                    assert(f.blocks[me].insts[j].call_fits(program));
                }
            }
        }
    }
    // single assignment
    assert forall|b: int, i: int, k: int| #[trigger] f2.is_site(b, i, k) implies {
        ||| (f.is_site(b, i, k) && f.def_at(b, i, k) == f2.def_at(b, i, k) && f2.def_at(b, i, k).id
            < count)
        ||| (b == me && i == at && f2.def_at(b, i, k).id == count + k && 0 <= k < n)
    } by {
        if b == me && i == at {
        } else {
            if b == me {
                assert(f2.blocks[me].insts[i] == f.blocks[me].insts[i]);
            }
            assert(f.is_site(b, i, k));
            assert(f.blocks[b].within(count, f.blocks.len() as int));
            assert(f.blocks[b].insts[i].within(count));
            assert(f.blocks[b].insts[i].defs()[k].id < count);
        }
    }
    assert forall|b1: int, i1: int, k1: int, b2: int, i2: int, k2: int|
        #![trigger f2.is_site(b1, i1, k1), f2.is_site(b2, i2, k2)]
        f2.is_site(b1, i1, k1) && f2.is_site(b2, i2, k2) && f2.def_at(b1, i1, k1) == f2.def_at(
            b2,
            i2,
            k2,
        ) implies b1 == b2 && i1 == i2 && k1 == k2 by {
        if f.is_site(b1, i1, k1) && f.is_site(b2, i2, k2) && !(b1 == me && i1 == at) && !(b2 == me
            && i2 == at) {
        }
    }
    assert forall|p: int, b: int, i: int, k: int|
        #![trigger f2.params[p], f2.is_site(b, i, k)]
        0 <= p < f2.params.len() && f2.is_site(b, i, k) implies f2.params[p] != f2.def_at(
            b,
            i,
            k,
        ) by {
        assert(f.params[p].id < count);
        if b == me && i == at {
        } else {
            assert(f.is_site(b, i, k));
        }
    }
    assert(f2.numbered()) by {
        assert forall|i: int| 0 <= i < f2.blocks.len() implies (#[trigger] f2.blocks[i]).id
            == i by {
            assert(f.blocks[i].id == i);
        }
    }
    assert(f2.params == f.params);
    assert forall|p: int, q: int|
        #![trigger f2.params[p], f2.params[q]]
        0 <= p < f2.params.len() && 0 <= q < f2.params.len() && f2.params[p]
            == f2.params[q] implies p == q by {
        assert(f.params[p] == f.params[q]);
    }
    assert(f2.single_assignment());
    assert(f2.calls_fit(program));
    assert forall|b: int, reader: int, j: int, writer: int, k: int|
        #![trigger f2.blocks[b].insts[reader].uses()[j], f2.is_site(b, writer, k)]
        0 <= reader <= writer && 0 <= j < f2.blocks[b].insts[reader].uses().len() && f2.is_site(
            b,
            writer,
            k,
        ) implies f2.blocks[b].insts[reader].uses()[j].id < f2.def_at(b, writer, k).id by {
        if b == me && writer == at {
            if reader < at {
                assert(f2.blocks[me].insts[reader] == f.blocks[me].insts[reader]);
                assert(f.blocks[me].within(count, f.blocks.len() as int));
                assert(f.blocks[me].insts[reader].within(count));
                assert(f.blocks[me].insts[reader].uses()[j].id < count);
            } else {
                assert(inst.uses()[j].id < count);
            }
        } else {
            if b == me {
                assert(f2.blocks[me].insts[reader] == f.blocks[me].insts[reader]);
                assert(f2.blocks[me].insts[writer] == f.blocks[me].insts[writer]);
            }
            assert(f.is_site(b, writer, k));
            assert(f.blocks[b].insts[reader].uses()[j].id < f.def_at(b, writer, k).id);
        }
    }
    assert(f2.ordered());
    assert forall|u: int, v: int| #[trigger] leads(f, u, v) implies leads(f2, u, v) by {
        assert(f2.blocks[u].exit == f.blocks[u].exit);
    }
    assert forall|d: int, i2: int, k: int| #[trigger] f.is_site(d, i2, k) implies reachable(
        f2,
        d,
        me,
    ) by {
        if d == me {
            lemma_reachable_self(f2, me);
        } else {
            assert(f.blocks[d].insts.len() > 0);
            assert(function.blocks[d] == f.blocks[d]);
            assert(f.blocks[d].committed);
            lemma_reachable_kept(f, f2, d, me);
        }
    }
    assert forall|b: int, i: int, j: int, d: int, i2: int, k: int|
        #![trigger f2.blocks[b].insts[i].uses()[j], f2.is_site(d, i2, k)]
        0 <= b < f2.blocks.len() && 0 <= i < f2.blocks[b].insts.len() && 0 <= j
            < f2.blocks[b].insts[i].uses().len() && f2.is_site(d, i2, k)
            && f2.blocks[b].insts[i].uses()[j] == f2.def_at(d, i2, k) implies reachable(
        f2,
        d,
        b,
    ) by {
        if b == me && i == at {
            assert(inst.uses()[j].id < count);
            assert(f.is_site(d, i2, k));
        } else {
            if b == me {
                assert(f2.blocks[me].insts[i] == f.blocks[me].insts[i]);
            }
            assert(f.blocks[b].within(count, f.blocks.len() as int));
            assert(f.blocks[b].insts[i].within(count));
            assert(f.blocks[b].insts[i].uses()[j].id < count);
            assert(f.is_site(d, i2, k));
            assert(f.blocks[b].insts[i].uses()[j] == f.def_at(d, i2, k));
            lemma_reachable_kept(f, f2, d, b);
        }
    }
    assert forall|b: int, j: int, d: int, i2: int, k: int|
        #![trigger f2.blocks[b].exit.uses()[j], f2.is_site(d, i2, k)]
        0 <= b < f2.blocks.len() && 0 <= j < f2.blocks[b].exit.uses().len() && f2.is_site(d, i2, k)
            && f2.blocks[b].exit.uses()[j] == f2.def_at(d, i2, k) implies reachable(f2, d, b) by {
        assert(f2.blocks[b].exit == f.blocks[b].exit);
        assert(f.blocks[b].within(count, f.blocks.len() as int));
        assert(f.blocks[b].exit.uses()[j].id < count);
        assert(f.is_site(d, i2, k));
        assert(f.blocks[b].exit.uses()[j] == f.def_at(d, i2, k));
        lemma_reachable_kept(f, f2, d, b);
    }
    assert(defs_reach_uses(f2));
    assert forall|u: int| 0 <= u < f2.blocks.len() && (#[trigger] f2.blocks[u]).committed implies reachable(
        f2,
        u,
        me,
    ) by {
        assert(f2.blocks[u].committed == f.blocks[u].committed);
        lemma_reachable_kept(f, f2, u, me);
    }
    assert forall|b: int| 0 <= b < f.blocks.len() implies (#[trigger] f2.blocks[b]).exit
        == f.blocks[b].exit && f2.blocks[b].committed == f.blocks[b].committed by {}
    lemma_ranked_kept(f, f2, me);
    assert(consistent(f2, program));
    assert(function2.blocks == function.blocks);
    assert(open_slots_fresh(function2));
    assert(block.insts.is_prefix_of(block2.insts));
    assert(block2.exit == ExitInstruction::Return);
}

/// Registering the slot of a new block keeps the function in order.
pub proof fn lemma_new_block(function: FunctionView, block: BlockView, program: ProgramView)
    requires
        building(function, block, program),
        function.blocks.len() < usize::MAX,
    ensures
        building(
            FunctionView {
                blocks: function.blocks.push(BlockView::fresh(function.blocks.len() as usize)),
                ..function
            },
            block,
            program,
        ),
{
    let f = function.overlay(block);
    let fresh = BlockView::fresh(function.blocks.len() as usize);
    let function2 = FunctionView { blocks: function.blocks.push(fresh), ..function };
    let f2 = function2.overlay(block);
    let last = function.blocks.len() as int;
    assert(f2.blocks =~= f.blocks.push(fresh));
    lemma_within_more(f, f.variable_count as int, last + 1);
    assert forall|i: int| 0 <= i < f2.blocks.len() implies (#[trigger] f2.blocks[i]).within(
        f2.variable_count as int,
        f2.blocks.len() as int,
    ) by {
        if i < last {
            assert(f2.blocks[i] == f.blocks[i]);
        }
    }
    assert(f2.within()) by {
        assert forall|k: int| 0 <= k < f2.params.len() implies (#[trigger] f2.params[k]).id
            < f2.variable_count by {
            assert(f.params[k].id < f.variable_count);
        }
        assert forall|k: int| 0 <= k < f2.returns.len() implies (#[trigger] f2.returns[k]).id
            < f2.variable_count by {
            assert(f.returns[k].id < f.variable_count);
        }
    }
    assert forall|i: int| 0 <= i < f2.blocks.len() implies (#[trigger] f2.blocks[i]).calls_fit(
        program,
    ) by {
        if i < last {
            assert(f2.blocks[i] == f.blocks[i]);
            assert(f.blocks[i].calls_fit(program));
        }
    }
    assert forall|b: int, i: int, k: int| #[trigger] f2.is_site(b, i, k) implies f.is_site(b, i, k)
        && f.def_at(b, i, k) == f2.def_at(b, i, k) by {
        if b < last {
            assert(f2.blocks[b] == f.blocks[b]);
        }
    }
    lemma_single_assignment_kept(f, f2);
    assert forall|b: int, reader: int, j: int, writer: int, k: int|
        #![trigger f2.blocks[b].insts[reader].uses()[j], f2.is_site(b, writer, k)]
        0 <= reader <= writer && 0 <= j < f2.blocks[b].insts[reader].uses().len() && f2.is_site(
            b,
            writer,
            k,
        ) implies f2.blocks[b].insts[reader].uses()[j].id < f2.def_at(b, writer, k).id by {
        assert(f.is_site(b, writer, k));
        assert(f2.blocks[b] == f.blocks[b]);
        assert(f.blocks[b].insts[reader].uses()[j].id < f.def_at(b, writer, k).id);
    }
    assert(f2.numbered()) by {
        assert forall|i: int| 0 <= i < f2.blocks.len() implies (#[trigger] f2.blocks[i]).id
            == i by {
            if i < last {
                assert(f2.blocks[i] == f.blocks[i]);
                assert(f.blocks[i].id == i);
            }
        }
    }
    assert(open_slots_fresh(function2)) by {
        assert forall|i: int|
            0 <= i < function2.blocks.len() && !(#[trigger] function2.blocks[i]).committed implies function2.blocks[i]
            == BlockView::fresh(i as usize) by {
            if i < last {
                assert(function2.blocks[i] == function.blocks[i]);
            }
        }
    }
    assert(f2.calls_fit(program));
    assert forall|b: int| 0 <= b < f.blocks.len() implies (#[trigger] f2.blocks[b]).insts
        == f.blocks[b].insts && f2.blocks[b].exit == f.blocks[b].exit && f2.blocks[b].committed
        == f.blocks[b].committed by {
        assert(f2.blocks[b] == f.blocks[b]);
    }
    lemma_flow_kept(f, f2, block.id as int);
    lemma_ranked_kept(f, f2, block.id as int);
    assert(consistent(f2, program));
    assert(function2.blocks[block.id as int] == function.blocks[block.id as int]);
}

/// Closing the cursor with an exit that names what exists, and going on
/// with another open block, keeps the function in order.
pub proof fn lemma_commit(
    function: FunctionView,
    block: BlockView,
    program: ProgramView,
    exit: ExitInstruction,
    next: int,
)
    requires
        building(function, block, program),
        exit.within(function.variable_count as int, function.blocks.len() as int),
        0 <= next < function.blocks.len(),
        next != block.id,
        !function.blocks[next].committed,
        names(exit, next),
        forall|v: int|
            0 <= v < function.blocks.len() && names(exit, v) ==> v != block.id && !(
            #[trigger] function.blocks[v]).committed,
    ensures
        building(function.overlay(block.closed_by(exit)), BlockView::fresh(next as usize), program),
        consistent(function.overlay(block.closed_by(exit)), program),
{
    lemma_close(function, block, program, exit);
    let f = function.overlay(block);
    let function2 = function.overlay(block.closed_by(exit));
    let cursor = BlockView::fresh(next as usize);
    let me = block.id as int;
    assert(function2.blocks[next] == function.blocks[next]);
    assert(function2.overlay(cursor).blocks =~= function2.blocks);
    assert(function2.overlay(cursor) == function2);
    assert forall|u: int, v: int| #[trigger] leads(f, u, v) implies leads(function2, u, v) by {
        if u != me {
            assert(function2.blocks[u] == f.blocks[u]);
        }
    }
    assert(leads(function2, me, next));
    assert forall|u: int|
        0 <= u < function2.blocks.len() && (#[trigger] function2.blocks[u]).committed implies reachable(
        function2,
        u,
        next,
    ) by {
        if u == me {
            lemma_reachable_self(function2, me);
        } else {
            assert(function2.blocks[u] == f.blocks[u]);
            lemma_reachable_kept(f, function2, u, me);
        }
        lemma_reachable_step(function2, u, me, next);
    }
    let rank = choose|rank: Seq<int>| ranks(f, me, rank);
    let rank2 = rank.update(next, rank[me] + 1);
    assert forall|u: int|
        0 <= u < function2.blocks.len() && (#[trigger] function2.blocks[u]).committed implies rank2[u]
        < rank2[next] by {
        if u != me {
            assert(function2.blocks[u] == f.blocks[u]);
            assert(f.blocks[u].committed);
        }
    }
    assert forall|u: int, v: int|
        function2.blocks[u].committed && function2.blocks[v].committed && #[trigger] leads(
            function2,
            u,
            v,
        ) implies rank2[u] < rank2[v] by {
        if u == me {
            assert(names(exit, v));
            assert(function2.blocks[v] == function.blocks[v]);
        } else {
            assert(function2.blocks[u] == f.blocks[u]);
            assert(f.blocks[u].committed);
            if v == me {
            } else {
                assert(function2.blocks[v] == f.blocks[v]);
                assert(leads(f, u, v));
            }
        }
    }
    assert(ranks(function2, next, rank2));
}

/// Closing the cursor with an exit that names what exists leaves a
/// consistent function whose other slots are untouched.
pub proof fn lemma_close(
    function: FunctionView,
    block: BlockView,
    program: ProgramView,
    exit: ExitInstruction,
)
    requires
        building(function, block, program),
        exit.within(function.variable_count as int, function.blocks.len() as int),
    ensures
        consistent(function.overlay(block.closed_by(exit)), program),
        open_slots_fresh(function.overlay(block.closed_by(exit))),
{
    let f = function.overlay(block);
    let f2 = function.overlay(block.closed_by(exit));
    let me = block.id as int;
    assert(f2.blocks.len() == f.blocks.len());
    assert forall|b: int| 0 <= b < f.blocks.len() implies (#[trigger] f2.blocks[b]).insts
        == f.blocks[b].insts && f2.blocks[b].id == f.blocks[b].id by {}
    assert forall|i: int| 0 <= i < f2.blocks.len() implies (#[trigger] f2.blocks[i]).within(
        f2.variable_count as int,
        f2.blocks.len() as int,
    ) by {
        assert(f.blocks[i].within(f.variable_count as int, f.blocks.len() as int));
        if i != me {
            assert(f2.blocks[i] == f.blocks[i]);
        }
    }
    assert(f2.within()) by {
        assert forall|k: int| 0 <= k < f2.params.len() implies (#[trigger] f2.params[k]).id
            < f2.variable_count by {
            assert(f.params[k].id < f.variable_count);
        }
        assert forall|k: int| 0 <= k < f2.returns.len() implies (#[trigger] f2.returns[k]).id
            < f2.variable_count by {
            assert(f.returns[k].id < f.variable_count);
        }
    }
    assert forall|i: int| 0 <= i < f2.blocks.len() implies (#[trigger] f2.blocks[i]).calls_fit(
        program,
    ) by {
        assert(f.blocks[i].calls_fit(program));
    }
    assert forall|b: int, i: int, k: int| #[trigger] f2.is_site(b, i, k) implies f.is_site(b, i, k)
        && f.def_at(b, i, k) == f2.def_at(b, i, k) by {}
    assert(f2.numbered()) by {
        assert forall|i: int| 0 <= i < f2.blocks.len() implies (#[trigger] f2.blocks[i]).id
            == i by {
            assert(f.blocks[i].id == i);
        }
    }
    lemma_single_assignment_kept(f, f2);
    lemma_ordered_kept(f, f2);
    assert(f2.calls_fit(program));
    assert forall|u: int, v: int| #[trigger] leads(f, u, v) implies leads(f2, u, v) by {
        if u != me {
            assert(f2.blocks[u] == f.blocks[u]);
        }
    }
    assert forall|d: int, i2: int, k: int| #[trigger] f.is_site(d, i2, k) implies reachable(
        f2,
        d,
        me,
    ) by {
        if d == me {
            lemma_reachable_self(f2, me);
        } else {
            assert(f.blocks[d].insts.len() > 0);
            assert(function.blocks[d] == f.blocks[d]);
            assert(f.blocks[d].committed);
            lemma_reachable_kept(f, f2, d, me);
        }
    }
    assert forall|b: int, i: int, j: int, d: int, i2: int, k: int|
        #![trigger f2.blocks[b].insts[i].uses()[j], f2.is_site(d, i2, k)]
        0 <= b < f2.blocks.len() && 0 <= i < f2.blocks[b].insts.len() && 0 <= j
            < f2.blocks[b].insts[i].uses().len() && f2.is_site(d, i2, k)
            && f2.blocks[b].insts[i].uses()[j] == f2.def_at(d, i2, k) implies reachable(
        f2,
        d,
        b,
    ) by {
        assert(f.is_site(d, i2, k));
        assert(f.blocks[b].insts[i].uses()[j] == f.def_at(d, i2, k));
        lemma_reachable_kept(f, f2, d, b);
    }
    assert forall|b: int, j: int, d: int, i2: int, k: int|
        #![trigger f2.blocks[b].exit.uses()[j], f2.is_site(d, i2, k)]
        0 <= b < f2.blocks.len() && 0 <= j < f2.blocks[b].exit.uses().len() && f2.is_site(d, i2, k)
            && f2.blocks[b].exit.uses()[j] == f2.def_at(d, i2, k) implies reachable(f2, d, b) by {
        assert(f.is_site(d, i2, k));
        if b != me {
            assert(f2.blocks[b] == f.blocks[b]);
            assert(f.blocks[b].exit.uses()[j] == f.def_at(d, i2, k));
            lemma_reachable_kept(f, f2, d, b);
        }
    }
    assert(defs_reach_uses(f2));
    assert(open_slots_fresh(f2)) by {
        assert forall|i: int|
            0 <= i < f2.blocks.len() && !(#[trigger] f2.blocks[i]).committed implies f2.blocks[i]
            == BlockView::fresh(i as usize) by {
            if i != me {
                assert(f2.blocks[i] == function.blocks[i]);
            }
        }
    }
}

/// A function that is consistent with a program is consistent with every
/// program that continues it.
pub proof fn lemma_program_grows(function: FunctionView, program: ProgramView, longer: ProgramView)
    requires
        function.calls_fit(program),
        longer.extends(program),
    ensures
        function.calls_fit(longer),
{
    assert forall|i: int| 0 <= i < function.blocks.len() implies (#[trigger] function.blocks[i]).calls_fit(
        longer,
    ) by {
        let b = function.blocks[i];
        assert(b.calls_fit(program));
        assert forall|j: int| 0 <= j < b.insts.len() implies (#[trigger] b.insts[j]).call_fits(
            longer,
        ) by {
            assert(b.insts[j].call_fits(program));
            if b.insts[j] is Call {
                let callee = b.insts[j]->function.id as int;
                assert(longer.functions[callee] == program.functions[callee]);
            }
        }
    }
}

/// A well-formed program with one more function that is closed and
/// consistent with it is well formed.
pub proof fn lemma_program_with(program: ProgramView, function: FunctionView)
    requires
        program.well_formed(),
        program.single_assignment(),
        program.ordered(),
        flowing(program),
        loop_free(program),
        consistent(function, program),
        acyclic(function),
        function.closed(),
        function.blocks.len() > 0,
    ensures
        program.with(function).well_formed(),
        program.with(function).single_assignment(),
        program.with(function).ordered(),
        flowing(program.with(function)),
        loop_free(program.with(function)),
        program.with(function).extends(program),
{
    let longer = program.with(function);
    assert(longer.extends(program));
    assert forall|f: int|
        0 <= f < longer.functions.len() implies (#[trigger] longer.functions[f]).well_formed(
        longer,
    ) by {
        if f < program.functions.len() {
            assert(longer.functions[f] == program.functions[f]);
            assert(program.functions[f].well_formed(program));
            lemma_program_grows(program.functions[f], program, longer);
        } else {
            lemma_program_grows(function, program, longer);
        }
    }
    assert forall|f: int|
        0 <= f < longer.functions.len() implies (#[trigger] longer.functions[f]).single_assignment() by {
        if f < program.functions.len() {
            assert(longer.functions[f] == program.functions[f]);
        }
    }
    assert forall|f: int|
        0 <= f < longer.functions.len() implies (#[trigger] longer.functions[f]).ordered() by {
        if f < program.functions.len() {
            assert(longer.functions[f] == program.functions[f]);
        }
    }
    assert forall|f: int| 0 <= f < longer.functions.len() implies defs_reach_uses(
        #[trigger] longer.functions[f],
    ) by {
        if f < program.functions.len() {
            assert(longer.functions[f] == program.functions[f]);
        }
    }
    assert forall|f: int| 0 <= f < longer.functions.len() implies acyclic(
        #[trigger] longer.functions[f],
    ) by {
        if f < program.functions.len() {
            assert(longer.functions[f] == program.functions[f]);
        }
    }
}

/// The function `function` with the slots of two new blocks, and with
/// `block` closed by `exit` in its slot: what a conditional makes of a
/// function before its body is compiled.
pub open spec fn forked(function: FunctionView, block: BlockView, exit: ExitInstruction) -> FunctionView {
    let n = function.blocks.len();
    (FunctionView {
        blocks: function.blocks.push(BlockView::fresh(n as usize)).push(
            BlockView::fresh((n + 1) as usize),
        ),
        ..function
    }).overlay(block.closed_by(exit))
}

/// A conditional as a whole. Before it the function was `f1` with cursor
/// `b1`. The cursor was closed with `exit`, and the body was compiled from
/// the first new block on, which led to `f5` with cursor `b5`. Closing that
/// cursor with a jump to the second new block and going on there is one step
/// of the kind that `advanced` describes.
pub proof fn lemma_diamond(
    f1: FunctionView,
    b1: BlockView,
    exit: ExitInstruction,
    f5: FunctionView,
    b5: BlockView,
)
    requires
        b1.id < f1.blocks.len(),
        f1.blocks.len() + 2 <= usize::MAX,
        advanced(forked(f1, b1, exit), BlockView::fresh(f1.blocks.len() as usize), f5, b5),
        b5.id < f5.blocks.len(),
    ensures
        b5.id != f1.blocks.len() + 1,
        f5.blocks[(f1.blocks.len() + 1) as int] == BlockView::fresh((f1.blocks.len() + 1) as usize),
        advanced(
            f1,
            b1,
            f5.overlay(
                b5.closed_by(
                    ExitInstruction::Branch {
                        block: crate::ir::BlockId { id: (f1.blocks.len() + 1) as usize },
                    },
                ),
            ),
            BlockView::fresh((f1.blocks.len() + 1) as usize),
        ),
{
    let n = f1.blocks.len() as int;
    let f4 = forked(f1, b1, exit);
    let jump = ExitInstruction::Branch { block: crate::ir::BlockId { id: (n + 1) as usize } };
    let f6 = f5.overlay(b5.closed_by(jump));
    let me = b1.id as int;
    assert(f4.blocks.len() == n + 2);
    assert(f4.blocks[n + 1] == BlockView::fresh((n + 1) as usize));
    assert(f4.blocks[me] == b1.closed_by(exit));
    assert(f5.blocks[n + 1] == f4.blocks[n + 1]);
    assert(f5.blocks[me] == f4.blocks[me]);
    assert forall|i: int| 0 <= i < n && i != me implies #[trigger] f6.blocks[i] == f1.blocks[i] by {
        assert(f4.blocks[i] == f1.blocks[i]);
        assert(f5.blocks[i] == f4.blocks[i]);
    }
    assert forall|i: int|
        n <= i < f6.blocks.len() && i != n + 1 implies (#[trigger] f6.blocks[i]).committed by {
        if i == b5.id {
        } else if i == n {
            assert(f5.blocks[n].committed);
        } else {
            assert(f5.blocks[i].committed);
        }
    }
    assert(f6.blocks[me] == b1.closed_by(exit));
    assert(b1.insts.is_prefix_of(f6.blocks[me].insts));
}

/// A function that has nothing yet but `n` parameters and the slot of its
/// first block can be built from that block on.
pub proof fn lemma_new_function(n: nat, program: ProgramView)
    requires
        n <= usize::MAX,
    ensures
        building(
            FunctionView {
                params: var_range(0, n),
                returns: seq![],
                variable_count: n as usize,
                blocks: seq![BlockView::fresh(0)],
            },
            BlockView::fresh(0),
            program,
        ),
{
    let function = FunctionView {
        params: var_range(0, n),
        returns: seq![],
        variable_count: n as usize,
        blocks: seq![BlockView::fresh(0)],
    };
    let f = function.overlay(BlockView::fresh(0));
    assert(f.blocks =~= function.blocks);
    assert(f.blocks[0].insts.len() == 0);
    assert forall|i: int| 0 <= i < f.blocks.len() implies (#[trigger] f.blocks[i]).within(
        f.variable_count as int,
        f.blocks.len() as int,
    ) by {}
    assert forall|i: int| 0 <= i < f.blocks.len() implies (#[trigger] f.blocks[i]).calls_fit(
        program,
    ) by {}
    assert forall|b: int, i: int, k: int| !#[trigger] f.is_site(b, i, k) by {}
    assert(defs_reach_uses(f));
    assert(closed_reach(f, 0));
    assert(ranks(f, 0, seq![0int]));
}

/// Declaring return variables that exist keeps the function in order.
pub proof fn lemma_set_returns(
    function: FunctionView,
    block: BlockView,
    program: ProgramView,
    vars: Seq<Var>,
)
    requires
        building(function, block, program),
        forall|k: int| 0 <= k < vars.len() ==> (#[trigger] vars[k]).id < function.variable_count,
    ensures
        building(FunctionView { returns: vars, ..function }, block, program),
{
    let f = function.overlay(block);
    let function2 = FunctionView { returns: vars, ..function };
    let f2 = function2.overlay(block);
    assert(f2.blocks == f.blocks);
    assert forall|i: int| 0 <= i < f2.blocks.len() implies (#[trigger] f2.blocks[i]).within(
        f2.variable_count as int,
        f2.blocks.len() as int,
    ) by {
        assert(f.blocks[i].within(f.variable_count as int, f.blocks.len() as int));
    }
    assert(f2.within()) by {
        assert forall|k: int| 0 <= k < f2.params.len() implies (#[trigger] f2.params[k]).id
            < f2.variable_count by {
            assert(f.params[k].id < f.variable_count);
        }
    }
    assert forall|b: int, i: int, k: int| #[trigger] f2.is_site(b, i, k) implies f.is_site(b, i, k)
        && f.def_at(b, i, k) == f2.def_at(b, i, k) by {}
    lemma_single_assignment_kept(f, f2);
    lemma_ordered_kept(f, f2);
    lemma_flow_kept(f, f2, block.id as int);
    lemma_ranked_kept(f, f2, block.id as int);
    assert(f2.numbered());
    assert(f2.calls_fit(program));
}

/// A function that was built from its first block on, and whose cursor is
/// closed at last, has all its blocks closed.
pub proof fn lemma_finished(
    start: FunctionView,
    function: FunctionView,
    block: BlockView,
    exit: ExitInstruction,
)
    requires
        start.blocks.len() == 1,
        block.id < function.blocks.len(),
        advanced(start, BlockView::fresh(0), function, block),
    ensures
        function.overlay(block.closed_by(exit)).closed(),
        function.overlay(block.closed_by(exit)).blocks.len() > 0,
{
    let f = function.overlay(block.closed_by(exit));
    assert forall|i: int| 0 <= i < f.blocks.len() implies (#[trigger] f.blocks[i]).committed by {
        if i == block.id {
        } else if i == 0 {
            assert(function.blocks[0].committed);
        } else {
            assert(function.blocks[i].committed);
        }
    }
}

/// A function that is being built stays in order when the program is
/// continued.
pub proof fn lemma_building_grows(
    function: FunctionView,
    block: BlockView,
    program: ProgramView,
    longer: ProgramView,
)
    requires
        building(function, block, program),
        longer.extends(program),
    ensures
        building(function, block, longer),
{
    lemma_program_grows(function.overlay(block), program, longer);
}

/// A function whose last open block is closed with `return` has no way
/// that comes back to where it started.
pub proof fn lemma_finished_acyclic(function: FunctionView, block: BlockView, program: ProgramView)
    requires
        building(function, block, program),
        function.overlay(block.closed_by(ExitInstruction::Return)).closed(),
    ensures
        acyclic(function.overlay(block.closed_by(ExitInstruction::Return))),
{
    let f = function.overlay(block);
    let f2 = function.overlay(block.closed_by(ExitInstruction::Return));
    let me = block.id as int;
    let rank = choose|rank: Seq<int>| ranks(f, me, rank);
    assert forall|u: int, v: int|
        f2.blocks[u].committed && f2.blocks[v].committed && #[trigger] leads(
            f2,
            u,
            v,
        ) implies rank[u] < rank[v] by {
        assert(u != me);
        assert(f2.blocks[u] == f.blocks[u]);
        assert(f.blocks[u].committed);
        if v != me {
            assert(f2.blocks[v] == f.blocks[v]);
            assert(leads(f, u, v));
        }
    }
    assert forall|u: int| 0 <= u < f2.blocks.len() implies (#[trigger] f2.blocks[u]).committed by {}
    lemma_ranked_acyclic(f2, me, rank);
}

} // verus!

//! How often a variable is used: the counters of the walk hold, for every
//! variable, the number of places where it is read.

use crate::ir::{BlockId, BlockView, FunctionView, InstructionView, Var};
use crate::register_allocator::{
    counted,
    counted_block,
    counted_blocks,
    counted_insts,
    use_counts,
    walk,
};
use vstd::prelude::*;

verus! {

/// How often variable number `v` occurs among the first `n` of `vars`.
pub open spec fn occurrences(vars: Seq<Var>, v: int, n: nat) -> nat
    decreases n,
{
    if n == 0 {
        0
    } else {
        occurrences(vars, v, (n - 1) as nat) + if vars[n - 1].id == v {
            1nat
        } else {
            0nat
        }
    }
}

/// How often variable number `v` is read by the first `n` instructions of
/// `insts`: an addition reads its two operands, a `phi` its condition and its
/// two operands, and a call its arguments.
pub open spec fn reads_in_insts(insts: Seq<InstructionView>, v: int, n: nat) -> nat
    decreases n,
{
    if n == 0 {
        0
    } else {
        reads_in_insts(insts, v, (n - 1) as nat) + occurrences(
            insts[n - 1].uses(),
            v,
            insts[n - 1].uses().len(),
        )
    }
}

/// How often variable number `v` is read in `block`: by its instructions,
/// and by its exit if that branches on it.
pub open spec fn reads_in_block(block: BlockView, v: int) -> nat {
    reads_in_insts(block.insts, v, block.insts.len()) + occurrences(
        block.exit.uses(),
        v,
        block.exit.uses().len(),
    )
}

/// How often variable number `v` is read in the first `n` blocks of
/// `order`.
pub open spec fn reads_in_blocks(function: FunctionView, order: Seq<BlockId>, v: int, n: nat) -> nat
    decreases n,
{
    if n == 0 {
        0
    } else {
        reads_in_blocks(function, order, v, (n - 1) as nat) + reads_in_block(
            function.blocks[order[n - 1].id as int],
            v,
        )
    }
}

/// How often variable number `v` is used in the function: the number of
/// places in the blocks of the walk where it is read, and one more for each
/// time it is returned.
pub open spec fn uses_of(function: FunctionView, v: int) -> nat {
    reads_in_blocks(function, walk(function), v, walk(function).len()) + occurrences(
        function.returns,
        v,
        function.returns.len(),
    )
}

/// The number `n`, or the largest number that a counter can hold if `n` is
/// larger.
pub open spec fn capped(n: int) -> usize {
    if n > usize::MAX {
        usize::MAX
    } else {
        n as usize
    }
}

/// Whether each counter holds the number that it held in `before` and
/// `added` of its variable more, as far as a counter can.
pub open spec fn counts_added(
    before: Seq<usize>,
    after: Seq<usize>,
    added: spec_fn(int) -> nat,
) -> bool {
    &&& after.len() == before.len()
    &&& forall|v: int| 0 <= v < before.len() ==> #[trigger] after[v] == capped(before[v] + added(v))
}

/// Counting the uses of a list of variables adds, for each variable, the
/// number of its occurrences in the list.
pub proof fn lemma_counted(uses: Seq<usize>, vars: Seq<Var>, n: nat)
    requires
        n <= vars.len(),
        forall|k: int| 0 <= k < vars.len() ==> (#[trigger] vars[k]).id < uses.len(),
    ensures
        counts_added(uses, counted(uses, vars, n), |v: int| occurrences(vars, v, n)),
    decreases n,
{
    if n > 0 {
        lemma_counted(uses, vars, (n - 1) as nat);
        let before = counted(uses, vars, (n - 1) as nat);
        let after = counted(uses, vars, n);
        assert(vars[n - 1].id < uses.len());
        assert forall|v: int| 0 <= v < uses.len() implies #[trigger] after[v] == capped(
            uses[v] + occurrences(vars, v, n),
        ) by {
            assert(before[v] == capped(uses[v] + occurrences(vars, v, (n - 1) as nat)));
        }
    }
}

/// Adding to counters twice is adding the sum.
pub proof fn lemma_counts_added_twice(
    uses: Seq<usize>,
    between: Seq<usize>,
    after: Seq<usize>,
    first: spec_fn(int) -> nat,
    second: spec_fn(int) -> nat,
    both: spec_fn(int) -> nat,
)
    requires
        counts_added(uses, between, first),
        counts_added(between, after, second),
        forall|v: int| #[trigger] both(v) == first(v) + second(v),
    ensures
        counts_added(uses, after, both),
{
    assert forall|v: int| 0 <= v < uses.len() implies #[trigger] after[v] == capped(
        uses[v] + both(v),
    ) by {
        assert(between[v] == capped(uses[v] + first(v)));
        assert(after[v] == capped(between[v] + second(v)));
        assert(both(v) == first(v) + second(v));
    }
}

/// Counting the uses in a list of instructions adds, for each variable, the
/// number of places where the instructions read it.
pub proof fn lemma_counted_insts(uses: Seq<usize>, insts: Seq<InstructionView>, n: nat)
    requires
        n <= insts.len(),
        forall|i: int| 0 <= i < insts.len() ==> (#[trigger] insts[i]).within(uses.len() as int),
    ensures
        counts_added(uses, counted_insts(uses, insts, n), |v: int| reads_in_insts(insts, v, n)),
    decreases n,
{
    if n > 0 {
        lemma_counted_insts(uses, insts, (n - 1) as nat);
        let between = counted_insts(uses, insts, (n - 1) as nat);
        let inst = insts[n - 1];
        assert(inst.within(uses.len() as int));
        lemma_counted(between, inst.uses(), inst.uses().len());
        lemma_counts_added_twice(
            uses,
            between,
            counted_insts(uses, insts, n),
            |v: int| reads_in_insts(insts, v, (n - 1) as nat),
            |v: int| occurrences(inst.uses(), v, inst.uses().len()),
            |v: int| reads_in_insts(insts, v, n),
        );
    } else {
        assert forall|v: int| 0 <= v < uses.len() implies #[trigger] uses[v] == capped(
            uses[v] + reads_in_insts(insts, v, 0),
        ) by {}
    }
}

/// Counting the uses in a block adds, for each variable, the number of
/// places where the block reads it.
pub proof fn lemma_counted_block(uses: Seq<usize>, block: BlockView, blocks: int)
    requires
        block.within(uses.len() as int, blocks),
    ensures
        counts_added(uses, counted_block(uses, block), |v: int| reads_in_block(block, v)),
{
    lemma_counted_insts(uses, block.insts, block.insts.len());
    let between = counted_insts(uses, block.insts, block.insts.len());
    assert forall|k: int| 0 <= k < block.exit.uses().len() implies (
    #[trigger] block.exit.uses()[k]).id < between.len() by {}
    lemma_counted(between, block.exit.uses(), block.exit.uses().len());
    lemma_counts_added_twice(
        uses,
        between,
        counted_block(uses, block),
        |v: int| reads_in_insts(block.insts, v, block.insts.len()),
        |v: int| occurrences(block.exit.uses(), v, block.exit.uses().len()),
        |v: int| reads_in_block(block, v),
    );
}

/// Counting the uses in a list of blocks adds, for each variable, the
/// number of places where the blocks read it.
pub proof fn lemma_counted_blocks(
    uses: Seq<usize>,
    function: FunctionView,
    order: Seq<BlockId>,
    n: nat,
)
    requires
        n <= order.len(),
        function.within(),
        uses.len() == function.variable_count,
        forall|k: int| 0 <= k < order.len() ==> (#[trigger] order[k]).id < function.blocks.len(),
    ensures
        counts_added(
            uses,
            counted_blocks(uses, function, order, n),
            |v: int| reads_in_blocks(function, order, v, n),
        ),
    decreases n,
{
    if n > 0 {
        lemma_counted_blocks(uses, function, order, (n - 1) as nat);
        let between = counted_blocks(uses, function, order, (n - 1) as nat);
        let block = function.blocks[order[n - 1].id as int];
        assert(block.within(function.variable_count as int, function.blocks.len() as int));
        lemma_counted_block(between, block, function.blocks.len() as int);
        lemma_counts_added_twice(
            uses,
            between,
            counted_blocks(uses, function, order, n),
            |v: int| reads_in_blocks(function, order, v, (n - 1) as nat),
            |v: int| reads_in_block(block, v),
            |v: int| reads_in_blocks(function, order, v, n),
        );
    } else {
        assert forall|v: int| 0 <= v < uses.len() implies #[trigger] uses[v] == capped(
            uses[v] + reads_in_blocks(function, order, v, 0),
        ) by {}
    }
}

/// The counter of every variable holds the number of its uses, as far as a
/// counter can.
pub proof fn lemma_use_counts(function: FunctionView)
    requires
        function.within(),
    ensures
        use_counts(function).len() == function.variable_count,
        forall|v: int|
            0 <= v < function.variable_count ==> #[trigger] use_counts(function)[v] == capped(
                uses_of(function, v) as int,
            ),
{
    let zero = Seq::new(function.variable_count as nat, |i: int| 0usize);
    let order = walk(function);
    crate::register_allocator::lemma_walk(function);
    lemma_counted_blocks(zero, function, order, order.len());
    let between = counted_blocks(zero, function, order, order.len());
    assert forall|k: int| 0 <= k < function.returns.len() implies (#[trigger] function.returns[k]).id
        < between.len() by {}
    lemma_counted(between, function.returns, function.returns.len());
    lemma_counts_added_twice(
        zero,
        between,
        use_counts(function),
        |v: int| reads_in_blocks(function, order, v, order.len()),
        |v: int| occurrences(function.returns, v, function.returns.len()),
        |v: int| uses_of(function, v),
    );
    assert forall|v: int| 0 <= v < function.variable_count implies #[trigger] use_counts(
        function,
    )[v] == capped(uses_of(function, v) as int) by {
        assert(use_counts(function)[v] == capped(zero[v] + uses_of(function, v)));
    }
}

} // verus!

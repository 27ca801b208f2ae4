//! How runs of a program fit together: more fuel never changes a result,
//! instructions can be run in two parts, and a run can be taken up in the
//! middle of a block.

use crate::execute::{read_all, run_block, run_call, run_insts, runnable, write_all};
use crate::ir::{ExitInstruction, InstructionView, ProgramView, Var};
use crate::types::phis;
use vstd::prelude::*;

verus! {

/// A run of instructions that lasts with some fuel gives the same with
/// more fuel.
pub proof fn lemma_run_insts_more(
    program: ProgramView,
    insts: Seq<InstructionView>,
    n: nat,
    regs: Seq<i32>,
    fuel: nat,
    more: nat,
)
    requires
        fuel <= more,
        run_insts(program, insts, n, regs, fuel) is Some,
    ensures
        run_insts(program, insts, n, regs, more) == run_insts(program, insts, n, regs, fuel),
    decreases fuel, 2nat, n,
{
    if n > 0 {
        lemma_run_insts_more(program, insts, (n - 1) as nat, regs, fuel, more);
        let before = run_insts(program, insts, (n - 1) as nat, regs, fuel)->0;
        match insts[n - 1] {
            InstructionView::Call { function, args, returns: dests } => {
                lemma_run_call_more(
                    program,
                    function.id as int,
                    read_all(before, args),
                    fuel,
                    more,
                );
            },
            _ => {},
        }
    }
}

/// A call that lasts with some fuel gives the same with more fuel.
pub proof fn lemma_run_call_more(
    program: ProgramView,
    f: int,
    args: Seq<i32>,
    fuel: nat,
    more: nat,
)
    requires
        fuel <= more,
        run_call(program, f, args, fuel) is Some,
    ensures
        run_call(program, f, args, more) == run_call(program, f, args, fuel),
    decreases fuel, 1nat, 0nat,
{
    let function = program.functions[f];
    let regs = write_all(
        crate::execute::cleared(function.variable_count as nat),
        function.params,
        args,
        function.params.len(),
    );
    lemma_run_block_more(program, f, 0, regs, fuel, more);
}

/// A run from a block on that lasts with some fuel gives the same with
/// more fuel.
pub proof fn lemma_run_block_more(
    program: ProgramView,
    f: int,
    b: int,
    regs: Seq<i32>,
    fuel: nat,
    more: nat,
)
    requires
        fuel <= more,
        run_block(program, f, b, regs, fuel) is Some,
    ensures
        run_block(program, f, b, regs, more) == run_block(program, f, b, regs, fuel),
    decreases fuel, 0nat, 0nat,
{
    let block = program.functions[f].blocks[b];
    lemma_run_insts_more(
        program,
        block.insts,
        block.insts.len(),
        regs,
        (fuel - 1) as nat,
        (more - 1) as nat,
    );
    let after = run_insts(program, block.insts, block.insts.len(), regs, (fuel - 1) as nat)->0;
    match block.exit {
        ExitInstruction::Return => {},
        ExitInstruction::Branch { block } => {
            lemma_run_block_more(
                program,
                f,
                block.id as int,
                after,
                (fuel - 1) as nat,
                (more - 1) as nat,
            );
        },
        ExitInstruction::ConditionalBranch { cond, block1, block2 } => {
            lemma_run_block_more(
                program,
                f,
                if after[cond.id as int] != 0 {
                    block1.id as int
                } else {
                    block2.id as int
                },
                after,
                (fuel - 1) as nat,
                (more - 1) as nat,
            );
        },
    }
}

/// The registers after an instruction that is no call.
pub open spec fn stepped(inst: InstructionView, regs: Seq<i32>) -> Seq<i32> {
    match inst {
        InstructionView::AddInt { dest, a, b } => regs.update(
            dest.id as int,
            regs[a.id as int].wrapping_add(regs[b.id as int]),
        ),
        InstructionView::ConstantInt { dest, constant } => regs.update(dest.id as int, constant),
        InstructionView::Phi { dest, cond, a, b } => regs.update(
            dest.id as int,
            if regs[cond.id as int] != 0 {
                regs[a.id as int]
            } else {
                regs[b.id as int]
            },
        ),
        InstructionView::Call { .. } => regs,
    }
}

/// One instruction that is no call runs without fuel.
pub proof fn lemma_run_one(program: ProgramView, inst: InstructionView, regs: Seq<i32>, fuel: nat)
    requires
        !(inst is Call),
    ensures
        run_insts(program, seq![inst], 1, regs, fuel) == Some(stepped(inst, regs)),
{
    reveal_with_fuel(run_insts, 2);
    assert(seq![inst][0] == inst);
}

/// The first instructions of a list are run without regard to the rest.
pub proof fn lemma_run_insts_front(
    program: ProgramView,
    insts: Seq<InstructionView>,
    other: Seq<InstructionView>,
    n: nat,
    regs: Seq<i32>,
    fuel: nat,
)
    requires
        n <= insts.len(),
        n <= other.len(),
        insts.take(n as int) == other.take(n as int),
    ensures
        run_insts(program, insts, n, regs, fuel) == run_insts(program, other, n, regs, fuel),
    decreases n,
{
    if n > 0 {
        assert(insts.take(n - 1) =~= insts.take(n as int).take(n - 1));
        assert(other.take(n - 1) =~= other.take(n as int).take(n - 1));
        lemma_run_insts_front(program, insts, other, (n - 1) as nat, regs, fuel);
        assert(insts[n - 1] == insts.take(n as int)[n - 1]);
        assert(other[n - 1] == other.take(n as int)[n - 1]);
    }
}

/// Running two lists of instructions one after the other is running the
/// one list that they make.
pub proof fn lemma_run_insts_joined(
    program: ProgramView,
    first: Seq<InstructionView>,
    second: Seq<InstructionView>,
    n: nat,
    regs: Seq<i32>,
    fuel: nat,
)
    requires
        n <= second.len(),
    ensures
        run_insts(program, first + second, first.len() + n, regs, fuel) == match run_insts(
            program,
            first,
            first.len(),
            regs,
            fuel,
        ) {
            None => None,
            Some(between) => run_insts(program, second, n, between, fuel),
        },
    decreases n,
{
    let all = first + second;
    if n == 0 {
        assert(all.take(first.len() as int) =~= first.take(first.len() as int));
        lemma_run_insts_front(program, all, first, first.len(), regs, fuel);
    } else {
        lemma_run_insts_joined(program, first, second, (n - 1) as nat, regs, fuel);
        assert(all[first.len() + n - 1] == second[n - 1]);
    }
}

/// The registers when function `f`, taken up behind the first `n`
/// instructions of block `b` with the registers `regs`, returns, or nothing
/// if the fuel does not last.
pub open spec fn finish(program: ProgramView, f: int, b: int, n: int, regs: Seq<i32>, fuel: nat) -> Option<
    Seq<i32>,
>
    decreases fuel,
{
    if fuel == 0 {
        None
    } else {
        let block = program.functions[f].blocks[b];
        match run_insts(
            program,
            block.insts.subrange(n, block.insts.len() as int),
            (block.insts.len() - n) as nat,
            regs,
            (fuel - 1) as nat,
        ) {
            None => None,
            Some(regs) => match block.exit {
                ExitInstruction::Return => Some(regs),
                ExitInstruction::Branch { block } => run_block(
                    program,
                    f,
                    block.id as int,
                    regs,
                    (fuel - 1) as nat,
                ),
                ExitInstruction::ConditionalBranch { cond, block1, block2 } => run_block(
                    program,
                    f,
                    if regs[cond.id as int] != 0 {
                        block1.id as int
                    } else {
                        block2.id as int
                    },
                    regs,
                    (fuel - 1) as nat,
                ),
            },
        }
    }
}

/// Taking a run up at the start of a block is running from the block on.
pub proof fn lemma_finish_block(program: ProgramView, f: int, b: int, regs: Seq<i32>, fuel: nat)
    ensures
        finish(program, f, b, 0, regs, fuel) == run_block(program, f, b, regs, fuel),
{
    let insts = program.functions[f].blocks[b].insts;
    assert(insts.subrange(0, insts.len() as int) =~= insts);
}

/// A run that is taken up and lasts with some fuel gives the same with more
/// fuel.
pub proof fn lemma_finish_more(
    program: ProgramView,
    f: int,
    b: int,
    n: int,
    regs: Seq<i32>,
    fuel: nat,
    more: nat,
)
    requires
        fuel <= more,
        finish(program, f, b, n, regs, fuel) is Some,
    ensures
        finish(program, f, b, n, regs, more) == finish(program, f, b, n, regs, fuel),
{
    let block = program.functions[f].blocks[b];
    let rest = block.insts.subrange(n, block.insts.len() as int);
    let k = (block.insts.len() - n) as nat;
    lemma_run_insts_more(program, rest, k, regs, (fuel - 1) as nat, (more - 1) as nat);
    let after = run_insts(program, rest, k, regs, (fuel - 1) as nat)->0;
    match block.exit {
        ExitInstruction::Return => {},
        ExitInstruction::Branch { block } => {
            lemma_run_block_more(
                program,
                f,
                block.id as int,
                after,
                (fuel - 1) as nat,
                (more - 1) as nat,
            );
        },
        ExitInstruction::ConditionalBranch { cond, block1, block2 } => {
            lemma_run_block_more(
                program,
                f,
                if after[cond.id as int] != 0 {
                    block1.id as int
                } else {
                    block2.id as int
                },
                after,
                (fuel - 1) as nat,
                (more - 1) as nat,
            );
        },
    }
}

/// A run that is taken up in a block can be taken up further on in the
/// block instead, behind the instructions in between, with the registers
/// that they leave.
pub proof fn lemma_finish_behind(
    program: ProgramView,
    f: int,
    b: int,
    n: int,
    m: int,
    regs: Seq<i32>,
    between: Seq<i32>,
    gap: nat,
    fuel: nat,
)
    requires
        0 <= n <= m <= program.functions[f].blocks[b].insts.len(),
        run_insts(
            program,
            program.functions[f].blocks[b].insts.subrange(n, m),
            (m - n) as nat,
            regs,
            gap,
        ) == Some(between),
        finish(program, f, b, m, between, fuel) is Some,
    ensures
        finish(program, f, b, n, regs, fuel + gap) == finish(program, f, b, m, between, fuel),
{
    let block = program.functions[f].blocks[b];
    let len = block.insts.len() as int;
    let first = block.insts.subrange(n, m);
    let second = block.insts.subrange(m, len);
    let all = block.insts.subrange(n, len);
    let long = (fuel + gap - 1) as nat;
    assert(all =~= first + second);
    lemma_run_insts_joined(program, first, second, (len - m) as nat, regs, long);
    lemma_run_insts_more(program, first, (m - n) as nat, regs, gap, long);
    lemma_run_insts_more(program, second, (len - m) as nat, between, (fuel - 1) as nat, long);
    lemma_finish_more(program, f, b, m, between, fuel, fuel + gap);
}

/// The registers after the first `n` of the instructions that merge the
/// values in `a` and `b` into new variables from number `first` on.
pub open spec fn selected(
    regs: Seq<i32>,
    cond: Var,
    a: Seq<Var>,
    b: Seq<Var>,
    first: int,
    n: nat,
) -> Seq<i32>
    decreases n,
{
    if n == 0 {
        regs
    } else {
        let before = selected(regs, cond, a, b, first, (n - 1) as nat);
        before.update(
            first + n - 1,
            if before[cond.id as int] != 0 {
                before[a[n - 1].id as int]
            } else {
                before[b[n - 1].id as int]
            },
        )
    }
}

/// The instructions that merge two values run without fuel.
pub proof fn lemma_run_phis(
    program: ProgramView,
    regs: Seq<i32>,
    cond: Var,
    a: Seq<Var>,
    b: Seq<Var>,
    first: int,
    n: nat,
    fuel: nat,
)
    requires
        n <= a.len(),
        0 <= first,
        first + a.len() <= usize::MAX,
    ensures
        run_insts(program, phis(cond, a, b, first), n, regs, fuel) == Some(
            selected(regs, cond, a, b, first, n),
        ),
    decreases n,
{
    if n > 0 {
        lemma_run_phis(program, regs, cond, a, b, first, (n - 1) as nat, fuel);
    }
}

/// The instructions that merge two values write the new variables and
/// nothing else: each gets the value from `a` if `cond` is not zero, and the
/// value from `b` if it is.
pub proof fn lemma_selected(
    regs: Seq<i32>,
    cond: Var,
    a: Seq<Var>,
    b: Seq<Var>,
    first: int,
    n: nat,
)
    requires
        n <= a.len(),
        a.len() == b.len(),
        0 <= first,
        first + a.len() <= regs.len(),
        cond.id < first,
        forall|k: int| 0 <= k < a.len() ==> (#[trigger] a[k]).id < first,
        forall|k: int| 0 <= k < b.len() ==> (#[trigger] b[k]).id < first,
    ensures
        selected(regs, cond, a, b, first, n).len() == regs.len(),
        forall|x: int|
            0 <= x < regs.len() && !(first <= x < first + n) ==> #[trigger] selected(
                regs,
                cond,
                a,
                b,
                first,
                n,
            )[x] == regs[x],
        forall|k: int|
            0 <= k < n ==> #[trigger] selected(regs, cond, a, b, first, n)[first + k] == (
            if regs[cond.id as int] != 0 {
                regs[a[k].id as int]
            } else {
                regs[b[k].id as int]
            }),
    decreases n,
{
    if n > 0 {
        lemma_selected(regs, cond, a, b, first, (n - 1) as nat);
        let before = selected(regs, cond, a, b, first, (n - 1) as nat);
        assert(a[n - 1].id < first);
        assert(b[n - 1].id < first);
        assert(before[cond.id as int] == regs[cond.id as int]);
        assert(before[a[n - 1].id as int] == regs[a[n - 1].id as int]);
        assert(before[b[n - 1].id as int] == regs[b[n - 1].id as int]);
        let after = selected(regs, cond, a, b, first, n);
        assert forall|k: int| 0 <= k < n implies #[trigger] after[first + k] == (if regs[cond.id as int]
            != 0 {
            regs[a[k].id as int]
        } else {
            regs[b[k].id as int]
        }) by {
            if k < n - 1 {
                assert(after[first + k] == before[first + k]);
            }
        }
    }
}

/// Instructions that call functions of a program only run in the same way
/// in every program that continues it.
pub proof fn lemma_run_insts_extended(
    program: ProgramView,
    longer: ProgramView,
    insts: Seq<InstructionView>,
    n: nat,
    regs: Seq<i32>,
    fuel: nat,
)
    requires
        longer.extends(program),
        runnable(program),
        n <= insts.len(),
        forall|i: int| 0 <= i < n ==> (#[trigger] insts[i]).call_fits(program),
    ensures
        run_insts(longer, insts, n, regs, fuel) == run_insts(program, insts, n, regs, fuel),
    decreases fuel, 2nat, n,
{
    if n > 0 {
        lemma_run_insts_extended(program, longer, insts, (n - 1) as nat, regs, fuel);
        match run_insts(program, insts, (n - 1) as nat, regs, fuel) {
            None => {},
            Some(before) => {
                assert(insts[n - 1].call_fits(program));
                match insts[n - 1] {
                    InstructionView::Call { function, args, returns: dests } => {
                        lemma_run_call_extended(
                            program,
                            longer,
                            function.id as int,
                            read_all(before, args),
                            fuel,
                        );
                    },
                    _ => {},
                }
            },
        }
    }
}

/// A function of a program runs in the same way in every program that
/// continues it.
pub proof fn lemma_run_call_extended(
    program: ProgramView,
    longer: ProgramView,
    f: int,
    args: Seq<i32>,
    fuel: nat,
)
    requires
        longer.extends(program),
        runnable(program),
        0 <= f < program.functions.len(),
    ensures
        run_call(longer, f, args, fuel) == run_call(program, f, args, fuel),
    decreases fuel, 1nat, 0nat,
{
    let function = program.functions[f];
    assert(longer.functions[f] == function);
    let regs = write_all(
        crate::execute::cleared(function.variable_count as nat),
        function.params,
        args,
        function.params.len(),
    );
    lemma_run_block_extended(program, longer, f, 0, regs, fuel);
}

/// A function of a program runs from any of its blocks on in the same way
/// in every program that continues it.
pub proof fn lemma_run_block_extended(
    program: ProgramView,
    longer: ProgramView,
    f: int,
    b: int,
    regs: Seq<i32>,
    fuel: nat,
)
    requires
        longer.extends(program),
        runnable(program),
        0 <= f < program.functions.len(),
        0 <= b < program.functions[f].blocks.len(),
    ensures
        run_block(longer, f, b, regs, fuel) == run_block(program, f, b, regs, fuel),
    decreases fuel, 0nat, 0nat,
{
    assert(longer.functions[f] == program.functions[f]);
    if fuel > 0 {
        let function = program.functions[f];
        let block = function.blocks[b];
        {
            assert(function.calls_fit(program));
            assert(function.within());
            assert(block.within(function.variable_count as int, function.blocks.len() as int));
            assert(block.calls_fit(program));
            lemma_run_insts_extended(
                program,
                longer,
                block.insts,
                block.insts.len(),
                regs,
                (fuel - 1) as nat,
            );
            match run_insts(program, block.insts, block.insts.len(), regs, (fuel - 1) as nat) {
                None => {},
                Some(after) => {
                    match block.exit {
                        ExitInstruction::Return => {},
                        ExitInstruction::Branch { block } => {
                            lemma_run_block_extended(
                                program,
                                longer,
                                f,
                                block.id as int,
                                after,
                                (fuel - 1) as nat,
                            );
                        },
                        ExitInstruction::ConditionalBranch { cond, block1, block2 } => {
                            lemma_run_block_extended(
                                program,
                                longer,
                                f,
                                if after[cond.id as int] != 0 {
                                    block1.id as int
                                } else {
                                    block2.id as int
                                },
                                after,
                                (fuel - 1) as nat,
                            );
                        },
                    }
                },
            }
        }
    }
}

} // verus!

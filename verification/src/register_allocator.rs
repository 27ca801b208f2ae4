//! The first half of register allocation: which variables are alive at the
//! same time. The blocks of a function are walked in the reverse of the
//! order in which a depth-first search leaves them; a variable is alive from
//! the place where it is written to its last use.

use crate::ir::{
    Block,
    BlockId,
    BlockView,
    copy_vars,
    ExitInstruction,
    Function,
    FunctionView,
    Instruction,
    InstructionView,
    Program,
    Var,
};
use vstd::prelude::*;

verus! {

/// The variables of a function in the order in which they are written,
/// the last one first. Each node names the variables that were alive when
/// its variable was written.
#[derive(Debug)]
pub enum Graph {
    Empty,
    Node { var: Var, next: Box<Graph>, interference: Vec<Var> },
}

/// A node as a mathematical value.
pub struct NodeView {
    pub var: Var,
    pub interference: Set<Var>,
}

impl Graph {
    /// The nodes of the graph, in the order in which the variables are
    /// written.
    pub open spec fn nodes(&self) -> Seq<NodeView>
        decreases self,
    {
        match self {
            Graph::Empty => seq![],
            Graph::Node { var, next, interference } => next.nodes().push(
                NodeView { var: *var, interference: interference@.to_set() },
            ),
        }
    }
}

/// What the walk over the instructions keeps: the nodes so far, the
/// variables that are alive, and for every variable the number of uses that
/// are still to come.
pub struct Liveness {
    pub nodes: Seq<NodeView>,
    pub live: Set<Var>,
    pub uses: Seq<usize>,
}

/// A counter after one more use; it stays at the largest value once there.
pub open spec fn one_more(n: usize) -> usize {
    if n < usize::MAX {
        (n + 1) as usize
    } else {
        n
    }
}

/// The counters after the first `n` of `vars` were used once more each.
pub open spec fn counted(uses: Seq<usize>, vars: Seq<Var>, n: nat) -> Seq<usize>
    decreases n,
{
    if n == 0 {
        uses
    } else {
        let before = counted(uses, vars, (n - 1) as nat);
        before.update(vars[n - 1].id as int, one_more(before[vars[n - 1].id as int]))
    }
}

/// The counters after the uses in the first `n` instructions of `insts`
/// were counted.
pub open spec fn counted_insts(uses: Seq<usize>, insts: Seq<InstructionView>, n: nat) -> Seq<usize>
    decreases n,
{
    if n == 0 {
        uses
    } else {
        counted(
            counted_insts(uses, insts, (n - 1) as nat),
            insts[n - 1].uses(),
            insts[n - 1].uses().len(),
        )
    }
}

/// The counters after the uses in `block` were counted: those of its
/// instructions and that of its exit.
pub open spec fn counted_block(uses: Seq<usize>, block: BlockView) -> Seq<usize> {
    counted(
        counted_insts(uses, block.insts, block.insts.len()),
        block.exit.uses(),
        block.exit.uses().len(),
    )
}

/// The counters after the uses in the first `n` blocks of `order` were
/// counted.
pub open spec fn counted_blocks(
    uses: Seq<usize>,
    function: FunctionView,
    order: Seq<BlockId>,
    n: nat,
) -> Seq<usize>
    decreases n,
{
    if n == 0 {
        uses
    } else {
        counted_block(
            counted_blocks(uses, function, order, (n - 1) as nat),
            function.blocks[order[n - 1].id as int],
        )
    }
}

/// The blocks that a depth-first search from block `b` comes to, appended
/// to `post` in the order in which the search leaves them: each block behind
/// those that the search enters from it. A block that was `seen` is not
/// entered again, and of two blocks that an exit names the first is searched
/// first. The search does not go deeper than `depth` blocks.
pub open spec fn searched(
    function: FunctionView,
    b: int,
    seen: Seq<bool>,
    post: Seq<BlockId>,
    depth: nat,
) -> (Seq<bool>, Seq<BlockId>)
    decreases depth,
{
    if depth == 0 || b < 0 || b >= function.blocks.len() || b >= seen.len() || seen[b] {
        (seen, post)
    } else {
        let seen = seen.update(b, true);
        let after = match function.blocks[b].exit {
            ExitInstruction::Return => (seen, post),
            ExitInstruction::Branch { block } => searched(
                function,
                block.id as int,
                seen,
                post,
                (depth - 1) as nat,
            ),
            ExitInstruction::ConditionalBranch { block1, block2, .. } => {
                let first = searched(function, block1.id as int, seen, post, (depth - 1) as nat);
                searched(function, block2.id as int, first.0, first.1, (depth - 1) as nat)
            },
        };
        (after.0, after.1.push(BlockId { id: b as usize }))
    }
}

/// The order in which the blocks of a function are walked: the blocks that
/// the search from the first block comes to, in the reverse of the order in
/// which the search leaves them. These are the blocks that can be reached
/// from the first block, each once, and each before the blocks that it leads
/// to unless they lead back to it, as `reach::lemma_walk_reaches` shows.
pub open spec fn walk(function: FunctionView) -> Seq<BlockId> {
    let post = searched(
        function,
        0,
        Seq::new(function.blocks.len(), |i: int| false),
        seq![],
        function.blocks.len(),
    ).1;
    Seq::new(post.len(), |i: int| post[post.len() - 1 - i])
}

/// For every variable of the function the number of places where it is
/// used in the blocks of the walk, and one more for each time it is
/// returned, as `uses::lemma_use_counts` shows.
pub open spec fn use_counts(function: FunctionView) -> Seq<usize> {
    counted(
        counted_blocks(
            Seq::new(function.variable_count as nat, |i: int| 0usize),
            function,
            walk(function),
            walk(function).len(),
        ),
        function.returns,
        function.returns.len(),
    )
}

impl Liveness {
    /// After `var` was written: it gets a node with the variables that
    /// are alive, and is alive itself from now on.
    pub open spec fn define(self, var: Var) -> Liveness {
        Liveness {
            nodes: self.nodes.push(NodeView { var, interference: self.live }),
            live: self.live.insert(var),
            uses: self.uses,
        }
    }

    /// After `var` was used: one use less is to come, and if none is, the
    /// variable is alive no longer.
    pub open spec fn consume(self, var: Var) -> Liveness {
        if self.uses[var.id as int] > 0 {
            let left = (self.uses[var.id as int] - 1) as usize;
            Liveness {
                nodes: self.nodes,
                live: if left == 0 {
                    self.live.remove(var)
                } else {
                    self.live
                },
                uses: self.uses.update(var.id as int, left),
            }
        } else {
            self
        }
    }

    /// After the first `n` of `vars` were written.
    pub open spec fn define_all(self, vars: Seq<Var>, n: nat) -> Liveness
        decreases n,
    {
        if n == 0 {
            self
        } else {
            self.define_all(vars, (n - 1) as nat).define(vars[n - 1])
        }
    }

    /// After the first `n` of `vars` were used.
    pub open spec fn consume_all(self, vars: Seq<Var>, n: nat) -> Liveness
        decreases n,
    {
        if n == 0 {
            self
        } else {
            self.consume_all(vars, (n - 1) as nat).consume(vars[n - 1])
        }
    }

    /// After one instruction. What an addition, a constant or a `phi`
    /// writes is written before its operands are used; a call uses its
    /// arguments before its results are written.
    pub open spec fn step(self, inst: InstructionView) -> Liveness {
        match inst {
            InstructionView::AddInt { dest, a, b } => self.define(dest).consume(a).consume(b),
            InstructionView::ConstantInt { dest, .. } => self.define(dest),
            InstructionView::Phi { dest, cond, a, b } => self.define(dest).consume(a).consume(
                b,
            ).consume(cond),
            InstructionView::Call { args, returns: dests, .. } => self.consume_all(
                args,
                args.len(),
            ).define_all(dests, dests.len()),
        }
    }

    /// After the first `n` instructions of `insts`.
    pub open spec fn steps(self, insts: Seq<InstructionView>, n: nat) -> Liveness
        decreases n,
    {
        if n == 0 {
            self
        } else {
            self.steps(insts, (n - 1) as nat).step(insts[n - 1])
        }
    }

    /// After a block: its instructions, then the use in its exit.
    pub open spec fn block(self, block: BlockView) -> Liveness {
        let after = self.steps(block.insts, block.insts.len());
        match block.exit {
            ExitInstruction::ConditionalBranch { cond, .. } => after.consume(cond),
            _ => after,
        }
    }

    /// After the first `n` blocks of `order`.
    pub open spec fn blocks(self, function: FunctionView, order: Seq<BlockId>, n: nat) -> Liveness
        decreases n,
    {
        if n == 0 {
            self
        } else {
            self.blocks(function, order, (n - 1) as nat).block(
                function.blocks[order[n - 1].id as int],
            )
        }
    }
}

/// The nodes of the interference graph of a function: one for every place
/// where a variable is written in the blocks of the walk, with the variables
/// that are alive there.
pub open spec fn interference(function: FunctionView) -> Seq<NodeView> {
    (Liveness { nodes: seq![], live: Set::empty(), uses: use_counts(function) }).blocks(
        function,
        walk(function),
        walk(function).len(),
    ).nodes
}

/// A search marks blocks and appends blocks of the function; it does not
/// change the number of marks.
pub proof fn lemma_searched(
    function: FunctionView,
    b: int,
    seen: Seq<bool>,
    post: Seq<BlockId>,
    depth: nat,
)
    requires
        forall|i: int| 0 <= i < post.len() ==> (#[trigger] post[i]).id < function.blocks.len(),
    ensures
        searched(function, b, seen, post, depth).0.len() == seen.len(),
        forall|i: int|
            0 <= i < searched(function, b, seen, post, depth).1.len() ==> (#[trigger] searched(
                function,
                b,
                seen,
                post,
                depth,
            ).1[i]).id < function.blocks.len(),
    decreases depth,
{
    if depth == 0 || b < 0 || b >= function.blocks.len() || b >= seen.len() || seen[b] {
    } else {
        let marked = seen.update(b, true);
        match function.blocks[b].exit {
            ExitInstruction::Return => {},
            ExitInstruction::Branch { block } => {
                lemma_searched(function, block.id as int, marked, post, (depth - 1) as nat);
            },
            ExitInstruction::ConditionalBranch { block1, block2, .. } => {
                lemma_searched(function, block1.id as int, marked, post, (depth - 1) as nat);
                let first = searched(function, block1.id as int, marked, post, (depth - 1) as nat);
                lemma_searched(function, block2.id as int, first.0, first.1, (depth - 1) as nat);
            },
        }
    }
}

/// Every block of the walk is a block of the function.
pub proof fn lemma_walk(function: FunctionView)
    ensures
        forall|i: int|
            0 <= i < walk(function).len() ==> (#[trigger] walk(function)[i]).id
                < function.blocks.len(),
{
    lemma_searched(
        function,
        0,
        Seq::new(function.blocks.len(), |i: int| false),
        seq![],
        function.blocks.len(),
    );
}

/// Searches the blocks from `block` on and appends them to `post` in the
/// order in which the search leaves them.
fn search(
    function: &Function,
    block: BlockId,
    seen: &mut Vec<bool>,
    post: &mut Vec<BlockId>,
    depth: usize,
)
    ensures
        (final(seen)@, final(post)@) == searched(
            function@,
            block.id as int,
            old(seen)@,
            old(post)@,
            depth as nat,
        ),
    decreases depth,
{
    if depth == 0 || block.id >= function.block_count() || block.id >= seen.len() || seen[block.id] {
        return ;
    }
    seen[block.id] = true;
    match function.get_block(block).get_exit_instruction() {
        ExitInstruction::Return => {},
        ExitInstruction::Branch { block: target } => {
            search(function, *target, seen, post, depth - 1);
        },
        ExitInstruction::ConditionalBranch { block1, block2, .. } => {
            search(function, *block1, seen, post, depth - 1);
            search(function, *block2, seen, post, depth - 1);
        },
    }
    post.push(block);
}

/// The order in which the blocks of `function` are walked.
pub fn block_order(function: &Function) -> (order: Vec<BlockId>)
    ensures
        order@ == walk(function@),
{
    let count = function.block_count();
    let mut seen: Vec<bool> = Vec::new();
    let mut i: usize = 0;
    while i < count
        invariant
            i <= count,
            seen@ == Seq::new(i as nat, |k: int| false),
        decreases count - i,
    {
        seen.push(false);
        i += 1;
        assert(seen@ =~= Seq::new(i as nat, |k: int| false));
    }
    let mut post: Vec<BlockId> = Vec::new();
    assert(post@ =~= Seq::<BlockId>::empty());
    search(function, BlockId::entry(), &mut seen, &mut post, count);
    let mut order: Vec<BlockId> = Vec::new();
    let mut j: usize = post.len();
    while j > 0
        invariant
            j <= post.len(),
            order@.len() == post.len() - j,
            forall|k: int| 0 <= k < order@.len() ==> order@[k] == post@[post.len() - 1 - k],
        decreases j,
    {
        j -= 1;
        order.push(post[j]);
    }
    assert(order@ =~= walk(function@));
    order
}

/// Counts one more use for each of `vars`.
fn count_uses(vars: &Vec<Var>, uses: &mut Vec<usize>)
    requires
        forall|k: int| 0 <= k < vars@.len() ==> (#[trigger] vars@[k]).id < old(uses)@.len(),
    ensures
        final(uses)@ == counted(old(uses)@, vars@, vars@.len()),
        final(uses)@.len() == old(uses)@.len(),
{
    let mut i: usize = 0;
    while i < vars.len()
        invariant
            i <= vars.len(),
            uses@.len() == old(uses)@.len(),
            forall|k: int| 0 <= k < vars@.len() ==> (#[trigger] vars@[k]).id < uses@.len(),
            uses@ == counted(old(uses)@, vars@, i as nat),
        decreases vars.len() - i,
    {
        count_use(vars[i], uses);
        i += 1;
    }
}

/// Counts one more use of `var`.
fn count_use(var: Var, uses: &mut Vec<usize>)
    requires
        var.id < old(uses)@.len(),
    ensures
        final(uses)@ == old(uses)@.update(var.id as int, one_more(old(uses)@[var.id as int])),
{
    let n = uses[var.id];
    if n < usize::MAX {
        uses[var.id] = n + 1;
    } else {
        assert(uses@ =~= old(uses)@.update(var.id as int, one_more(old(uses)@[var.id as int])));
    }
}

/// Counts the uses in `block`: those of its instructions and that of its
/// exit.
pub fn count_uses_in_block(block: &Block, uses: &mut Vec<usize>)
    requires
        forall|i: int|
            0 <= i < block@.insts.len() ==> (#[trigger] block@.insts[i]).within(
                old(uses)@.len() as int,
            ),
        forall|k: int|
            0 <= k < block@.exit.uses().len() ==> (#[trigger] block@.exit.uses()[k]).id < old(
                uses,
            )@.len(),
    ensures
        final(uses)@ == counted_block(old(uses)@, block@),
        final(uses)@.len() == old(uses)@.len(),
{
    let insts = block.get_instructions();
    let mut i: usize = 0;
    while i < insts.len()
        invariant
            i <= insts.len(),
            insts@.len() == block@.insts.len(),
            forall|k: int| 0 <= k < insts@.len() ==> (#[trigger] insts@[k])@ == block@.insts[k],
            uses@.len() == old(uses)@.len(),
            forall|k: int|
                0 <= k < block@.insts.len() ==> (#[trigger] block@.insts[k]).within(
                    uses@.len() as int,
                ),
            uses@ == counted_insts(old(uses)@, block@.insts, i as nat),
        decreases insts.len() - i,
    {
        let ghost inst = block@.insts[i as int];
        assert(inst.within(uses@.len() as int));
        assert(insts@[i as int]@ == inst);
        match &insts[i] {
            Instruction::AddInt { a, b, .. } => {
                assert(inst.uses()[0] == *a && inst.uses()[1] == *b);
                count_use(*a, uses);
                count_use(*b, uses);
            },
            Instruction::ConstantInt { .. } => {},
            Instruction::Phi { cond, a, b, .. } => {
                assert(inst.uses()[0] == *cond && inst.uses()[1] == *a && inst.uses()[2] == *b);
                count_use(*cond, uses);
                count_use(*a, uses);
                count_use(*b, uses);
            },
            Instruction::Call { args, .. } => {
                assert forall|k: int| 0 <= k < args@.len() implies (#[trigger] args@[k]).id
                    < uses@.len() by {
                    assert(inst.uses()[k] == args@[k]);
                }
                count_uses(args, uses);
            },
        }
        proof {
            let before = counted_insts(old(uses)@, block@.insts, i as nat);
            reveal_with_fuel(counted, 4);
            assert(uses@ == counted(before, inst.uses(), inst.uses().len()));
        }
        i += 1;
    }
    match block.get_exit_instruction() {
        ExitInstruction::ConditionalBranch { cond, .. } => {
            assert(block@.exit.uses()[0] == *cond);
            count_use(*cond, uses);
            proof {
                reveal_with_fuel(counted, 2);
            }
        },
        _ => {},
    }
}

/// For every variable of `function` the number of places where it is used.
pub fn count_uses_in_function(function: &Function) -> (uses: Vec<usize>)
    requires
        function@.within(),
    ensures
        uses@ == use_counts(function@),
        uses@.len() == function@.variable_count,
{
    let count = function.get_variable_count();
    let mut uses: Vec<usize> = Vec::new();
    let mut i: usize = 0;
    while i < count
        invariant
            i <= count,
            uses@ == Seq::new(i as nat, |k: int| 0usize),
        decreases count - i,
    {
        uses.push(0);
        i += 1;
        assert(uses@ =~= Seq::new(i as nat, |k: int| 0usize));
    }
    let ghost zero = uses@;
    let order = block_order(function);
    proof {
        lemma_walk(function@);
    }
    let mut j: usize = 0;
    while j < order.len()
        invariant
            j <= order.len(),
            order@ == walk(function@),
            function@.within(),
            uses@.len() == function@.variable_count,
            forall|k: int| 0 <= k < order@.len() ==> (#[trigger] order@[k]).id < function@.blocks.len(),
            uses@ == counted_blocks(zero, function@, order@, j as nat),
        decreases order.len() - j,
    {
        let block = function.get_block(order[j]);
        proof {
            let view = function@.blocks[order@[j as int].id as int];
            assert(view.within(function@.variable_count as int, function@.blocks.len() as int));
            assert forall|k: int| 0 <= k < view.exit.uses().len() implies (
            #[trigger] view.exit.uses()[k]).id < uses@.len() by {}
        }
        count_uses_in_block(block, &mut uses);
        j += 1;
    }
    proof {
        assert forall|k: int| 0 <= k < function@.returns.len() implies (
        #[trigger] function@.returns[k]).id < uses@.len() by {}
    }
    count_uses(function.get_returns(), &mut uses);
    uses
}

/// What the three values of the walk stand for.
pub open spec fn liveness(graph: Graph, live_vars: Vec<Var>, uses: Vec<usize>) -> Liveness {
    Liveness { nodes: graph.nodes(), live: live_vars@.to_set(), uses: uses@ }
}

/// Writes `var`: it gets a node in front of `graph` with the variables
/// that are alive, and is alive itself from now on.
pub fn init_var(var: Var, live_vars: &mut Vec<Var>, graph: Graph) -> (extended: Graph)
    ensures
        extended.nodes() == graph.nodes().push(
            NodeView { var, interference: old(live_vars)@.to_set() },
        ),
        final(live_vars)@.to_set() == old(live_vars)@.to_set().insert(var),
{
    let interference = copy_vars(live_vars);
    let extended = Graph::Node { var, next: Box::new(graph), interference };
    live_vars.push(var);
    proof {
        let before = old(live_vars)@;
        assert forall|x: Var| live_vars@.to_set().contains(x) <==> before.to_set().insert(
            var,
        ).contains(x) by {
            if live_vars@.to_set().contains(x) {
                let i = choose|i: int| 0 <= i < live_vars@.len() && live_vars@[i] == x;
                if i < before.len() {
                    assert(before[i] == x);
                }
            }
            if before.to_set().contains(x) {
                let i = choose|i: int| 0 <= i < before.len() && before[i] == x;
                assert(live_vars@[i] == x);
            }
            if x == var {
                assert(live_vars@[before.len() as int] == x);
            }
        }
        assert(live_vars@.to_set() =~= before.to_set().insert(var));
    }
    extended
}

/// Uses `v`: one use less is to come, and if none is, the variable is
/// alive no longer.
pub fn use_var(v: Var, live_vars: &mut Vec<Var>, uses: &mut Vec<usize>)
    requires
        v.id < old(uses)@.len(),
    ensures
        final(uses)@.len() == old(uses)@.len(),
        final(uses)@ == (Liveness {
            nodes: seq![],
            live: old(live_vars)@.to_set(),
            uses: old(uses)@,
        }).consume(v).uses,
        final(live_vars)@.to_set() == (Liveness {
            nodes: seq![],
            live: old(live_vars)@.to_set(),
            uses: old(uses)@,
        }).consume(v).live,
{
    let left = uses[v.id];
    if left == 0 {
        return ;
    }
    uses[v.id] = left - 1;
    if left - 1 == 0 {
        let ghost before = live_vars@;
        let mut i: usize = 0;
        while i < live_vars.len()
            invariant
                i <= live_vars.len(),
                forall|j: int| 0 <= j < i ==> live_vars@[j] != v,
                live_vars@.to_set().remove(v) == before.to_set().remove(v),
            decreases live_vars.len() - i,
        {
            if live_vars[i] == v {
                let ghost prior = live_vars@;
                live_vars.swap_remove(i);
                proof {
                    assert forall|x: Var| live_vars@.to_set().remove(v).contains(x)
                        <==> prior.to_set().remove(v).contains(x) by {
                        if x != v {
                            if live_vars@.to_set().contains(x) {
                                let j = choose|j: int| 0 <= j < live_vars@.len() && live_vars@[j] == x;
                                if j == i {
                                    assert(prior[prior.len() - 1] == x);
                                } else {
                                    assert(prior[j] == x);
                                }
                            }
                            if prior.to_set().contains(x) {
                                let j = choose|j: int| 0 <= j < prior.len() && prior[j] == x;
                                if j == prior.len() - 1 {
                                    assert(live_vars@[i as int] == x);
                                } else {
                                    assert(live_vars@[j] == x);
                                }
                            }
                        }
                    }
                    assert(live_vars@.to_set().remove(v) =~= prior.to_set().remove(v));
                }
            } else {
                i += 1;
            }
        }
        proof {
            assert forall|x: Var| live_vars@.to_set().contains(x) <==> live_vars@.to_set().remove(
                v,
            ).contains(x) by {
                if live_vars@.to_set().contains(x) {
                    let j = choose|j: int| 0 <= j < live_vars@.len() && live_vars@[j] == x;
                    assert(live_vars@[j] != v);
                }
            }
            assert(live_vars@.to_set() =~= before.to_set().remove(v));
        }
    }
}

/// Uses each of `vars`.
fn use_vars(vars: &Vec<Var>, live_vars: &mut Vec<Var>, uses: &mut Vec<usize>, graph: &Graph)
    requires
        forall|k: int| 0 <= k < vars@.len() ==> (#[trigger] vars@[k]).id < old(uses)@.len(),
    ensures
        final(uses)@.len() == old(uses)@.len(),
        liveness(*graph, *final(live_vars), *final(uses)) == liveness(
            *graph,
            *old(live_vars),
            *old(uses),
        ).consume_all(vars@, vars@.len()),
{
    let ghost start = liveness(*graph, *live_vars, *uses);
    let mut i: usize = 0;
    while i < vars.len()
        invariant
            i <= vars.len(),
            uses@.len() == old(uses)@.len(),
            forall|k: int| 0 <= k < vars@.len() ==> (#[trigger] vars@[k]).id < uses@.len(),
            liveness(*graph, *live_vars, *uses) == start.consume_all(vars@, i as nat),
        decreases vars.len() - i,
    {
        use_var(vars[i], live_vars, uses);
        i += 1;
    }
}

/// Walks through `block`: every variable that is written gets a node in
/// front of `graph`, and every use brings a variable closer to its end.
pub fn calculate_interference(
    block: &Block,
    graph: Graph,
    live_vars: &mut Vec<Var>,
    uses: &mut Vec<usize>,
) -> (extended: Graph)
    requires
        forall|i: int|
            0 <= i < block@.insts.len() ==> (#[trigger] block@.insts[i]).within(
                old(uses)@.len() as int,
            ),
        forall|k: int|
            0 <= k < block@.exit.uses().len() ==> (#[trigger] block@.exit.uses()[k]).id < old(
                uses,
            )@.len(),
    ensures
        final(uses)@.len() == old(uses)@.len(),
        liveness(extended, *final(live_vars), *final(uses)) == liveness(
            graph,
            *old(live_vars),
            *old(uses),
        ).block(block@),
{
    let ghost start = liveness(graph, *live_vars, *uses);
    let mut graph = graph;
    let insts = block.get_instructions();
    let mut i: usize = 0;
    while i < insts.len()
        invariant
            i <= insts.len(),
            insts@.len() == block@.insts.len(),
            forall|k: int| 0 <= k < insts@.len() ==> (#[trigger] insts@[k])@ == block@.insts[k],
            uses@.len() == old(uses)@.len(),
            forall|k: int|
                0 <= k < block@.insts.len() ==> (#[trigger] block@.insts[k]).within(
                    uses@.len() as int,
                ),
            liveness(graph, *live_vars, *uses) == start.steps(block@.insts, i as nat),
        decreases insts.len() - i,
    {
        let ghost inst = block@.insts[i as int];
        let ghost before = liveness(graph, *live_vars, *uses);
        assert(inst.within(uses@.len() as int));
        assert(insts@[i as int]@ == inst);
        match &insts[i] {
            Instruction::AddInt { dest, a, b } => {
                assert(inst.uses()[0] == *a && inst.uses()[1] == *b);
                graph = init_var(*dest, live_vars, graph);
                use_var(*a, live_vars, uses);
                use_var(*b, live_vars, uses);
            },
            Instruction::ConstantInt { dest, .. } => {
                graph = init_var(*dest, live_vars, graph);
            },
            Instruction::Phi { dest, cond, a, b } => {
                assert(inst.uses()[0] == *cond && inst.uses()[1] == *a && inst.uses()[2] == *b);
                graph = init_var(*dest, live_vars, graph);
                use_var(*a, live_vars, uses);
                use_var(*b, live_vars, uses);
                use_var(*cond, live_vars, uses);
            },
            Instruction::Call { args, returns: dests, .. } => {
                assert forall|k: int| 0 <= k < args@.len() implies (#[trigger] args@[k]).id
                    < uses@.len() by {
                    assert(inst.uses()[k] == args@[k]);
                }
                use_vars(args, live_vars, uses, &graph);
                let ghost used = liveness(graph, *live_vars, *uses);
                let mut j: usize = 0;
                while j < dests.len()
                    invariant
                        j <= dests.len(),
                        liveness(graph, *live_vars, *uses) == used.define_all(dests@, j as nat),
                    decreases dests.len() - j,
                {
                    graph = init_var(dests[j], live_vars, graph);
                    j += 1;
                }
            },
        }
        assert(liveness(graph, *live_vars, *uses) == before.step(inst));
        i += 1;
    }
    match block.get_exit_instruction() {
        ExitInstruction::ConditionalBranch { cond, .. } => {
            assert(block@.exit.uses()[0] == *cond);
            use_var(*cond, live_vars, uses);
        },
        _ => {},
    }
    graph
}

/// The interference graph of `function`: one node for every place where a
/// variable is written, with the variables that are alive there.
pub fn build_interference_graph(function: &Function) -> (graph: Graph)
    requires
        function@.within(),
    ensures
        graph.nodes() == interference(function@),
{
    let mut uses = count_uses_in_function(function);
    let order = block_order(function);
    let mut graph = Graph::Empty;
    let mut live_vars: Vec<Var> = Vec::new();
    proof {
        lemma_walk(function@);
        assert(live_vars@.to_set() =~= Set::<Var>::empty());
    }
    let ghost start = liveness(graph, live_vars, uses);
    let mut j: usize = 0;
    while j < order.len()
        invariant
            j <= order.len(),
            order@ == walk(function@),
            function@.within(),
            uses@.len() == function@.variable_count,
            forall|k: int| 0 <= k < order@.len() ==> (#[trigger] order@[k]).id < function@.blocks.len(),
            liveness(graph, live_vars, uses) == start.blocks(function@, order@, j as nat),
        decreases order.len() - j,
    {
        let block = function.get_block(order[j]);
        proof {
            let view = function@.blocks[order@[j as int].id as int];
            assert(view.within(function@.variable_count as int, function@.blocks.len() as int));
            assert forall|k: int| 0 <= k < view.exit.uses().len() implies (
            #[trigger] view.exit.uses()[k]).id < uses@.len() by {}
        }
        graph = calculate_interference(block, graph, &mut live_vars, &mut uses);
        j += 1;
    }
    graph
}

/// The interference graph of every function of `program`.
pub fn interference_graphs(program: &Program) -> (graphs: Vec<Graph>)
    requires
        forall|f: int| 0 <= f < program@.functions.len() ==> (#[trigger] program@.functions[f]).within(),
    ensures
        graphs@.len() == program@.functions.len(),
        forall|f: int|
            0 <= f < graphs@.len() ==> (#[trigger] graphs@[f]).nodes() == interference(
                program@.functions[f],
            ),
{
    let functions = program.get_functions();
    let mut graphs: Vec<Graph> = Vec::new();
    let mut i: usize = 0;
    while i < functions.len()
        invariant
            i <= functions.len(),
            functions@.len() == program@.functions.len(),
            forall|f: int|
                0 <= f < functions@.len() ==> (#[trigger] functions@[f])@ == program@.functions[f],
            forall|f: int|
                0 <= f < program@.functions.len() ==> (#[trigger] program@.functions[f]).within(),
            graphs@.len() == i,
            forall|f: int|
                0 <= f < i ==> (#[trigger] graphs@[f]).nodes() == interference(
                    program@.functions[f],
                ),
        decreases functions.len() - i,
    {
        assert(program@.functions[i as int].within());
        graphs.push(build_interference_graph(&functions[i]));
        i += 1;
    }
    graphs
}

} // verus!

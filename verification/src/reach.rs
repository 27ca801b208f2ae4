//! Which blocks of a function can be reached, and that the walk over the
//! blocks comes to exactly these.

use crate::ir::{BlockId, ExitInstruction, FunctionView, ProgramView, Var};
use crate::register_allocator::{searched, walk};
use vstd::prelude::*;

verus! {

/// Whether the exit of block `u` names block `v`, both being blocks of the
/// function.
pub open spec fn leads(function: FunctionView, u: int, v: int) -> bool {
    &&& 0 <= u < function.blocks.len()
    &&& 0 <= v < function.blocks.len()
    &&& match function.blocks[u].exit {
        ExitInstruction::Return => false,
        ExitInstruction::Branch { block } => block.id == v,
        ExitInstruction::ConditionalBranch { block1, block2, .. } => block1.id == v || block2.id
            == v,
    }
}

/// Whether `path` is a way through the function from exit to exit.
pub open spec fn is_path(function: FunctionView, path: Seq<int>) -> bool {
    &&& path.len() > 0
    &&& 0 <= path[0] < function.blocks.len()
    &&& forall|i: int| 0 <= i < path.len() - 1 ==> leads(function, #[trigger] path[i], path[i + 1])
}

/// Whether there is a way from block `from` to block `to`.
pub open spec fn reachable(function: FunctionView, from: int, to: int) -> bool {
    exists|path: Seq<int>| is_path(function, path) && path[0] == from && path.last() == to
}

/// Whether every variable is written where its uses can be reached from:
/// wherever an instruction or an exit reads a variable, there is a way to its
/// block from every block that writes the variable.
pub open spec fn defs_reach_uses(function: FunctionView) -> bool {
    &&& forall|b: int, i: int, j: int, d: int, i2: int, k: int|
        #![trigger function.blocks[b].insts[i].uses()[j], function.is_site(d, i2, k)]
        0 <= b < function.blocks.len() && 0 <= i < function.blocks[b].insts.len() && 0 <= j
            < function.blocks[b].insts[i].uses().len() && function.is_site(d, i2, k)
            && function.blocks[b].insts[i].uses()[j] == function.def_at(d, i2, k) ==> reachable(
            function,
            d,
            b,
        )
    &&& forall|b: int, j: int, d: int, i2: int, k: int|
        #![trigger function.blocks[b].exit.uses()[j], function.is_site(d, i2, k)]
        0 <= b < function.blocks.len() && 0 <= j < function.blocks[b].exit.uses().len()
            && function.is_site(d, i2, k) && function.blocks[b].exit.uses()[j] == function.def_at(
            d,
            i2,
            k,
        ) ==> reachable(function, d, b)
}

/// Whether in every function of the program every variable is written
/// where its uses can be reached from.
pub open spec fn flowing(program: ProgramView) -> bool {
    forall|f: int| 0 <= f < program.functions.len() ==> defs_reach_uses(#[trigger] program.functions[f])
}

/// Whether no way through the function comes back to where it started:
/// no exit names a block from which there is a way back to its own block.
pub open spec fn acyclic(function: FunctionView) -> bool {
    forall|u: int, v: int| #[trigger] leads(function, u, v) ==> !reachable(function, v, u)
}

/// Whether no way through any function of the program comes back to where
/// it started.
pub open spec fn loop_free(program: ProgramView) -> bool {
    forall|f: int| 0 <= f < program.functions.len() ==> acyclic(#[trigger] program.functions[f])
}

/// Whether the numbers `rank` put the blocks of a function that is being
/// built, with the cursor `c`, in an order that every exit follows: every
/// closed block comes before the cursor, and before every closed block that
/// its exit names.
pub open spec fn ranks(function: FunctionView, c: int, rank: Seq<int>) -> bool {
    &&& rank.len() == function.blocks.len()
    &&& forall|u: int|
        0 <= u < function.blocks.len() && (#[trigger] function.blocks[u]).committed ==> rank[u]
            < rank[c]
    &&& forall|u: int, v: int|
        function.blocks[u].committed && function.blocks[v].committed && #[trigger] leads(
            function,
            u,
            v,
        ) ==> rank[u] < rank[v]
}

/// Whether the blocks of a function that is being built can be put in an
/// order that every exit follows.
pub open spec fn ranked(function: FunctionView, c: int) -> bool {
    exists|rank: Seq<int>| ranks(function, c, rank)
}

/// Along a way between closed blocks whose exits follow an order, the
/// blocks do not come earlier in the order.
proof fn lemma_rank_along(function: FunctionView, rank: Seq<int>, path: Seq<int>, i: int)
    requires
        rank.len() == function.blocks.len(),
        forall|u: int| 0 <= u < function.blocks.len() ==> (#[trigger] function.blocks[u]).committed,
        forall|u: int, v: int| #[trigger] leads(function, u, v) ==> rank[u] < rank[v],
        is_path(function, path),
        0 <= i < path.len(),
    ensures
        rank[path[0]] <= rank[path[i]],
        i > 0 ==> rank[path[0]] < rank[path[i]],
    decreases i,
{
    if i > 0 {
        lemma_rank_along(function, rank, path, i - 1);
        assert(leads(function, path[i - 1], path[i - 1 + 1]));
    }
}

/// A function whose blocks are all closed and can be put in an order that
/// every exit follows has no way that comes back to where it started.
pub proof fn lemma_ranked_acyclic(function: FunctionView, c: int, rank: Seq<int>)
    requires
        rank.len() == function.blocks.len(),
        forall|u: int| 0 <= u < function.blocks.len() ==> (#[trigger] function.blocks[u]).committed,
        forall|u: int, v: int|
            function.blocks[u].committed && function.blocks[v].committed && #[trigger] leads(
                function,
                u,
                v,
            ) ==> rank[u] < rank[v],
    ensures
        acyclic(function),
{
    assert forall|u: int, v: int| #[trigger] leads(function, u, v) implies !reachable(
        function,
        v,
        u,
    ) by {
        if reachable(function, v, u) {
            let path = choose|path: Seq<int>|
                is_path(function, path) && path[0] == v && path.last() == u;
            assert forall|a: int, b: int| #[trigger] leads(function, a, b) implies rank[a]
                < rank[b] by {
                assert(function.blocks[a].committed);
                assert(function.blocks[b].committed);
            }
            lemma_rank_along(function, rank, path, path.len() - 1);
        }
    }
}

/// Whether there is a way to block `c` from every block that is closed.
pub open spec fn closed_reach(function: FunctionView, c: int) -> bool {
    forall|u: int|
        0 <= u < function.blocks.len() && (#[trigger] function.blocks[u]).committed ==> reachable(
            function,
            u,
            c,
        )
}

/// Whether the exit names block `v`.
pub open spec fn names(exit: ExitInstruction, v: int) -> bool {
    match exit {
        ExitInstruction::Return => false,
        ExitInstruction::Branch { block } => block.id == v,
        ExitInstruction::ConditionalBranch { block1, block2, .. } => block1.id == v || block2.id
            == v,
    }
}

/// A way in a function is a way in every function that has the same exits
/// and more.
pub proof fn lemma_reachable_kept(function: FunctionView, other: FunctionView, a: int, b: int)
    requires
        reachable(function, a, b),
        function.blocks.len() <= other.blocks.len(),
        forall|u: int, v: int| #[trigger] leads(function, u, v) ==> leads(other, u, v),
    ensures
        reachable(other, a, b),
{
    let path = choose|path: Seq<int>| is_path(function, path) && path[0] == a && path.last() == b;
    assert forall|i: int| 0 <= i < path.len() - 1 implies leads(
        other,
        #[trigger] path[i],
        path[i + 1],
    ) by {
        assert(leads(function, path[i], path[i + 1]));
    }
    assert(is_path(other, path) && path[0] == a && path.last() == b);
}

/// Whether block `b` reads the variable `v`, in an instruction or in its
/// exit.
pub open spec fn reads(function: FunctionView, b: int, v: Var) -> bool {
    &&& 0 <= b < function.blocks.len()
    &&& {
        ||| exists|i: int, j: int|
            0 <= i < function.blocks[b].insts.len() && 0 <= j
                < function.blocks[b].insts[i].uses().len()
                && #[trigger] function.blocks[b].insts[i].uses()[j] == v
        ||| exists|j: int|
            0 <= j < function.blocks[b].exit.uses().len()
                && #[trigger] function.blocks[b].exit.uses()[j] == v
    }
}

/// Whether an instruction of block `b` writes the variable `v`.
pub open spec fn writes(function: FunctionView, b: int, v: Var) -> bool {
    exists|i: int, k: int| #[trigger] function.is_site(b, i, k) && function.def_at(b, i, k) == v
}

/// Every step of a way is a way from there to each later step.
proof fn lemma_way_between(function: FunctionView, path: Seq<int>, p: int, q: int)
    requires
        is_path(function, path),
        0 <= p <= q < path.len(),
    ensures
        reachable(function, path[p], path[q]),
    decreases q - p,
{
    if p == 0 {
        assert(0 <= path[0] < function.blocks.len());
    } else {
        assert(leads(function, path[p - 1], path[p - 1 + 1]));
    }
    if p == q {
        lemma_reachable_self(function, path[p]);
    } else {
        lemma_way_between(function, path, p, q - 1);
        assert(leads(function, path[q - 1], path[q - 1 + 1]));
        lemma_reachable_step(function, path[p], path[q - 1], path[q]);
    }
}

/// Where no way comes back to where it started, and every variable is
/// written where its uses can be reached from, no way passes a block that
/// reads a variable and comes to a block that writes it afterwards: on every
/// way a variable is written, if at all, in the block that reads it or
/// before.
pub proof fn lemma_no_write_behind_read(
    function: FunctionView,
    path: Seq<int>,
    p: int,
    q: int,
    v: Var,
)
    requires
        acyclic(function),
        defs_reach_uses(function),
        is_path(function, path),
        0 <= p < q < path.len(),
        reads(function, path[p], v),
    ensures
        !writes(function, path[q], v),
{
    if writes(function, path[q], v) {
        let b = path[p];
        let d = path[q];
        let (i2, k) = choose|i2: int, k: int| #[trigger]
            function.is_site(d, i2, k) && function.def_at(d, i2, k) == v;
        if exists|i: int, j: int|
            0 <= i < function.blocks[b].insts.len() && 0 <= j
                < function.blocks[b].insts[i].uses().len()
                && #[trigger] function.blocks[b].insts[i].uses()[j] == v {
            let (i, j) = choose|i: int, j: int|
                0 <= i < function.blocks[b].insts.len() && 0 <= j
                    < function.blocks[b].insts[i].uses().len()
                    && #[trigger] function.blocks[b].insts[i].uses()[j] == v;
            assert(function.blocks[b].insts[i].uses()[j] == function.def_at(d, i2, k));
        } else {
            let j = choose|j: int|
                0 <= j < function.blocks[b].exit.uses().len()
                    && #[trigger] function.blocks[b].exit.uses()[j] == v;
            assert(function.blocks[b].exit.uses()[j] == function.def_at(d, i2, k));
        }
        assert(reachable(function, d, b));
        assert(leads(function, path[p], path[p + 1]));
        lemma_way_between(function, path, p + 1, q);
        lemma_reachable_chain(function, path[p + 1], d, b);
    }
}

/// How many of the marks are not set.
pub open spec fn unseen(seen: Seq<bool>) -> nat
    decreases seen.len(),
{
    if seen.len() == 0 {
        0
    } else {
        unseen(seen.drop_last()) + if seen.last() {
            0nat
        } else {
            1nat
        }
    }
}

/// Setting a mark that was not set leaves one unset mark less; setting
/// further marks leaves no more unset marks.
pub proof fn lemma_unseen(seen: Seq<bool>, later: Seq<bool>)
    requires
        seen.len() == later.len(),
        forall|i: int| 0 <= i < seen.len() && seen[i] ==> later[i],
    ensures
        unseen(later) <= unseen(seen),
        forall|i: int| 0 <= i < seen.len() && !seen[i] && later[i] ==> unseen(later) < unseen(seen),
    decreases seen.len(),
{
    if seen.len() > 0 {
        lemma_unseen(seen.drop_last(), later.drop_last());
        assert forall|i: int| 0 <= i < seen.len() && !seen[i] && later[i] implies unseen(later)
            < unseen(seen) by {
            if i < seen.len() - 1 {
                assert(seen.drop_last()[i] == seen[i]);
                assert(later.drop_last()[i] == later[i]);
            }
        }
    }
}

/// A way can be continued by one exit.
pub proof fn lemma_reachable_step(function: FunctionView, from: int, u: int, v: int)
    requires
        reachable(function, from, u),
        leads(function, u, v),
    ensures
        reachable(function, from, v),
{
    let path = choose|path: Seq<int>| is_path(function, path) && path[0] == from && path.last() == u;
    let longer = path.push(v);
    assert forall|i: int| 0 <= i < longer.len() - 1 implies leads(
        function,
        #[trigger] longer[i],
        longer[i + 1],
    ) by {
        if i < path.len() - 1 {
            assert(leads(function, path[i], path[i + 1]));
        }
    }
    assert(is_path(function, longer) && longer[0] == from && longer.last() == v);
}

/// Every block can be reached from itself.
pub proof fn lemma_reachable_self(function: FunctionView, b: int)
    requires
        0 <= b < function.blocks.len(),
    ensures
        reachable(function, b, b),
{
    let path = seq![b];
    assert(is_path(function, path) && path[0] == b && path.last() == b);
}

/// Two ways, one after the other, are a way.
pub proof fn lemma_reachable_chain(function: FunctionView, a: int, b: int, c: int)
    requires
        reachable(function, a, b),
        reachable(function, b, c),
    ensures
        reachable(function, a, c),
{
    let second = choose|path: Seq<int>| is_path(function, path) && path[0] == b && path.last() == c;
    lemma_reachable_along(function, a, second, second.len() - 1);
}

/// What can be reached is reached at every step of a way that starts from
/// it.
proof fn lemma_reachable_along(function: FunctionView, a: int, path: Seq<int>, i: int)
    requires
        is_path(function, path),
        reachable(function, a, path[0]),
        0 <= i < path.len(),
    ensures
        reachable(function, a, path[i]),
    decreases i,
{
    if i > 0 {
        lemma_reachable_along(function, a, path, i - 1);
        assert(leads(function, path[i - 1], path[i - 1 + 1]));
        lemma_reachable_step(function, a, path[i - 1], path[i]);
    }
}

/// What a search has done when it is over. No mark was taken back, and
/// what was appended are exactly the blocks that are marked now and were not
/// before, each once, and each on a way from the block of the search. Every
/// exit of a block that was marked by the search names a block that is
/// marked.
pub open spec fn search_done(
    function: FunctionView,
    b: int,
    seen: Seq<bool>,
    post: Seq<BlockId>,
    after: (Seq<bool>, Seq<BlockId>),
) -> bool {
    let (seen2, post2) = after;
    &&& seen2.len() == seen.len()
    &&& forall|i: int| 0 <= i < seen.len() && seen[i] ==> #[trigger] seen2[i]
    &&& post.is_prefix_of(post2)
    &&& forall|k: int|
        post.len() <= k < post2.len() ==> {
            &&& 0 <= (#[trigger] post2[k]).id < seen.len()
            &&& !seen[post2[k].id as int]
            &&& seen2[post2[k].id as int]
            &&& reachable(function, b, post2[k].id as int)
        }
    &&& forall|k: int, l: int|
        #![trigger post2[k], post2[l]]
        post.len() <= k < l < post2.len() ==> post2[k] != post2[l]
    &&& forall|i: int|
        0 <= i < seen.len() && !seen[i] && seen2[i] ==> exists|k: int|
            post.len() <= k < post2.len() && (#[trigger] post2[k]).id == i
    &&& forall|u: int, v: int|
        0 <= u < seen.len() && !seen[u] && seen2[u] && #[trigger] leads(function, u, v)
            ==> seen2[v]
    &&& 0 <= b < seen.len() ==> seen2[b]
    &&& forall|ku: int, v: int|
        post.len() <= ku < post2.len() && #[trigger] leads(function, post2[ku].id as int, v)
            ==> left_before(post2, v, ku) || reachable(function, v, post2[ku].id as int)
}

/// Whether block `v` is among the first `k` blocks of `post`.
pub open spec fn left_before(post: Seq<BlockId>, v: int, k: int) -> bool {
    exists|kv: int| 0 <= kv < k && kv < post.len() && (#[trigger] post[kv]).id == v
}

/// Whether the blocks that are marked but not yet left, which are the
/// blocks whose search is going on, all lead to block `b`.
pub open spec fn entered_lead_to(
    function: FunctionView,
    seen: Seq<bool>,
    post: Seq<BlockId>,
    b: int,
) -> bool {
    forall|a: int|
        0 <= a < seen.len() && #[trigger] seen[a] && !left_before(post, a, post.len() as int)
            ==> reachable(function, a, b)
}

/// A search that may go as deep as there are unmarked blocks does what
/// `search_done` says.
pub proof fn lemma_search(
    function: FunctionView,
    b: int,
    seen: Seq<bool>,
    post: Seq<BlockId>,
    depth: nat,
)
    requires
        seen.len() == function.blocks.len(),
        function.blocks.len() <= usize::MAX,
        unseen(seen) <= depth,
        0 <= b < seen.len() ==> entered_lead_to(function, seen, post, b),
    ensures
        search_done(function, b, seen, post, searched(function, b, seen, post, depth)),
    decreases depth,
{
    let n = function.blocks.len() as int;
    if b < 0 || b >= n || seen[b] {
    } else {
        let marked = seen.update(b, true);
        lemma_unseen(seen, marked);
        assert(marked[b] && !seen[b]);
        assert(depth > 0);
        let me = BlockId { id: b as usize };
        lemma_reachable_self(function, b);
        match function.blocks[b].exit {
            ExitInstruction::Return => {
                let after = (marked, post.push(me));
                assert(search_done(function, b, seen, post, after)) by {
                    assert(after.1[post.len() as int] == me);
                    assert forall|i: int|
                        0 <= i < seen.len() && !seen[i] && after.0[i] implies exists|k: int|
                        post.len() <= k < after.1.len() && (#[trigger] after.1[k]).id == i by {
                        assert(i == b);
                        assert(after.1[post.len() as int].id == i);
                    }
                }
            },
            ExitInstruction::Branch { block } => {
                let t = block.id as int;
                if 0 <= t < seen.len() {
                    lemma_entered(function, seen, post, b, t, marked, post);
                }
                lemma_search(function, t, marked, post, (depth - 1) as nat);
                let inner = searched(function, t, marked, post, (depth - 1) as nat);
                let after = (inner.0, inner.1.push(me));
                lemma_search_root(function, b, seen, post, inner, seq![t]);
            },
            ExitInstruction::ConditionalBranch { block1, block2, .. } => {
                let t1 = block1.id as int;
                let t2 = block2.id as int;
                if 0 <= t1 < seen.len() {
                    lemma_entered(function, seen, post, b, t1, marked, post);
                }
                lemma_search(function, t1, marked, post, (depth - 1) as nat);
                let first = searched(function, t1, marked, post, (depth - 1) as nat);
                lemma_unseen(marked, first.0);
                if 0 <= t2 < seen.len() {
                    lemma_entered(function, seen, post, b, t2, first.0, first.1);
                }
                lemma_search(function, t2, first.0, first.1, (depth - 1) as nat);
                let second = searched(function, t2, first.0, first.1, (depth - 1) as nat);
                assert(search_done(function, t1, marked, post, first));
                assert(search_done(function, t2, first.0, first.1, second));
                lemma_search_two(function, b, t1, t2, seen, post, first, second);
            },
        }
    }
}

/// The search of a block with one exit, put together from the search of
/// the block that the exit names.
proof fn lemma_search_root(
    function: FunctionView,
    b: int,
    seen: Seq<bool>,
    post: Seq<BlockId>,
    inner: (Seq<bool>, Seq<BlockId>),
    targets: Seq<int>,
)
    requires
        seen.len() == function.blocks.len(),
        function.blocks.len() <= usize::MAX,
        0 <= b < seen.len(),
        !seen[b],
        targets.len() == 1,
        function.blocks[b].exit == (ExitInstruction::Branch {
            block: BlockId { id: targets[0] as usize },
        }),
        0 <= targets[0] <= usize::MAX,
        entered_lead_to(function, seen, post, b),
        search_done(function, targets[0], seen.update(b, true), post, inner),
    ensures
        search_done(
            function,
            b,
            seen,
            post,
            (inner.0, inner.1.push(BlockId { id: b as usize })),
        ),
{
    let t = targets[0];
    let marked = seen.update(b, true);
    let me = BlockId { id: b as usize };
    let after = (inner.0, inner.1.push(me));
    let (seen2, post2) = after;
    lemma_reachable_self(function, b);
    assert forall|k: int| post.len() <= k < post2.len() implies {
        &&& 0 <= (#[trigger] post2[k]).id < seen.len()
        &&& !seen[post2[k].id as int]
        &&& seen2[post2[k].id as int]
        &&& reachable(function, b, post2[k].id as int)
    } by {
        if k < inner.1.len() {
            assert(post2[k] == inner.1[k]);
            assert(reachable(function, t, inner.1[k].id as int));
            let path = choose|path: Seq<int>|
                is_path(function, path) && path[0] == t && path.last() == inner.1[k].id as int;
            assert(leads(function, b, t));
            lemma_reachable_step(function, b, b, t);
            lemma_reachable_chain(function, b, t, inner.1[k].id as int);
        }
    }
    assert forall|k: int, l: int|
        #![trigger post2[k], post2[l]]
        post.len() <= k < l < post2.len() implies post2[k] != post2[l] by {
        if l < inner.1.len() {
            assert(inner.1[k] != inner.1[l]);
        } else {
            assert(post2[k] == inner.1[k]);
            assert(!marked[inner.1[k].id as int]);
        }
    }
    assert forall|i: int| 0 <= i < seen.len() && !seen[i] && seen2[i] implies exists|k: int|
        post.len() <= k < post2.len() && (#[trigger] post2[k]).id == i by {
        if i == b {
            assert(post2[inner.1.len() as int].id == i);
        } else {
            let k = choose|k: int| post.len() <= k < inner.1.len() && (#[trigger] inner.1[k]).id == i;
            assert(post2[k].id == i);
        }
    }
    assert forall|u: int, v: int|
        0 <= u < seen.len() && !seen[u] && seen2[u] && #[trigger] leads(
            function,
            u,
            v,
        ) implies seen2[v] by {
        if u == b {
            assert(v == t);
        }
    }
    assert forall|ku: int, v: int|
        post.len() <= ku < post2.len() && #[trigger] leads(
            function,
            post2[ku].id as int,
            v,
        ) implies left_before(post2, v, ku) || reachable(function, v, post2[ku].id as int) by {
        if ku < inner.1.len() {
            assert(post2[ku] == inner.1[ku]);
            if left_before(inner.1, v, ku) {
                let kv = choose|kv: int|
                    0 <= kv < ku && kv < inner.1.len() && (#[trigger] inner.1[kv]).id == v;
                assert(post2[kv] == inner.1[kv]);
            }
        } else {
            assert(v == t);
            lemma_left_or_leads(function, seen, post, b, t, inner);
        }
    }
}

/// A block that is marked behind the search of a block that `b` leads to
/// was left by then, or its search is going on and it leads to `b`.
proof fn lemma_left_or_leads(
    function: FunctionView,
    seen: Seq<bool>,
    post: Seq<BlockId>,
    b: int,
    t: int,
    inner: (Seq<bool>, Seq<BlockId>),
)
    requires
        0 <= b < seen.len(),
        0 <= t < seen.len(),
        !seen[b],
        seen.len() == function.blocks.len(),
        entered_lead_to(function, seen, post, b),
        inner.0.len() == seen.len(),
        inner.0[t],
        post.is_prefix_of(inner.1),
        forall|i: int|
            0 <= i < seen.len() && !seen.update(b, true)[i] && inner.0[i] ==> exists|k: int|
                post.len() <= k < inner.1.len() && (#[trigger] inner.1[k]).id == i,
        forall|i: int|
            0 <= i < seen.len() && !seen[i] && i != b && !inner.0[i] ==> i != t,
    ensures
        left_before(inner.1.push(BlockId { id: b as usize }), t, inner.1.len() as int) || reachable(
            function,
            t,
            b,
        ),
{
    let post2 = inner.1.push(BlockId { id: b as usize });
    let marked = seen.update(b, true);
    if t == b {
        lemma_reachable_self(function, b);
    } else if !seen[t] {
        assert(!marked[t]);
        let k = choose|k: int| post.len() <= k < inner.1.len() && (#[trigger] inner.1[k]).id == t;
        assert(post2[k] == inner.1[k]);
    } else if left_before(post, t, post.len() as int) {
        let k = choose|k: int| 0 <= k < post.len() && k < post.len() && (#[trigger] post[k]).id == t;
        assert(post2[k] == post[k]);
    } else {
        assert(seen[t]);
    }
}

/// The blocks whose search is going on when the search of a block that `b`
/// leads to begins all lead to that block: they led to `b`, and `b` is one of
/// them now.
proof fn lemma_entered(
    function: FunctionView,
    seen: Seq<bool>,
    post: Seq<BlockId>,
    b: int,
    t: int,
    now: Seq<bool>,
    left: Seq<BlockId>,
)
    requires
        0 <= b < seen.len(),
        seen.len() == function.blocks.len(),
        !seen[b],
        leads(function, b, t),
        entered_lead_to(function, seen, post, b),
        now.len() == seen.len(),
        post.is_prefix_of(left),
        forall|i: int|
            0 <= i < seen.len() && #[trigger] now[i] && !seen[i] && i != b ==> left_before(
                left,
                i,
                left.len() as int,
            ),
    ensures
        entered_lead_to(function, now, left, t),
{
    lemma_reachable_self(function, b);
    lemma_reachable_step(function, b, b, t);
    assert forall|a: int|
        0 <= a < now.len() && #[trigger] now[a] && !left_before(
            left,
            a,
            left.len() as int,
        ) implies reachable(function, a, t) by {
        if a == b {
        } else {
            assert(seen[a]);
            if left_before(post, a, post.len() as int) {
                let k = choose|k: int|
                    0 <= k < post.len() && k < post.len() && (#[trigger] post[k]).id == a;
                assert(left[k] == post[k]);
                assert(left_before(left, a, left.len() as int));
            }
            assert(reachable(function, a, b));
            lemma_reachable_step(function, a, b, t);
        }
    }
}

/// The search of a block with two exits, put together from the searches of
/// the blocks that the exit names.
proof fn lemma_search_two(
    function: FunctionView,
    b: int,
    t1: int,
    t2: int,
    seen: Seq<bool>,
    post: Seq<BlockId>,
    first: (Seq<bool>, Seq<BlockId>),
    second: (Seq<bool>, Seq<BlockId>),
)
    requires
        seen.len() == function.blocks.len(),
        function.blocks.len() <= usize::MAX,
        0 <= b < seen.len(),
        !seen[b],
        function.blocks[b].exit matches ExitInstruction::ConditionalBranch { block1, block2, .. }
            && block1.id == t1 && block2.id == t2,
        entered_lead_to(function, seen, post, b),
        search_done(function, t1, seen.update(b, true), post, first),
        search_done(function, t2, first.0, first.1, second),
    ensures
        search_done(
            function,
            b,
            seen,
            post,
            (second.0, second.1.push(BlockId { id: b as usize })),
        ),
{
    let marked = seen.update(b, true);
    let me = BlockId { id: b as usize };
    let after = (second.0, second.1.push(me));
    let (seen2, post2) = after;
    lemma_reachable_self(function, b);
    assert forall|i: int| 0 <= i < seen.len() && seen[i] implies #[trigger] seen2[i] by {
        assert(marked[i]);
        assert(first.0[i]);
    }
    assert forall|k: int| post.len() <= k < post2.len() implies {
        &&& 0 <= (#[trigger] post2[k]).id < seen.len()
        &&& !seen[post2[k].id as int]
        &&& seen2[post2[k].id as int]
        &&& reachable(function, b, post2[k].id as int)
    } by {
        if k < first.1.len() {
            assert(post2[k] == first.1[k]);
            assert(first.0[first.1[k].id as int]);
            assert(leads(function, b, t1));
            lemma_reachable_step(function, b, b, t1);
            lemma_reachable_chain(function, b, t1, first.1[k].id as int);
        } else if k < second.1.len() {
            assert(post2[k] == second.1[k]);
            assert(!first.0[second.1[k].id as int]);
            assert(!marked[second.1[k].id as int]);
            assert(leads(function, b, t2));
            lemma_reachable_step(function, b, b, t2);
            lemma_reachable_chain(function, b, t2, second.1[k].id as int);
        } else {
            assert(marked[b]);
            assert(first.0[b]);
        }
    }
    assert forall|k: int, l: int|
        #![trigger post2[k], post2[l]]
        post.len() <= k < l < post2.len() implies post2[k] != post2[l] by {
        if l < first.1.len() {
            assert(second.1[k] == first.1[k] && second.1[l] == first.1[l]);
            assert(first.1[k] != first.1[l]);
        } else if l < second.1.len() {
            if k < first.1.len() {
                assert(second.1[k] == first.1[k]);
                assert(first.0[first.1[k].id as int]);
                assert(!first.0[second.1[l].id as int]);
            } else {
                assert(second.1[k] != second.1[l]);
            }
        } else {
            if k < first.1.len() {
                assert(post2[k] == first.1[k]);
                assert(!marked[first.1[k].id as int]);
            } else {
                assert(post2[k] == second.1[k]);
                assert(!first.0[second.1[k].id as int]);
                assert(marked[b]);
                assert(first.0[b]);
            }
        }
    }
    assert forall|i: int| 0 <= i < seen.len() && !seen[i] && seen2[i] implies exists|k: int|
        post.len() <= k < post2.len() && (#[trigger] post2[k]).id == i by {
        if i == b {
            assert(post2[second.1.len() as int].id == i);
        } else if first.0[i] {
            let k = choose|k: int| post.len() <= k < first.1.len() && (#[trigger] first.1[k]).id == i;
            assert(post2[k] == first.1[k]);
        } else {
            let k = choose|k: int|
                first.1.len() <= k < second.1.len() && (#[trigger] second.1[k]).id == i;
            assert(post2[k] == second.1[k]);
        }
    }
    assert forall|u: int, v: int|
        0 <= u < seen.len() && !seen[u] && seen2[u] && #[trigger] leads(
            function,
            u,
            v,
        ) implies seen2[v] by {
        if u == b {
            assert(v == t1 || v == t2);
            if v == t1 {
                assert(first.0[t1]);
            }
        } else if first.0[u] {
            assert(!marked[u]);
            assert(first.0[v]);
        } else {
        }
    }
    assert forall|ku: int, v: int|
        post.len() <= ku < post2.len() && #[trigger] leads(
            function,
            post2[ku].id as int,
            v,
        ) implies left_before(post2, v, ku) || reachable(function, v, post2[ku].id as int) by {
        if ku < first.1.len() {
            assert(post2[ku] == first.1[ku]);
            if left_before(first.1, v, ku) {
                let kv = choose|kv: int|
                    0 <= kv < ku && kv < first.1.len() && (#[trigger] first.1[kv]).id == v;
                assert(post2[kv] == first.1[kv]);
            }
        } else if ku < second.1.len() {
            assert(post2[ku] == second.1[ku]);
            if left_before(second.1, v, ku) {
                let kv = choose|kv: int|
                    0 <= kv < ku && kv < second.1.len() && (#[trigger] second.1[kv]).id == v;
                assert(post2[kv] == second.1[kv]);
            }
        } else {
            assert(v == t1 || v == t2);
            if v == b {
                lemma_reachable_self(function, b);
            } else if !seen[v] {
                assert(second.0[v]);
                if first.0[v] {
                    assert(!marked[v]);
                    let k = choose|k: int|
                        post.len() <= k < first.1.len() && (#[trigger] first.1[k]).id == v;
                    assert(post2[k] == first.1[k]);
                } else {
                    let k = choose|k: int|
                        first.1.len() <= k < second.1.len() && (#[trigger] second.1[k]).id == v;
                    assert(post2[k] == second.1[k]);
                }
            } else if left_before(post, v, post.len() as int) {
                let k = choose|k: int|
                    0 <= k < post.len() && k < post.len() && (#[trigger] post[k]).id == v;
                assert(post2[k] == post[k]);
            } else {
                assert(seen[v]);
            }
        }
    }
}

/// The walk comes to exactly the blocks that can be reached from the first
/// block, and to each of them once. It comes to a block before it comes to
/// the blocks that the exit of the block names, unless there is a way back
/// from them to the block.
pub proof fn lemma_walk_reaches(function: FunctionView)
    requires
        function.blocks.len() <= usize::MAX,
    ensures
        forall|b: int|
            reachable(function, 0, b) <==> exists|k: int|
                0 <= k < walk(function).len() && (#[trigger] walk(function)[k]).id == b,
        forall|k: int, l: int|
            #![trigger walk(function)[k], walk(function)[l]]
            0 <= k < l < walk(function).len() ==> walk(function)[k] != walk(function)[l],
        forall|k: int, l: int|
            #![trigger leads(function, walk(function)[k].id as int, walk(function)[l].id as int)]
            0 <= k < walk(function).len() && 0 <= l < walk(function).len() && leads(
                function,
                walk(function)[k].id as int,
                walk(function)[l].id as int,
            ) ==> k < l || reachable(
                function,
                walk(function)[l].id as int,
                walk(function)[k].id as int,
            ),
{
    let n = function.blocks.len();
    let clear = Seq::new(n, |i: int| false);
    lemma_unseen_clear(n);
    assert(entered_lead_to(function, clear, seq![], 0));
    lemma_search(function, 0, clear, seq![], n);
    let (seen, post) = searched(function, 0, clear, seq![], n);
    let order = walk(function);
    assert(order.len() == post.len());
    assert forall|b: int|
        reachable(function, 0, b) implies exists|k: int|
        0 <= k < order.len() && (#[trigger] order[k]).id == b by {
        let path = choose|path: Seq<int>| is_path(function, path) && path[0] == 0 && path.last() == b;
        lemma_closed(function, seen, clear, path, path.len() - 1);
        let k = choose|k: int| 0 <= k < post.len() && (#[trigger] post[k]).id == b;
        assert(order[post.len() - 1 - k] == post[k]);
    }
    assert forall|b: int|
        (exists|k: int| 0 <= k < order.len() && (#[trigger] order[k]).id == b) implies reachable(
        function,
        0,
        b,
    ) by {
        let k = choose|k: int| 0 <= k < order.len() && (#[trigger] order[k]).id == b;
        assert(order[k] == post[post.len() - 1 - k]);
    }
    assert forall|k: int, l: int|
        #![trigger order[k], order[l]]
        0 <= k < l < order.len() implies order[k] != order[l] by {
        assert(order[k] == post[post.len() - 1 - k]);
        assert(order[l] == post[post.len() - 1 - l]);
    }
    assert forall|k: int, l: int|
        #![trigger leads(function, order[k].id as int, order[l].id as int)]
        0 <= k < order.len() && 0 <= l < order.len() && leads(
            function,
            order[k].id as int,
            order[l].id as int,
        ) implies k < l || reachable(function, order[l].id as int, order[k].id as int) by {
        let ku = post.len() - 1 - k;
        let v = order[l].id as int;
        assert(order[k] == post[ku]);
        assert(order[l] == post[post.len() - 1 - l]);
        assert(leads(function, post[ku].id as int, v));
        if left_before(post, v, ku) {
            let kv = choose|kv: int| 0 <= kv < ku && kv < post.len() && (#[trigger] post[kv]).id == v;
            assert(post[kv] == post[post.len() - 1 - l]);
        }
    }
}

/// In a function without a way that comes back to where it started, the
/// walk comes to every block before it comes to the blocks that its exit
/// names.
pub proof fn lemma_walk_in_order(function: FunctionView)
    requires
        function.blocks.len() <= usize::MAX,
        acyclic(function),
    ensures
        forall|k: int, l: int|
            #![trigger leads(function, walk(function)[k].id as int, walk(function)[l].id as int)]
            0 <= k < walk(function).len() && 0 <= l < walk(function).len() && leads(
                function,
                walk(function)[k].id as int,
                walk(function)[l].id as int,
            ) ==> k < l,
{
    lemma_walk_reaches(function);
}

/// In a function without a way that comes back to where it started, the
/// walk comes to a block before it comes to any other block that there is a
/// way to from it.
pub proof fn lemma_walk_follows_ways(function: FunctionView, k: int, l: int)
    requires
        function.blocks.len() <= usize::MAX,
        acyclic(function),
        0 <= k < walk(function).len(),
        0 <= l < walk(function).len(),
        reachable(function, walk(function)[k].id as int, walk(function)[l].id as int),
    ensures
        k <= l,
{
    let order = walk(function);
    let path = choose|path: Seq<int>|
        is_path(function, path) && path[0] == order[k].id as int && path.last()
            == order[l].id as int;
    lemma_walk_reaches(function);
    lemma_walk_along(function, path, k, path.len() - 1);
    let m = choose|m: int| k <= m < order.len() && order[m].id == path[path.len() - 1];
    if m != l {
        if m < l {
            assert(order[m] != order[l]);
        } else {
            assert(order[l] != order[m]);
        }
    }
}

/// What `lemma_walk_follows_ways` says, of the blocks along a way.
proof fn lemma_walk_along(function: FunctionView, path: Seq<int>, k: int, i: int)
    requires
        function.blocks.len() <= usize::MAX,
        acyclic(function),
        is_path(function, path),
        0 <= k < walk(function).len(),
        walk(function)[k].id == path[0],
        0 <= i < path.len(),
    ensures
        exists|m: int| k <= m < walk(function).len() && walk(function)[m].id == path[i],
    decreases i,
{
    let order = walk(function);
    if i == 0 {
        assert(order[k].id == path[0]);
    } else {
        lemma_walk_along(function, path, k, i - 1);
        let m = choose|m: int| k <= m < order.len() && order[m].id == path[i - 1];
        assert(leads(function, path[i - 1], path[i - 1 + 1]));
        lemma_walk_reaches(function);
        assert(reachable(function, 0, order[m].id as int));
        lemma_reachable_step(function, 0, path[i - 1], path[i]);
        let n = choose|n: int| 0 <= n < order.len() && (#[trigger] order[n]).id == path[i];
        assert(leads(function, order[m].id as int, order[n].id as int));
        lemma_walk_in_order(function);
        assert(m < n);
    }
}

/// Where no mark is set, as many marks are unset as there are.
proof fn lemma_unseen_clear(n: nat)
    ensures
        unseen(Seq::new(n, |i: int| false)) == n,
    decreases n,
{
    if n > 0 {
        lemma_unseen_clear((n - 1) as nat);
        assert(Seq::new(n, |i: int| false).drop_last() =~= Seq::new((n - 1) as nat, |i: int| false));
    }
}

/// Marks from which no exit leads out mark every block on a way that
/// starts at a marked block.
proof fn lemma_closed(
    function: FunctionView,
    seen: Seq<bool>,
    clear: Seq<bool>,
    path: Seq<int>,
    i: int,
)
    requires
        seen.len() == function.blocks.len(),
        clear.len() == seen.len(),
        forall|k: int| 0 <= k < clear.len() ==> !clear[k],
        is_path(function, path),
        seen[path[0]],
        forall|u: int, v: int|
            0 <= u < seen.len() && !clear[u] && seen[u] && #[trigger] leads(function, u, v)
                ==> seen[v],
        0 <= i < path.len(),
    ensures
        0 <= path[i] < seen.len(),
        seen[path[i]],
    decreases i,
{
    if i > 0 {
        lemma_closed(function, seen, clear, path, i - 1);
        assert(leads(function, path[i - 1], path[i - 1 + 1]));
    }
}

} // verus!

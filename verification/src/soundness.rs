//! Why compiling is sound, case by case: if the parts of an expression are
//! compiled soundly, so is the expression.

use crate::agreement::{
    agree,
    agreement,
    answers,
    completes,
    fits,
    holds,
    impl_sound,
    lands,
    lands_all,
    lemma_agree_frame,
    lemma_agree_given,
    lemma_agree_lookup,
    lemma_bind,
    lemma_call,
    lemma_completes_earlier,
    lemma_holds_copied,
    lemma_holds_frame,
    lemma_holds_zero,
    lemma_impl_sound_extended,
    lemma_moved_chain,
    lemma_moved_emit,
    lemma_moved_none,
    meets,
    moved,
    same_below,
    sound,
    sound_all,
    witnessed,
    World,
    zero_from,
};
use crate::ast::{BinaryOp, Expr, Parsed};
use crate::elaboration::{begun, bound, finished, fork_exit, initial, joined, room, split, Whole};
use crate::execute::{cleared, lemma_well_formed_runnable};
use crate::impls::{registry, with_cell};
use crate::ir::{
    BlockId,
    BlockView,
    ExitInstruction,
    FunctionId,
    InstructionView,
    ProgramView,
    Var,
    var_range,
};
use crate::literal::literal_value;
use crate::running::{
    finish,
    lemma_finish_behind,
    lemma_finish_block,
    lemma_run_phis,
    lemma_selected,
    selected,
};
use crate::scope::{assigned, lookup};
use crate::semantics::{eval, eval_all, lemma_eval_all_deeper, lemma_eval_deeper, Value, zeroed};
use crate::state::{emitted_all, State};
use crate::types::{
    ImplementationView,
    ImplsId,
    lemma_alike_same,
    lemma_same_shape_size,
    lemma_vars_len,
    phis,
    TypeView,
};
use vstd::prelude::*;

verus! {

/// What a sound compilation comes to in one world: the fuel, the depth and
/// the registers of which `sound` says that there are some.
pub proof fn lemma_landing<'a>(
    expr: Parsed<'a, Expr<'a>>,
    s: State<'a>,
    s2: State<'a>,
    ty: TypeView<'a>,
    w: World<'a>,
) -> (found: (nat, nat, Seq<i32>))
    requires
        sound(expr, s, s2, ty),
        fits(w, s),
        completes(w.program, w.f, s2),
    ensures
        lands(expr, s, s2, ty, w, found.0, found.1, found.2),
        fits(World { regs: found.2, env: eval(expr, w.env, w.live, found.1).env, ..w }, s2),
{
    let (gap, depth, regs2) = choose|gap: nat, depth: nat, regs2: Seq<i32>|
        lands(expr, s, s2, ty, w, gap, depth, regs2);
    (gap, depth, regs2)
}

/// A literal: the constant is in its variable.
pub proof fn lemma_sound_constant<'a>(
    expr: Parsed<'a, Expr<'a>>,
    s: State<'a>,
    dest: Var,
    constant: i32,
)
    requires
        s.ready(),
        room(s, 1),
        dest.id == s.function.variable_count,
        expr.node matches Expr::IntLiteral(lexeme) ==> constant == literal_value(lexeme@) as i32,
        expr.node matches Expr::BoolLiteral(lexeme) ==> constant == (if lexeme@ == "true"@ {
            1i32
        } else {
            0i32
        }),
        expr.node is IntLiteral || expr.node is BoolLiteral,
    ensures
        sound(
            expr,
            s,
            s.emitted(InstructionView::ConstantInt { dest, constant }, 1),
            if expr.node is IntLiteral {
                TypeView::Int(dest)
            } else {
                TypeView::Bool(dest)
            },
        ),
{
    let inst = InstructionView::ConstantInt { dest, constant };
    let s2 = s.emitted(inst, 1);
    let ty = if expr.node is IntLiteral {
        TypeView::Int(dest)
    } else {
        TypeView::Bool(dest)
    };
    assert forall|w: World<'a>| #[trigger] fits(w, s) && completes(w.program, w.f, s2) implies exists|
        gap: nat,
        depth: nat,
        regs2: Seq<i32>,
    |
        lands(expr, s, s2, ty, w, gap, depth, regs2) by {
        let regs2 = if w.live {
            w.regs.update(dest.id as int, constant)
        } else {
            w.regs
        };
        crate::running::lemma_run_one(w.program, inst, w.regs, 0);
        lemma_moved_emit(s, inst, w, dest, constant);
        lemma_agree_frame(w.env, s.scope, w.regs, regs2, s.function.variable_count as int);
        assert(lands(expr, s, s2, ty, w, 0, 0, regs2));
    }
}

/// A name: its value is where its type says.
pub proof fn lemma_sound_name<'a>(expr: Parsed<'a, Expr<'a>>, s: State<'a>, ty: TypeView<'a>)
    requires
        s.ready(),
        expr.node matches Expr::Ident(name) && lookup(s.scope, name@) == Some(ty),
    ensures
        sound(expr, s, s, ty),
{
    assert forall|w: World<'a>| #[trigger] fits(w, s) && completes(w.program, w.f, s) implies exists|
        gap: nat,
        depth: nat,
        regs2: Seq<i32>,
    |
        lands(expr, s, s, ty, w, gap, depth, regs2) by {
        lemma_agree_lookup(w.env, s.scope, w.regs, expr.node->Ident_0@);
        lemma_moved_none(s, w);
        assert(lands(expr, s, s, ty, w, 0, 0, w.regs));
    }
}

/// A function: it takes no variable, and gets its name.
pub proof fn lemma_sound_function<'a>(expr: Parsed<'a, Expr<'a>>, s: State<'a>)
    requires
        s.ready(),
        expr.node is Func,
    ensures
        ({
            let func = TypeView::Func {
                pattern: *expr.node->pattern,
                expr: *expr.node->Func_expr,
                impls: ImplsId { id: s.table.len() as usize },
            };
            sound(
                expr,
                s,
                State {
                    table: with_cell(s.table, *expr.node->pattern, *expr.node->Func_expr),
                    scope: match expr.node->name {
                        Some(name) => assigned(s.scope, name@, func),
                        None => s.scope,
                    },
                    ..s
                },
                func,
            )
        }),
{
    let func = TypeView::Func {
        pattern: *expr.node->pattern,
        expr: *expr.node->Func_expr,
        impls: ImplsId { id: s.table.len() as usize },
    };
    let s2 = State {
        table: with_cell(s.table, *expr.node->pattern, *expr.node->Func_expr),
        scope: match expr.node->name {
            Some(name) => assigned(s.scope, name@, func),
            None => s.scope,
        },
        ..s
    };
    assert forall|w: World<'a>| #[trigger] fits(w, s) && completes(w.program, w.f, s2) implies exists|
        gap: nat,
        depth: nat,
        regs2: Seq<i32>,
    |
        lands(expr, s, s2, func, w, gap, depth, regs2) by {
        let value = eval(expr, w.env, w.live, 0).value->0;
        match expr.node->name {
            Some(name) => {
                lemma_agree_given(w.env, s.scope, w.regs, name@, value, func);
            },
            None => {},
        }
        assert(lands(expr, s, s2, func, w, 0, 0, w.regs));
    }
}

/// A sum: the sum is in a new variable.
pub proof fn lemma_sound_sum<'a>(
    expr: Parsed<'a, Expr<'a>>,
    s: State<'a>,
    s1: State<'a>,
    s2: State<'a>,
    a: Var,
    b: Var,
    dest: Var,
)
    requires
        expr.node matches Expr::Binary { op, .. } && op == BinaryOp::Plus,
        s.ready(),
        s1.ready(),
        s2.ready(),
        s1.follows(s),
        s2.follows(s1),
        sound(*expr.node->left, s, s1, TypeView::Int(a)),
        sound(*expr.node->right, s1, s2, TypeView::Int(b)),
        TypeView::Int(a).within(s1.function.variable_count as int),
        TypeView::Int(b).within(s2.function.variable_count as int),
        room(s2, 1),
        dest.id == s2.function.variable_count,
    ensures
        sound(
            expr,
            s,
            s2.emitted(InstructionView::AddInt { dest, a, b }, 1),
            TypeView::Int(dest),
        ),
{
    let left = *expr.node->left;
    let right = *expr.node->right;
    let inst = InstructionView::AddInt { dest, a, b };
    let s3 = s2.emitted(inst, 1);
    let ty = TypeView::Int(dest);
    assert forall|w: World<'a>| #[trigger] fits(w, s) && completes(w.program, w.f, s3) implies exists|
        gap: nat,
        depth: nat,
        regs2: Seq<i32>,
    |
        lands(expr, s, s3, ty, w, gap, depth, regs2) by {
        assert(inst.defs() =~= crate::ir::var_range(s2.function.variable_count as int, 1));
        assert(TypeView::Int(a).vars()[0] == a);
        assert(TypeView::Int(b).vars()[0] == b);
        crate::state::lemma_state_emit(s2, inst, 1);
        lemma_completes_earlier(w.program, w.f, s2, s3);
        lemma_completes_earlier(w.program, w.f, s1, s2);
        let (gap1, depth1, regs1) = lemma_landing(left, s, s1, TypeView::Int(a), w);
        let first = eval(left, w.env, w.live, depth1);
        let w1 = World { regs: regs1, env: first.env, ..w };
        let (gap2, depth2, regs2) = lemma_landing(right, s1, s2, TypeView::Int(b), w1);
        let second = eval(right, first.env, w.live, depth2);
        let w2 = World { regs: regs2, env: second.env, ..w };
        let depth = if depth1 < depth2 {
            depth2
        } else {
            depth1
        };
        lemma_eval_deeper(left, w.env, w.live, depth1, depth);
        lemma_eval_deeper(right, first.env, w.live, depth2, depth);
        let x = first.value->0->Int_0;
        let y = second.value->0->Int_0;
        assert(TypeView::Int(a).vars()[0] == a);
        assert(TypeView::Int(b).vars()[0] == b);
        lemma_holds_frame(
            first.value->0,
            TypeView::Int(a),
            regs1,
            regs2,
            s1.function.variable_count as int,
        );
        let total = x.wrapping_add(y);
        crate::running::lemma_run_one(w.program, inst, regs2, 0);
        assert(regs2[a.id as int] == x);
        assert(regs2[b.id as int] == y);
        lemma_moved_emit(s2, inst, w2, dest, total);
        let regs3 = if w.live {
            regs2.update(dest.id as int, total)
        } else {
            regs2
        };
        lemma_moved_chain(s, s1, s2, w, gap1, regs1, first.env, gap2, regs2);
        lemma_moved_chain(s, s2, s3, w, gap1 + gap2, regs2, second.env, 0, regs3);
        lemma_agree_frame(second.env, s2.scope, regs2, regs3, s2.function.variable_count as int);
        assert(lands(expr, s, s3, ty, w, gap1 + gap2 + 0, depth, regs3));
    }
}

/// An assignment: the names of the pattern stand for the parts of the
/// value.
pub proof fn lemma_sound_assignment<'a>(
    expr: Parsed<'a, Expr<'a>>,
    s: State<'a>,
    s1: State<'a>,
    ty: TypeView<'a>,
)
    requires
        expr.node matches Expr::Binary { op, .. } && op == BinaryOp::SingleEquals,
        s.ready(),
        s1.ready(),
        s1.follows(s),
        sound(*expr.node->right, s, s1, ty),
        bound(*expr.node->left, ty, s1.scope) is Ok,
    ensures
        sound(
            expr,
            s,
            State { scope: bound(*expr.node->left, ty, s1.scope)->Ok_0, ..s1 },
            ty,
        ),
{
    let left = *expr.node->left;
    let right = *expr.node->right;
    let s2 = State { scope: bound(left, ty, s1.scope)->Ok_0, ..s1 };
    assert forall|w: World<'a>| #[trigger] fits(w, s) && completes(w.program, w.f, s2) implies exists|
        gap: nat,
        depth: nat,
        regs2: Seq<i32>,
    |
        lands(expr, s, s2, ty, w, gap, depth, regs2) by {
        assert(completes(w.program, w.f, s1));
        let (gap, depth, regs1) = lemma_landing(right, s, s1, ty, w);
        let value = eval(right, w.env, w.live, depth);
        lemma_bind(left, value.value->0, ty, value.env, s1.scope, regs1);
        assert(lands(expr, s, s2, ty, w, gap, depth, regs1));
    }
}

/// No expression of a list compiled: nothing has happened.
pub proof fn lemma_sound_all_none<'a>(exprs: Seq<Parsed<'a, Expr<'a>>>, s: State<'a>)
    ensures
        sound_all(exprs, 0, s, s, Seq::empty()),
{
    assert forall|w: World<'a>| #[trigger] fits(w, s) && completes(w.program, w.f, s) implies exists|
        gap: nat,
        depth: nat,
        regs2: Seq<i32>,
    |
        lands_all(exprs, 0, s, s, Seq::empty(), w, gap, depth, regs2) by {
        lemma_moved_none(s, w);
        assert(lands_all(exprs, 0, s, s, Seq::empty(), w, 0, 0, w.regs));
    }
}

/// One more expression of a list compiled.
pub proof fn lemma_sound_all_more<'a>(
    exprs: Seq<Parsed<'a, Expr<'a>>>,
    n: nat,
    s: State<'a>,
    s1: State<'a>,
    s2: State<'a>,
    types: Seq<TypeView<'a>>,
    ty: TypeView<'a>,
)
    requires
        n < exprs.len(),
        s.ready(),
        s1.ready(),
        s1.follows(s),
        s2.follows(s1),
        sound_all(exprs, n, s, s1, types),
        sound(exprs[n as int], s1, s2, ty),
        forall|i: int| 0 <= i < types.len() ==> (#[trigger] types[i]).within(
            s1.function.variable_count as int,
        ),
    ensures
        sound_all(exprs, n + 1, s, s2, types.push(ty)),
{
    let all = types.push(ty);
    let m: nat = n + 1;
    assert forall|w: World<'a>| #[trigger] fits(w, s) && completes(w.program, w.f, s2) implies exists|
        gap: nat,
        depth: nat,
        regs2: Seq<i32>,
    |
        lands_all(exprs, m, s, s2, all, w, gap, depth, regs2) by {
        lemma_completes_earlier(w.program, w.f, s1, s2);
        let (gap1, depth1, regs1) = choose|gap: nat, depth: nat, regs: Seq<i32>|
            lands_all(exprs, n, s, s1, types, w, gap, depth, regs);
        let before = eval_all(exprs, w.env, w.live, depth1, n);
        let w1 = World { regs: regs1, env: before.env, ..w };
        let (gap2, depth2, regs2) = lemma_landing(exprs[n as int], s1, s2, ty, w1);
        let step = eval(exprs[n as int], before.env, w.live, depth2);
        let depth = if depth1 < depth2 {
            depth2
        } else {
            depth1
        };
        lemma_eval_all_deeper(exprs, w.env, w.live, depth1, depth, n);
        lemma_eval_deeper(exprs[n as int], before.env, w.live, depth2, depth);
        lemma_moved_chain(s, s1, s2, w, gap1, regs1, before.env, gap2, regs2);
        let values = eval_all(exprs, w.env, w.live, depth, m).values->0;
        assert forall|i: int| 0 <= i < all.len() implies holds(values[i], #[trigger] all[i], regs2) by {
            if i < types.len() {
                assert(all[i] == types[i]);
                assert(holds(before.values->0[i], types[i], regs1));
                lemma_holds_frame(
                    before.values->0[i],
                    types[i],
                    regs1,
                    regs2,
                    s1.function.variable_count as int,
                );
            }
        }
        assert(lands_all(exprs, m, s, s2, all, w, gap1 + gap2, depth, regs2));
    }
}

/// A tuple: its parts are where the types of its parts say.
pub proof fn lemma_sound_tuple<'a>(
    expr: Parsed<'a, Expr<'a>>,
    s: State<'a>,
    s2: State<'a>,
    types: Seq<TypeView<'a>>,
)
    requires
        expr.node is Tuple,
        sound_all(expr.node->Tuple_exprs@, expr.node->Tuple_exprs@.len(), s, s2, types),
    ensures
        sound(expr, s, s2, TypeView::Tuple(types)),
{
    let exprs = expr.node->Tuple_exprs@;
    assert forall|w: World<'a>| #[trigger] fits(w, s) && completes(w.program, w.f, s2) implies exists|
        gap: nat,
        depth: nat,
        regs2: Seq<i32>,
    |
        lands(expr, s, s2, TypeView::Tuple(types), w, gap, depth, regs2) by {
        let (gap, depth, regs2) = choose|gap: nat, depth: nat, regs: Seq<i32>|
            lands_all(exprs, exprs.len(), s, s2, types, w, gap, depth, regs);
        assert(lands(expr, s, s2, TypeView::Tuple(types), w, gap, depth, regs2));
    }
}

/// A sequence: its value is that of its last expression.
pub proof fn lemma_sound_sequence<'a>(
    expr: Parsed<'a, Expr<'a>>,
    s: State<'a>,
    s1: State<'a>,
    s2: State<'a>,
    types: Seq<TypeView<'a>>,
    ty: TypeView<'a>,
)
    requires
        expr.node is Block,
        s.ready(),
        s1.ready(),
        s1.follows(s),
        s2.follows(s1),
        sound_all(expr.node->Block_exprs@, expr.node->Block_exprs@.len(), s, s1, types),
        sound(*expr.node->last, s1, s2, ty),
    ensures
        sound(expr, s, s2, ty),
{
    let exprs = expr.node->Block_exprs@;
    let last = *expr.node->last;
    assert forall|w: World<'a>| #[trigger] fits(w, s) && completes(w.program, w.f, s2) implies exists|
        gap: nat,
        depth: nat,
        regs2: Seq<i32>,
    |
        lands(expr, s, s2, ty, w, gap, depth, regs2) by {
        lemma_completes_earlier(w.program, w.f, s1, s2);
        let (gap1, depth1, regs1) = choose|gap: nat, depth: nat, regs: Seq<i32>|
            lands_all(exprs, exprs.len(), s, s1, types, w, gap, depth, regs);
        let before = eval_all(exprs, w.env, w.live, depth1, exprs.len());
        let w1 = World { regs: regs1, env: before.env, ..w };
        let (gap2, depth2, regs2) = lemma_landing(last, s1, s2, ty, w1);
        let depth = if depth1 < depth2 {
            depth2
        } else {
            depth1
        };
        lemma_eval_all_deeper(exprs, w.env, w.live, depth1, depth, exprs.len());
        lemma_eval_deeper(last, before.env, w.live, depth2, depth);
        lemma_moved_chain(s, s1, s2, w, gap1, regs1, before.env, gap2, regs2);
        assert(lands(expr, s, s2, ty, w, gap1 + gap2, depth, regs2));
    }
}

/// What completes the state behind a branch completes the state before
/// it.
pub proof fn lemma_completes_split<'a>(
    program: ProgramView,
    f: int,
    s: State<'a>,
    cond: Var,
    inverted: bool,
)
    requires
        completes(program, f, split(s, cond, inverted)),
        s.block.id < s.function.blocks.len(),
        !s.function.blocks[s.block.id as int].committed,
    ensures
        completes(program, f, s),
        program.functions[f].blocks[s.block.id as int] == s.block.closed_by(
            fork_exit(cond, inverted, s.function.blocks.len() as int),
        ),
{
    let s2 = split(s, cond, inverted);
    let function = program.functions[f];
    assert forall|i: int|
        0 <= i < s.function.blocks.len() && (#[trigger] s.function.blocks[i]).committed implies function.blocks[i]
        == s.function.blocks[i] by {
        assert(s2.function.blocks[i] == s.function.blocks[i]);
    }
    assert(s2.function.blocks[s.block.id as int].committed);
}

/// What completes the state behind a jump completes the state before it.
pub proof fn lemma_completes_join<'a>(program: ProgramView, f: int, s: State<'a>, exit: int)
    requires
        completes(program, f, joined(s, exit)),
        s.block.id < s.function.blocks.len(),
        !s.function.blocks[s.block.id as int].committed,
        0 <= exit < s.function.blocks.len(),
        exit != s.block.id,
        exit <= usize::MAX,
    ensures
        completes(program, f, s),
        program.functions[f].blocks[s.block.id as int] == s.block.closed_by(
            ExitInstruction::Branch { block: BlockId { id: exit as usize } },
        ),
{
    let s2 = joined(s, exit);
    let function = program.functions[f];
    assert forall|i: int|
        0 <= i < s.function.blocks.len() && (#[trigger] s.function.blocks[i]).committed implies function.blocks[i]
        == s.function.blocks[i] by {
        assert(s2.function.blocks[i] == s.function.blocks[i]);
    }
    assert(s2.function.blocks[s.block.id as int].committed);
}

/// A run that is behind the last instruction of a block goes on with the
/// block that the exit names.
pub proof fn lemma_leave(program: ProgramView, f: int, b: int, regs: Seq<i32>, fuel: nat)
    ensures
        finish(
            program,
            f,
            b,
            program.functions[f].blocks[b].insts.len() as int,
            regs,
            fuel + 1,
        ) == match program.functions[f].blocks[b].exit {
            ExitInstruction::Return => Some(regs),
            ExitInstruction::Branch { block } => finish(program, f, block.id as int, 0, regs, fuel),
            ExitInstruction::ConditionalBranch { cond, block1, block2 } => finish(
                program,
                f,
                if regs[cond.id as int] != 0 {
                    block1.id as int
                } else {
                    block2.id as int
                },
                0,
                regs,
                fuel,
            ),
        },
{
    let block = program.functions[f].blocks[b];
    let len = block.insts.len() as int;
    assert(block.insts.subrange(len, len).len() == 0);
    match block.exit {
        ExitInstruction::Return => {},
        ExitInstruction::Branch { block } => {
            lemma_finish_block(program, f, block.id as int, regs, fuel);
        },
        ExitInstruction::ConditionalBranch { cond, block1, block2 } => {
            lemma_finish_block(program, f, block1.id as int, regs, fuel);
            lemma_finish_block(program, f, block2.id as int, regs, fuel);
        },
    }
}

/// A conditional: the value is there if the condition is true, and the
/// body is run only then.
pub proof fn lemma_sound_if<'a>(
    expr: Parsed<'a, Expr<'a>>,
    s: State<'a>,
    s1: State<'a>,
    s2: State<'a>,
    tag: Var,
    ty: TypeView<'a>,
)
    requires
        expr.node is If,
        s.ready(),
        s1.ready(),
        s2.ready(),
        s1.follows(s),
        s2.follows(split(s1, tag, false)),
        s1.function.blocks.len() + 2 <= usize::MAX,
        s2.block.id != s1.function.blocks.len() + 1,
        !s2.function.blocks[(s1.function.blocks.len() + 1) as int].committed,
        sound(*expr.node->cond, s, s1, TypeView::Bool(tag)),
        sound(*expr.node->conc, split(s1, tag, false), s2, ty),
        TypeView::Bool(tag).within(s1.function.variable_count as int),
    ensures
        sound(
            expr,
            s,
            joined(s2, (s1.function.blocks.len() + 1) as int),
            TypeView::Maybe(tag, Box::new(ty)),
        ),
{
    let cond = *expr.node->cond;
    let conc = *expr.node->conc;
    let body_at = s1.function.blocks.len() as int;
    let exit = body_at + 1;
    let forked = split(s1, tag, false);
    let s3 = joined(s2, exit);
    let maybe = TypeView::Maybe(tag, Box::new(ty));
    assert forall|w: World<'a>| #[trigger] fits(w, s) && completes(w.program, w.f, s3) implies exists|
        gap: nat,
        depth: nat,
        regs2: Seq<i32>,
    |
        lands(expr, s, s3, maybe, w, gap, depth, regs2) by {
        let program = w.program;
        let f = w.f;
        lemma_completes_join(program, f, s2, exit);
        lemma_completes_earlier(program, f, forked, s2);
        lemma_completes_split(program, f, s1, tag, false);
        let (gap1, depth1, regs1) = lemma_landing(cond, s, s1, TypeView::Bool(tag), w);
        let first = eval(cond, w.env, w.live, depth1);
        let taken = first.value->0->Bool_0;
        assert(TypeView::Bool(tag).vars()[0] == tag);
        let w1 = World { regs: regs1, env: first.env, live: w.live && taken, ..w };
        assert(fits(w1, forked));
        let (gap2, depth2, regs2) = lemma_landing(conc, forked, s2, ty, w1);
        let second = eval(conc, first.env, w.live && taken, depth2);
        let depth = if depth1 < depth2 {
            depth2
        } else {
            depth1
        };
        lemma_eval_deeper(cond, w.env, w.live, depth1, depth);
        lemma_eval_deeper(conc, first.env, w.live && taken, depth2, depth);
        let gap = if taken {
            gap1 + (gap2 + 2)
        } else {
            gap1 + 1
        };
        assert(regs2[tag.id as int] == regs1[tag.id as int]);
        assert(maybe.vars() =~= seq![tag] + ty.vars());
        if w.live {
            let b1 = s1.block.id as int;
            let n1 = s1.block.insts.len() as int;
            let b2 = s2.block.id as int;
            let n2 = s2.block.insts.len() as int;
            assert forall|fuel: nat| #[trigger]
                finish(program, f, exit, 0, regs2, fuel) is Some implies finish(
                program,
                f,
                s.block.id as int,
                s.block.insts.len() as int,
                w.regs,
                fuel + gap,
            ) == finish(program, f, exit, 0, regs2, fuel) by {
                if taken {
                    lemma_leave(program, f, b2, regs2, fuel);
                    assert(finish(program, f, b2, n2, regs2, fuel + 1) is Some);
                    let behind = (fuel + 1 + gap2) as nat;
                    assert(finish(program, f, body_at, 0, regs1, behind) == finish(
                        program,
                        f,
                        b2,
                        n2,
                        regs2,
                        fuel + 1,
                    ));
                    lemma_leave(program, f, b1, regs1, behind);
                    assert(finish(program, f, b1, n1, regs1, behind + 1) is Some);
                    assert(fuel + gap == behind + 1 + gap1);
                } else {
                    lemma_leave(program, f, b1, regs1, fuel);
                    assert(finish(program, f, b1, n1, regs1, fuel + 1) is Some);
                    assert(fuel + gap == fuel + 1 + gap1);
                }
            }
        }
        assert(lands(expr, s, s3, maybe, w, gap, depth, regs2));
    }
}

/// An alternative: the value is what may be absent if it is there, and
/// the alternative if not, and the alternative is run only then.
pub proof fn lemma_sound_else<'a>(
    expr: Parsed<'a, Expr<'a>>,
    s: State<'a>,
    s1: State<'a>,
    s2: State<'a>,
    tag: Var,
    inner: TypeView<'a>,
    alt: TypeView<'a>,
)
    requires
        expr.node matches Expr::Binary { op, .. } && op == BinaryOp::Else,
        s.ready(),
        s1.ready(),
        s2.ready(),
        joined(s2, (s1.function.blocks.len() + 1) as int).ready(),
        s1.follows(s),
        s2.follows(split(s1, tag, true)),
        s1.function.blocks.len() + 2 <= usize::MAX,
        s2.block.id != s1.function.blocks.len() + 1,
        !s2.function.blocks[(s1.function.blocks.len() + 1) as int].committed,
        sound(*expr.node->left, s, s1, TypeView::Maybe(tag, Box::new(inner))),
        sound(*expr.node->right, split(s1, tag, true), s2, alt),
        TypeView::Maybe(tag, Box::new(inner)).within(s1.function.variable_count as int),
        alt.within(s2.function.variable_count as int),
        inner.known(registry(s2.table)),
        alt.known(registry(s2.table)),
        inner.same_shape(alt),
        room(s2, inner.size()),
    ensures
        ({
            let s3 = joined(s2, (s1.function.blocks.len() + 1) as int);
            sound(
                expr,
                s,
                emitted_all(
                    s3,
                    phis(tag, inner.vars(), alt.vars(), s3.function.variable_count as int),
                    inner.size() as int,
                ),
                inner.map_to(var_range(s3.function.variable_count as int, inner.size())),
            )
        }),
{
    let left = *expr.node->left;
    let right = *expr.node->right;
    let maybe = TypeView::Maybe(tag, Box::new(inner));
    let body_at = s1.function.blocks.len() as int;
    let exit = body_at + 1;
    let forked = split(s1, tag, true);
    let s3 = joined(s2, exit);
    let count = s3.function.variable_count as int;
    let size = inner.size();
    let code = phis(tag, inner.vars(), alt.vars(), count);
    let s4 = emitted_all(s3, code, size as int);
    let dests = var_range(count, size);
    let merged = inner.map_to(dests);
    lemma_vars_len(inner);
    lemma_vars_len(alt);
    lemma_same_shape_size(inner, alt);
    assert(maybe.vars() =~= seq![tag] + inner.vars());
    assert(maybe.vars()[0] == tag);
    assert forall|k: int| 0 <= k < inner.vars().len() implies (#[trigger] inner.vars()[k]).id
        < s1.function.variable_count by {
        assert(maybe.vars()[k + 1] == inner.vars()[k]);
    }
    assert(code.take(size as int) =~= code);
    assert forall|w: World<'a>| #[trigger] fits(w, s) && completes(w.program, w.f, s4) implies exists|
        gap: nat,
        depth: nat,
        regs2: Seq<i32>,
    |
        lands(expr, s, s4, merged, w, gap, depth, regs2) by {
        let program = w.program;
        let f = w.f;
        assert(completes(program, f, s3));
        lemma_completes_join(program, f, s2, exit);
        lemma_completes_earlier(program, f, forked, s2);
        lemma_completes_split(program, f, s1, tag, true);
        let (gap1, depth1, regs1) = lemma_landing(left, s, s1, maybe, w);
        let first = eval(left, w.env, w.live, depth1);
        let there = first.value->0->Maybe_0;
        let inner_value = *first.value->0->Maybe_1;
        let w1 = World { regs: regs1, env: first.env, live: w.live && !there, ..w };
        assert(fits(w1, forked));
        let (gap2, depth2, regs2) = lemma_landing(right, forked, s2, alt, w1);
        let second = eval(right, first.env, w.live && !there, depth2);
        let alt_value = second.value->0;
        let depth = if depth1 < depth2 {
            depth2
        } else {
            depth1
        };
        lemma_eval_deeper(left, w.env, w.live, depth1, depth);
        lemma_eval_deeper(right, first.env, w.live && !there, depth2, depth);
        lemma_holds_frame(inner_value, inner, regs1, regs2, s1.function.variable_count as int);
        assert(regs2[tag.id as int] == regs1[tag.id as int]);
        let regs4 = if w.live {
            selected(regs2, tag, inner.vars(), alt.vars(), count, size)
        } else {
            regs2
        };
        let gap = if there {
            gap1 + 1
        } else {
            gap1 + (gap2 + 2)
        };
        assert(dests.len() == size);
        if w.live {
            lemma_selected(regs2, tag, inner.vars(), alt.vars(), count, size);
            lemma_run_phis(program, regs2, tag, inner.vars(), alt.vars(), count, size, 0);
            if there {
                assert forall|k: int| 0 <= k < inner.size() implies regs4[dests[0 + k].id as int]
                    == regs2[(#[trigger] inner.vars()[k]).id as int] by {
                    assert(regs4[count + k] == regs2[inner.vars()[k].id as int]);
                }
                lemma_holds_copied(inner_value, inner, regs2, dests, 0, regs4);
            } else {
                assert forall|k: int| 0 <= k < alt.size() implies regs4[dests[0 + k].id as int]
                    == regs2[(#[trigger] alt.vars()[k]).id as int] by {
                    assert(regs4[count + k] == regs2[alt.vars()[k].id as int]);
                }
                lemma_holds_copied(alt_value, alt, regs2, dests, 0, regs4);
                lemma_alike_same(inner, alt, registry(s2.table), dests, 0);
            }
            let b1 = s1.block.id as int;
            let n1 = s1.block.insts.len() as int;
            let b2 = s2.block.id as int;
            let n2 = s2.block.insts.len() as int;
            let function = program.functions[f];
            assert(function.blocks[exit].insts.subrange(0, size as int) =~= code);
            assert forall|fuel: nat| #[trigger]
                finish(program, f, exit, size as int, regs4, fuel) is Some implies finish(
                program,
                f,
                s.block.id as int,
                s.block.insts.len() as int,
                w.regs,
                fuel + gap,
            ) == finish(program, f, exit, size as int, regs4, fuel) by {
                lemma_finish_behind(program, f, exit, 0, size as int, regs2, regs4, 0, fuel);
                if there {
                    lemma_leave(program, f, b1, regs1, fuel);
                    assert(finish(program, f, b1, n1, regs1, fuel + 1) is Some);
                    assert(fuel + gap == fuel + 1 + gap1);
                } else {
                    lemma_leave(program, f, b2, regs2, fuel);
                    assert(finish(program, f, b2, n2, regs2, fuel + 1) is Some);
                    let behind = (fuel + 1 + gap2) as nat;
                    assert(finish(program, f, body_at, 0, regs1, behind) == finish(
                        program,
                        f,
                        b2,
                        n2,
                        regs2,
                        fuel + 1,
                    ));
                    lemma_leave(program, f, b1, regs1, behind);
                    assert(finish(program, f, b1, n1, regs1, behind + 1) is Some);
                    assert(fuel + gap == behind + 1 + gap1);
                }
            }
        } else {
            assert forall|k: int| 0 <= k < inner.size() implies regs4[(#[trigger] dests[0
                + k]).id as int] == 0 by {
                assert(regs4[count + k] == 0);
            }
            lemma_holds_zero(inner_value, inner, regs2, dests, 0, regs4);
        }
        lemma_agree_frame(second.env, s2.scope, regs2, regs4, count);
        assert(lands(expr, s, s4, merged, w, gap, depth, regs4));
    }
}

/// A call of an implementation that is sound: the value of the function
/// for the argument is in new variables.
pub proof fn lemma_sound_call<'a>(
    expr: Parsed<'a, Expr<'a>>,
    s: State<'a>,
    s1: State<'a>,
    s2: State<'a>,
    c: State<'a>,
    t: State<'a>,
    pattern: Parsed<'a, Expr<'a>>,
    body: Parsed<'a, Expr<'a>>,
    cell: ImplsId,
    argument_ty: TypeView<'a>,
    imp: ImplementationView<'a>,
)
    requires
        expr.node matches Expr::Binary { op, .. } && op == BinaryOp::Bracket,
        s.ready(),
        s1.ready(),
        s2.ready(),
        s1.follows(s),
        s2.follows(s1),
        sound(*expr.node->left, s, s1, TypeView::Func { pattern, expr: body, impls: cell }),
        sound(*expr.node->right, s1, s2, argument_ty),
        c.scope == s2.scope,
        c.function == s2.function,
        c.block == s2.block,
        c.program.extends(s2.program),
        impl_sound(pattern, body, imp, c.program),
        c.program.well_formed(),
        imp.param_ty.same_shape(argument_ty),
        argument_ty.known(registry(c.table)),
        imp.param_ty.known(registry(c.table)),
        argument_ty.within(s2.function.variable_count as int),
        room(c, imp.return_ty.size()),
        t.scope == c.scope,
        t.program == c.program,
        t.function == c.function.grown(imp.return_ty.size() as int),
        t.block == c.block.with(
            InstructionView::Call {
                function: imp.entry,
                args: argument_ty.vars(),
                returns: var_range(c.function.variable_count as int, imp.return_ty.size()),
            },
        ),
    ensures
        sound(
            expr,
            s,
            t,
            imp.return_ty.map_to(var_range(c.function.variable_count as int, imp.return_ty.size())),
        ),
{
    let left = *expr.node->left;
    let right = *expr.node->right;
    let callee = TypeView::Func { pattern, expr: body, impls: cell };
    let count = c.function.variable_count as int;
    let n = imp.return_ty.size();
    let dests = var_range(count, n);
    let inst = InstructionView::Call { function: imp.entry, args: argument_ty.vars(), returns: dests };
    let ty = imp.return_ty.map_to(dests);
    lemma_well_formed_runnable(c.program);
    assert forall|w: World<'a>| #[trigger] fits(w, s) && completes(w.program, w.f, t) implies exists|
        gap: nat,
        depth: nat,
        regs2: Seq<i32>,
    |
        lands(expr, s, t, ty, w, gap, depth, regs2) by {
        let program = w.program;
        let f = w.f;
        assert(completes(program, f, s2));
        lemma_completes_earlier(program, f, s1, s2);
        let (gap1, depth1, regs1) = lemma_landing(left, s, s1, callee, w);
        let first = eval(left, w.env, w.live, depth1);
        let w1 = World { regs: regs1, env: first.env, ..w };
        let (gap2, depth2, regs2) = lemma_landing(right, s1, s2, argument_ty, w1);
        let second = eval(right, first.env, w.live, depth2);
        let argument = second.value->0;
        lemma_impl_sound_extended(pattern, body, imp, c.program, program);
        let (fuel, depth3, regs3) = lemma_call(
            program,
            registry(c.table),
            pattern,
            body,
            imp,
            argument,
            argument_ty,
            regs2,
            count,
        );
        let env = crate::semantics::bind(pattern, argument, Seq::empty())->0;
        let result = eval(body, env, true, depth3).value->0;
        let depth12 = if depth1 < depth2 {
            depth2
        } else {
            depth1
        };
        let depth = if depth12 < depth3 + 1 {
            depth3 + 1
        } else {
            depth12
        };
        lemma_eval_deeper(left, w.env, w.live, depth1, depth);
        lemma_eval_deeper(right, first.env, w.live, depth2, depth);
        lemma_eval_deeper(body, env, true, depth3, (depth - 1) as nat);
        let regs4 = if w.live {
            regs3
        } else {
            regs2
        };
        let b = s2.block.id as int;
        let at = s2.block.insts.len() as int;
        if w.live {
            let function = program.functions[f];
            assert(t.block.insts[at] == inst);
            assert(function.blocks[b].insts[at] == inst);
            assert(function.blocks[b].insts.subrange(at, at + 1) =~= seq![inst]);
            assert forall|more: nat| #[trigger]
                finish(program, f, b, at + 1, regs3, more) is Some implies finish(
                program,
                f,
                s.block.id as int,
                s.block.insts.len() as int,
                w.regs,
                more + (gap1 + gap2 + fuel),
            ) == finish(program, f, b, at + 1, regs3, more) by {
                lemma_finish_behind(program, f, b, at, at + 1, regs2, regs3, fuel, more);
                let late = (more + fuel) as nat;
                assert(finish(program, f, b, at, regs2, late) is Some);
                let mid = (late + gap2) as nat;
                assert(finish(
                    program,
                    f,
                    s1.block.id as int,
                    s1.block.insts.len() as int,
                    regs1,
                    mid,
                ) is Some);
                assert(more + (gap1 + gap2 + fuel) == mid + gap1);
            }
        } else {
            assert forall|k: int| 0 <= k < imp.return_ty.size() implies regs2[(#[trigger] dests[0
                + k]).id as int] == 0 by {
                assert(regs2[count + k] == 0);
            }
        }
        lemma_agree_frame(second.env, s2.scope, regs2, regs4, count);
        let evaluation = eval(expr, w.env, w.live, depth);
        assert(first.value->0 == (Value::Func { pattern, body }));
        assert(crate::semantics::applied(expr, pattern, body, argument, w.live, depth) == Some(
            if w.live {
                result
            } else {
                zeroed(result)
            },
        ));
        assert(evaluation.value is Some);
        assert(evaluation.env == second.env);
        assert(holds(evaluation.value->0, ty, regs4));
        assert(agree(evaluation.env, t.scope, regs4));
        assert(same_below(w.regs, regs4, s.function.variable_count as int));
        assert(zero_from(regs4, t.function.variable_count as int));
        assert(moved(s, t, w, gap1 + gap2 + fuel, regs4));
        assert(lands(expr, s, t, ty, w, gap1 + gap2 + fuel, depth, regs4));
    }
}

/// A function that was compiled soundly for a shape of parameter is a
/// sound implementation for that shape.
pub proof fn lemma_impl_from_body<'a>(
    pattern: Parsed<'a, Expr<'a>>,
    body: Parsed<'a, Expr<'a>>,
    sub: State<'a>,
    done: State<'a>,
    param_ty: TypeView<'a>,
    return_ty: TypeView<'a>,
)
    requires
        bound(pattern, param_ty, Seq::empty()) == Ok::<Seq<crate::scope::Binding<'a>>, Seq<char>>(
            sub.scope,
        ),
        sub.function == begun(param_ty.size()),
        sub.block == BlockView::fresh(0),
        param_ty.vars() == var_range(0, param_ty.size()),
        param_ty.size() <= usize::MAX,
        done.program.functions.len() <= usize::MAX,
        sub.ready(),
        done.ready(),
        done.follows(sub),
        sound(body, sub, done, return_ty),
    ensures
        impl_sound(
            pattern,
            body,
            ImplementationView {
                param_ty,
                return_ty,
                entry: FunctionId { id: done.program.functions.len() as usize },
            },
            done.program.with(finished(done.function, done.block, return_ty.vars())),
        ),
{
    let entry = FunctionId { id: done.program.functions.len() as usize };
    let imp = ImplementationView { param_ty, return_ty, entry };
    let function = finished(done.function, done.block, return_ty.vars());
    let program = done.program.with(function);
    let f = done.program.functions.len() as int;
    assert(program.functions[f] == function);
    assert(function.returns =~= return_ty.vars());
    assert forall|argument: Value<'a>, regs: Seq<i32>| #[trigger]
        meets(argument, param_ty, regs, function.variable_count as int) implies exists|
        fuel: nat,
        depth: nat,
        regs2: Seq<i32>,
    |
        answers(pattern, body, imp, program, argument, regs, fuel, depth, regs2) by {
        lemma_bind(pattern, argument, param_ty, Seq::empty(), Seq::empty(), regs);
        let env = crate::semantics::bind(pattern, argument, Seq::empty())->0;
        let w = World { program, f, regs, env, live: true };
        assert(fits(w, sub));
        assert(completes(program, f, done));
        let (gap, depth, regs2) = lemma_landing(body, sub, done, return_ty, w);
        let b = done.block.id as int;
        let n = done.block.insts.len() as int;
        lemma_leave(program, f, b, regs2, 0);
        assert(finish(program, f, b, n, regs2, 1) == Some(regs2));
        lemma_finish_block(program, f, 0, regs, (1 + gap) as nat);
        assert(answers(pattern, body, imp, program, argument, regs, (1 + gap) as nat, depth, regs2));
    }
}

/// A program whose expression was compiled soundly agrees with the
/// interpreter.
pub proof fn lemma_program_agrees<'a>(expr: Parsed<'a, Expr<'a>>, done: State<'a>, ty: TypeView<'a>)
    requires
        initial::<'a>().ready(),
        done.ready(),
        done.follows(initial()),
        done.program.functions.len() <= usize::MAX,
        sound(expr, initial(), done, ty),
    ensures
        agreement(
            expr,
            Whole {
                program: done.program.with(finished(done.function, done.block, ty.vars())),
                entry: FunctionId { id: done.program.functions.len() as usize },
                ty,
                table: done.table,
            },
        ),
{
    let function = finished(done.function, done.block, ty.vars());
    let program = done.program.with(function);
    let f = done.program.functions.len() as int;
    let whole = Whole {
        program,
        entry: FunctionId { id: done.program.functions.len() as usize },
        ty,
        table: done.table,
    };
    assert(program.functions[f] == function);
    let regs = cleared(function.variable_count as nat);
    let w = World { program, f, regs, env: Seq::empty(), live: true };
    assert(fits(w, initial()));
    assert(completes(program, f, done));
    let (gap, depth, regs2) = lemma_landing(expr, initial(), done, ty, w);
    let b = done.block.id as int;
    let n = done.block.insts.len() as int;
    lemma_leave(program, f, b, regs2, 0);
    assert(finish(program, f, b, n, regs2, 1) == Some(regs2));
    lemma_finish_block(program, f, 0, regs, (1 + gap) as nat);
    assert(witnessed(expr, whole, (1 + gap) as nat, depth, regs2));
}

} // verus!

//! The printable form of a program: one paragraph for each function, with
//! a header, labelled blocks, instructions in three-address form and exits
//! in words.
//!
//! ```text
//! f1 (r0, r1) -> r4
//! main:
//!   r2 = r0 + r1
//!   if r2 goto b1 else goto b2
//! b1:
//!   r3 = 10
//!   goto b2
//! b2:
//!   r4 = phi(r2, r3, r0)
//!   r5,r6 = call f0 (r4, r1)
//!   return
//! ```

use crate::ir::{
    Block,
    BlockId,
    BlockView,
    ExitInstruction,
    Function,
    FunctionView,
    Instruction,
    InstructionView,
    Program,
    ProgramView,
    Var,
};
use crate::text::{decimal_text, digits, push_count, push_int};
use vstd::prelude::*;
use vstd::string::*;

verus! {

/// `r` and the number of the variable.
pub open spec fn var_text(var: Var) -> Seq<char> {
    "r"@ + digits(var.id as nat)
}

/// `b` and the number of the block.
pub open spec fn block_text(block: BlockId) -> Seq<char> {
    "b"@ + digits(block.id as nat)
}

/// The first `n` of `vars`, with `separator` between one and the next.
pub open spec fn vars_text(vars: Seq<Var>, separator: Seq<char>, n: nat) -> Seq<char>
    decreases n,
{
    if n == 0 {
        Seq::empty()
    } else if n == 1 {
        var_text(vars[0])
    } else {
        vars_text(vars, separator, (n - 1) as nat) + separator + var_text(vars[n - 1])
    }
}

/// An instruction in three-address form.
pub open spec fn instruction_text(inst: InstructionView) -> Seq<char> {
    match inst {
        InstructionView::AddInt { dest, a, b } => var_text(dest) + " = "@ + var_text(a) + " + "@
            + var_text(b),
        InstructionView::ConstantInt { dest, constant } => var_text(dest) + " = "@ + decimal_text(
            constant as int,
        ),
        InstructionView::Phi { dest, cond, a, b } => var_text(dest) + " = phi("@ + var_text(cond)
            + ", "@ + var_text(a) + ", "@ + var_text(b) + ")"@,
        InstructionView::Call { function, args, returns: dests } => (if dests.len() == 0 {
            Seq::empty()
        } else {
            vars_text(dests, ","@, dests.len()) + " = "@
        }) + "call f"@ + digits(function.id as nat) + " ("@ + vars_text(args, ", "@, args.len())
            + ")"@,
    }
}

/// An exit in words.
pub open spec fn exit_text(exit: ExitInstruction) -> Seq<char> {
    match exit {
        ExitInstruction::Return => "return"@,
        ExitInstruction::Branch { block } => "goto "@ + block_text(block),
        ExitInstruction::ConditionalBranch { cond, block1, block2 } => "if "@ + var_text(cond)
            + " goto "@ + block_text(block1) + " else goto "@ + block_text(block2),
    }
}

/// The first `n` instructions of `insts`, each on a line of its own behind
/// two spaces.
pub open spec fn instructions_text(insts: Seq<InstructionView>, n: nat) -> Seq<char>
    decreases n,
{
    if n == 0 {
        Seq::empty()
    } else {
        instructions_text(insts, (n - 1) as nat) + "  "@ + instruction_text(insts[n - 1]) + "\n"@
    }
}

/// A block: its label on a line of its own, which is `main:` for the first
/// block of a function and `b` with the number of the block for the others,
/// then its instructions and its exit.
pub open spec fn listed_block(block: BlockView, number: nat) -> Seq<char> {
    (if number == 0 {
        "main"@
    } else {
        "b"@ + digits(number)
    }) + ":\n"@ + instructions_text(block.insts, block.insts.len()) + "  "@ + exit_text(block.exit)
        + "\n"@
}

/// The first `n` blocks of `blocks`.
pub open spec fn listed_blocks(blocks: Seq<BlockView>, n: nat) -> Seq<char>
    decreases n,
{
    if n == 0 {
        Seq::empty()
    } else {
        listed_blocks(blocks, (n - 1) as nat) + listed_block(blocks[n - 1], (n - 1) as nat)
    }
}

/// A function: the header with its number, its parameters and its return
/// variables, then its blocks, then an empty line.
pub open spec fn listed_function(function: FunctionView, number: nat) -> Seq<char> {
    "f"@ + digits(number) + " ("@ + vars_text(function.params, ", "@, function.params.len())
        + ") -> "@ + vars_text(function.returns, ","@, function.returns.len()) + "\n"@
        + listed_blocks(function.blocks, function.blocks.len()) + "\n"@
}

/// The first `n` functions of `functions`.
pub open spec fn listed_functions(functions: Seq<FunctionView>, n: nat) -> Seq<char>
    decreases n,
{
    if n == 0 {
        Seq::empty()
    } else {
        listed_functions(functions, (n - 1) as nat) + listed_function(
            functions[n - 1],
            (n - 1) as nat,
        )
    }
}

/// The printable form of a program.
pub open spec fn listed(program: ProgramView) -> Seq<char> {
    listed_functions(program.functions, program.functions.len())
}

fn write_var(out: &mut String, var: Var)
    ensures
        final(out)@ == old(out)@ + var_text(var),
{
    out.append("r");
    push_count(out, var.get_id());
    assert(out@ =~= old(out)@ + var_text(var));
}

fn write_block_name(out: &mut String, block: BlockId)
    ensures
        final(out)@ == old(out)@ + block_text(block),
{
    out.append("b");
    push_count(out, block.get_id());
    assert(out@ =~= old(out)@ + block_text(block));
}

fn write_vars(out: &mut String, vars: &Vec<Var>, separator: &str)
    ensures
        final(out)@ == old(out)@ + vars_text(vars@, separator@, vars@.len()),
{
    let mut i: usize = 0;
    assert(out@ =~= old(out)@ + vars_text(vars@, separator@, 0));
    while i < vars.len()
        invariant
            i <= vars.len(),
            out@ == old(out)@ + vars_text(vars@, separator@, i as nat),
        decreases vars.len() - i,
    {
        if i > 0 {
            out.append(separator);
        }
        write_var(out, vars[i]);
        i += 1;
        assert(out@ =~= old(out)@ + vars_text(vars@, separator@, i as nat));
    }
}

fn write_instruction(out: &mut String, inst: &Instruction)
    ensures
        final(out)@ == old(out)@ + instruction_text(inst@),
{
    match inst {
        Instruction::AddInt { dest, a, b } => {
            write_var(out, *dest);
            out.append(" = ");
            write_var(out, *a);
            out.append(" + ");
            write_var(out, *b);
        },
        Instruction::ConstantInt { dest, constant } => {
            write_var(out, *dest);
            out.append(" = ");
            push_int(out, *constant);
        },
        Instruction::Phi { dest, cond, a, b } => {
            write_var(out, *dest);
            out.append(" = phi(");
            write_var(out, *cond);
            out.append(", ");
            write_var(out, *a);
            out.append(", ");
            write_var(out, *b);
            out.append(")");
        },
        Instruction::Call { function, args, returns: dests } => {
            if dests.len() > 0 {
                write_vars(out, dests, ",");
                out.append(" = ");
            }
            out.append("call f");
            push_count(out, function.get_id());
            out.append(" (");
            write_vars(out, args, ", ");
            out.append(")");
        },
    }
    assert(out@ =~= old(out)@ + instruction_text(inst@));
}

fn write_exit(out: &mut String, exit: &ExitInstruction)
    ensures
        final(out)@ == old(out)@ + exit_text(*exit),
{
    match exit {
        ExitInstruction::Return => {
            out.append("return");
        },
        ExitInstruction::Branch { block } => {
            out.append("goto ");
            write_block_name(out, *block);
        },
        ExitInstruction::ConditionalBranch { cond, block1, block2 } => {
            out.append("if ");
            write_var(out, *cond);
            out.append(" goto ");
            write_block_name(out, *block1);
            out.append(" else goto ");
            write_block_name(out, *block2);
        },
    }
    assert(out@ =~= old(out)@ + exit_text(*exit));
}

fn write_block(out: &mut String, block: &Block, number: usize)
    ensures
        final(out)@ == old(out)@ + listed_block(block@, number as nat),
{
    if number == 0 {
        out.append("main");
    } else {
        out.append("b");
        push_count(out, number);
    }
    out.append(":\n");
    let ghost head = out@;
    let insts = block.get_instructions();
    let mut i: usize = 0;
    assert(out@ =~= head + instructions_text(block@.insts, 0));
    while i < insts.len()
        invariant
            i <= insts.len(),
            insts@.len() == block@.insts.len(),
            forall|k: int| 0 <= k < insts@.len() ==> (#[trigger] insts@[k])@ == block@.insts[k],
            out@ == head + instructions_text(block@.insts, i as nat),
        decreases insts.len() - i,
    {
        out.append("  ");
        write_instruction(out, &insts[i]);
        out.append("\n");
        i += 1;
        assert(out@ =~= head + instructions_text(block@.insts, i as nat));
    }
    out.append("  ");
    write_exit(out, block.get_exit_instruction());
    out.append("\n");
    assert(out@ =~= old(out)@ + listed_block(block@, number as nat));
}

fn write_function(out: &mut String, function: &Function, number: usize)
    ensures
        final(out)@ == old(out)@ + listed_function(function@, number as nat),
{
    out.append("f");
    push_count(out, number);
    out.append(" (");
    write_vars(out, function.get_params(), ", ");
    out.append(") -> ");
    write_vars(out, function.get_returns(), ",");
    out.append("\n");
    let ghost head = out@;
    let count = function.block_count();
    let mut i: usize = 0;
    assert(out@ =~= head + listed_blocks(function@.blocks, 0));
    while i < count
        invariant
            i <= count,
            count == function@.blocks.len(),
            out@ == head + listed_blocks(function@.blocks, i as nat),
        decreases count - i,
    {
        write_block(out, function.get_block(BlockId { id: i }), i);
        i += 1;
        assert(out@ =~= head + listed_blocks(function@.blocks, i as nat));
    }
    out.append("\n");
    assert(out@ =~= old(out)@ + listed_function(function@, number as nat));
}

impl Program {
    /// The printable form of the program.
    pub fn to_text(&self) -> (text: String)
        ensures
            text@ == listed(self@),
    {
        let mut out = String::new();
        let functions = self.get_functions();
        let mut i: usize = 0;
        assert(out@ =~= listed_functions(self@.functions, 0));
        while i < functions.len()
            invariant
                i <= functions.len(),
                functions@.len() == self@.functions.len(),
                forall|f: int|
                    0 <= f < functions@.len() ==> (#[trigger] functions@[f])@ == self@.functions[f],
                out@ == listed_functions(self@.functions, i as nat),
            decreases functions.len() - i,
        {
            write_function(&mut out, &functions[i], i);
            i += 1;
        }
        out
    }
}

} // verus!

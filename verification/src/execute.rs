//! A reference interpreter for the intermediate representation. Each call
//! of a function runs on registers of its own, one for every variable of the
//! function.

use crate::ir::{
    BlockId,
    ExitInstruction,
    Function,
    FunctionId,
    Instruction,
    InstructionView,
    Program,
    ProgramView,
    Var,
};
use crate::text::{decimal_text, push_int};
use crate::types::{lemma_part_within, Type, TypeView};
use vstd::prelude::*;
use vstd::string::*;

verus! {

/// Whether the program can be run: every function has a first block, names
/// only variables and blocks that it has, and calls only functions of the
/// program with as many arguments and results as they declare.
pub open spec fn runnable(program: ProgramView) -> bool {
    forall|f: int|
        0 <= f < program.functions.len() ==> {
            &&& (#[trigger] program.functions[f]).blocks.len() > 0
            &&& program.functions[f].within()
            &&& program.functions[f].calls_fit(program)
        }
}

/// A well-formed program can be run.
pub proof fn lemma_well_formed_runnable(program: ProgramView)
    requires
        program.well_formed(),
    ensures
        runnable(program),
{
    assert forall|f: int| 0 <= f < program.functions.len() implies {
        &&& (#[trigger] program.functions[f]).blocks.len() > 0
        &&& program.functions[f].within()
        &&& program.functions[f].calls_fit(program)
    } by {
        assert(program.functions[f].well_formed(program));
    }
}

/// Tells whether every variable of `vars` is one of the first `count`.
pub fn vars_within(vars: &Vec<Var>, count: usize) -> (ok: bool)
    ensures
        ok == forall|k: int| 0 <= k < vars@.len() ==> (#[trigger] vars@[k]).id < count,
{
    let mut i: usize = 0;
    while i < vars.len()
        invariant
            i <= vars.len(),
            forall|k: int| 0 <= k < i ==> (#[trigger] vars@[k]).id < count,
        decreases vars.len() - i,
    {
        if vars[i].id >= count {
            return false;
        }
        i += 1;
    }
    true
}

/// Tells whether the instruction names only variables among the first
/// `count` and, if it is a call, fits the function of `program` that it
/// names.
fn instruction_fits(inst: &Instruction, count: usize, program: &Program) -> (ok: bool)
    ensures
        ok == (inst@.within(count as int) && inst@.call_fits(program@)),
{
    match inst {
        Instruction::AddInt { dest, a, b } => {
            proof {
                assert(inst@.defs()[0] == *dest);
                assert(inst@.uses()[0] == *a);
                assert(inst@.uses()[1] == *b);
            }
            dest.id < count && a.id < count && b.id < count
        },
        Instruction::ConstantInt { dest, .. } => {
            proof {
                assert(inst@.defs()[0] == *dest);
            }
            dest.id < count
        },
        Instruction::Phi { dest, cond, a, b } => {
            proof {
                assert(inst@.defs()[0] == *dest);
                assert(inst@.uses()[0] == *cond);
                assert(inst@.uses()[1] == *a);
                assert(inst@.uses()[2] == *b);
            }
            dest.id < count && cond.id < count && a.id < count && b.id < count
        },
        Instruction::Call { function, args, returns: dests } => {
            if function.id >= program.len() {
                return false;
            }
            let callee = program.get_function(*function);
            args.len() == callee.get_params().len() && dests.len() == callee.get_returns().len()
                && vars_within(dests, count) && vars_within(args, count)
        },
    }
}

/// Tells whether the function has a first block, names only variables and
/// blocks that it has, and calls only functions of `program` with as many
/// arguments and results as they declare.
fn function_fits(function: &Function, program: &Program) -> (ok: bool)
    ensures
        ok == (function@.blocks.len() > 0 && function@.within() && function@.calls_fit(program@)),
{
    let count = function.get_variable_count();
    let blocks = function.block_count();
    if blocks == 0 || !vars_within(function.get_params(), count) || !vars_within(
        function.get_returns(),
        count,
    ) {
        return false;
    }
    let mut b: usize = 0;
    while b < blocks
        invariant
            b <= blocks,
            blocks == function@.blocks.len(),
            count == function@.variable_count,
            forall|i: int|
                0 <= i < b ==> (#[trigger] function@.blocks[i]).within(count as int, blocks as int)
                    && function@.blocks[i].calls_fit(program@),
        decreases blocks - b,
    {
        let block = function.get_block(BlockId { id: b });
        let insts = block.get_instructions();
        let mut i: usize = 0;
        while i < insts.len()
            invariant
                i <= insts.len(),
                b < blocks,
                blocks == function@.blocks.len(),
                count == function@.variable_count,
                block@ == function@.blocks[b as int],
                insts@.len() == block@.insts.len(),
                forall|j: int| 0 <= j < insts@.len() ==> (#[trigger] insts@[j])@ == block@.insts[j],
                forall|j: int|
                    0 <= j < i ==> (#[trigger] block@.insts[j]).within(count as int)
                        && block@.insts[j].call_fits(program@),
            decreases insts.len() - i,
        {
            if !instruction_fits(&insts[i], count, program) {
                assert(!(block@.insts[i as int].within(count as int) && block@.insts[i as int].call_fits(
                    program@,
                )));
                assert(!(function@.blocks[b as int].within(count as int, blocks as int)
                    && function@.blocks[b as int].calls_fit(program@)));
                return false;
            }
            i += 1;
        }
        let fits = match block.get_exit_instruction() {
            ExitInstruction::Return => true,
            ExitInstruction::Branch { block: target } => target.id < blocks,
            ExitInstruction::ConditionalBranch { cond, block1, block2 } => cond.id < count
                && block1.id < blocks && block2.id < blocks,
        };
        if !fits {
            assert(!function@.blocks[b as int].within(count as int, blocks as int));
            return false;
        }
        b += 1;
    }
    true
}

impl Program {
    /// Tells whether the program can be run: whether a machine can be set
    /// up for each of its functions.
    pub fn is_runnable(&self) -> (ok: bool)
        ensures
            ok == runnable(self@),
    {
        let functions = self.get_functions();
        let mut f: usize = 0;
        while f < functions.len()
            invariant
                f <= functions.len(),
                functions@.len() == self@.functions.len(),
                forall|g: int|
                    0 <= g < functions@.len() ==> (#[trigger] functions@[g])@ == self@.functions[g],
                forall|g: int|
                    0 <= g < f ==> {
                        &&& (#[trigger] self@.functions[g]).blocks.len() > 0
                        &&& self@.functions[g].within()
                        &&& self@.functions[g].calls_fit(self@)
                    },
            decreases functions.len() - f,
        {
            if !function_fits(&functions[f], self) {
                assert(functions@[f as int]@ == self@.functions[f as int]);
                assert(!(self@.functions[f as int].blocks.len() > 0
                    && self@.functions[f as int].within()
                    && self@.functions[f as int].calls_fit(self@)));
                return false;
            }
            assert(functions@[f as int]@ == self@.functions[f as int]);
            f += 1;
        }
        true
    }
}

/// The values of the registers `vars`.
pub open spec fn read_all(regs: Seq<i32>, vars: Seq<Var>) -> Seq<i32> {
    Seq::new(vars.len(), |k: int| regs[vars[k].id as int])
}

/// The registers after the first `n` of `vars` were set to the first `n` of
/// `values`, one after the other.
pub open spec fn write_all(regs: Seq<i32>, vars: Seq<Var>, values: Seq<i32>, n: nat) -> Seq<i32>
    decreases n,
{
    if n == 0 {
        regs
    } else {
        write_all(regs, vars, values, (n - 1) as nat).update(
            vars[n - 1].id as int,
            values[n - 1],
        )
    }
}

/// The registers of a function when it is entered: all zero.
pub open spec fn cleared(count: nat) -> Seq<i32> {
    Seq::new(count, |i: int| 0i32)
}

/// The registers after the first `n` instructions of `insts` were run in
/// function `f`, or nothing if the fuel did not last.
pub open spec fn run_insts(
    program: ProgramView,
    insts: Seq<InstructionView>,
    n: nat,
    regs: Seq<i32>,
    fuel: nat,
) -> Option<Seq<i32>>
    decreases fuel, 2nat, n,
{
    if n == 0 {
        Some(regs)
    } else {
        match run_insts(program, insts, (n - 1) as nat, regs, fuel) {
            None => None,
            Some(regs) => match insts[n - 1] {
                InstructionView::AddInt { dest, a, b } => Some(
                    regs.update(
                        dest.id as int,
                        regs[a.id as int].wrapping_add(regs[b.id as int]),
                    ),
                ),
                InstructionView::ConstantInt { dest, constant } => Some(
                    regs.update(dest.id as int, constant),
                ),
                InstructionView::Phi { dest, cond, a, b } => Some(
                    regs.update(
                        dest.id as int,
                        if regs[cond.id as int] != 0 {
                            regs[a.id as int]
                        } else {
                            regs[b.id as int]
                        },
                    ),
                ),
                InstructionView::Call { function, args, returns: dests } => match run_call(
                    program,
                    function.id as int,
                    read_all(regs, args),
                    fuel,
                ) {
                    None => None,
                    Some(values) => Some(write_all(regs, dests, values, dests.len())),
                },
            },
        }
    }
}

/// What function `f` returns for the arguments `args`, or nothing if the
/// fuel did not last. The function starts at its first block with the
/// arguments in its parameters and zero in all other registers.
pub open spec fn run_call(program: ProgramView, f: int, args: Seq<i32>, fuel: nat) -> Option<
    Seq<i32>,
>
    decreases fuel, 1nat, 0nat,
{
    let function = program.functions[f];
    let regs = write_all(
        cleared(function.variable_count as nat),
        function.params,
        args,
        function.params.len(),
    );
    match run_block(program, f, 0, regs, fuel) {
        None => None,
        Some(regs) => Some(read_all(regs, function.returns)),
    }
}

/// The registers when function `f`, started at block `b` with the registers
/// `regs`, returns, or nothing if the fuel did not last. Every block that is
/// entered, in this function or in one that it calls, takes one unit of the
/// fuel of its caller.
pub open spec fn run_block(program: ProgramView, f: int, b: int, regs: Seq<i32>, fuel: nat) -> Option<
    Seq<i32>,
>
    decreases fuel, 0nat, 0nat,
{
    if fuel == 0 {
        None
    } else {
        let block = program.functions[f].blocks[b];
        match run_insts(program, block.insts, block.insts.len(), regs, (fuel - 1) as nat) {
            None => None,
            Some(regs) => match block.exit {
                ExitInstruction::Return => Some(regs),
                ExitInstruction::Branch { block } => run_block(
                    program,
                    f,
                    block.id as int,
                    regs,
                    (fuel - 1) as nat,
                ),
                ExitInstruction::ConditionalBranch { cond, block1, block2 } => run_block(
                    program,
                    f,
                    if regs[cond.id as int] != 0 {
                        block1.id as int
                    } else {
                        block2.id as int
                    },
                    regs,
                    (fuel - 1) as nat,
                ),
            },
        }
    }
}

pub struct VirtualMachine<'a> {
    register_file: Vec<i32>,
    program: &'a Program,
    function: FunctionId,
}

impl<'a> VirtualMachine<'a> {
    /// The values of the registers.
    pub closed spec fn registers(&self) -> Seq<i32> {
        self.register_file@
    }

    /// The program that the machine runs.
    pub closed spec fn program(&self) -> ProgramView {
        self.program@
    }

    /// The function that the machine runs.
    pub closed spec fn function(&self) -> FunctionId {
        self.function
    }

    /// Whether the machine is set up for a function of a program that can
    /// be run, with one register for each variable.
    pub open spec fn well_formed(&self) -> bool {
        &&& runnable(self.program())
        &&& self.function().id < self.program().functions.len()
        &&& self.registers().len() == self.program().functions[self.function().id as int].variable_count
    }

    /// A machine for `function` of `program` with all registers at zero.
    pub fn new(program: &'a Program, function: FunctionId) -> (vm: VirtualMachine<'a>)
        requires
            function.id < program@.functions.len(),
        ensures
            vm.program() == program@,
            vm.function() == function,
            vm.registers() == cleared(program@.functions[function.id as int].variable_count as nat),
    {
        let count = program.get_variable_count(function);
        let mut register_file: Vec<i32> = Vec::new();
        let mut i: usize = 0;
        while i < count
            invariant
                i <= count,
                register_file@ == cleared(i as nat),
            decreases count - i,
        {
            register_file.push(0);
            i += 1;
            assert(register_file@ =~= cleared(i as nat));
        }
        VirtualMachine { register_file, program, function }
    }

    pub fn set_register(&mut self, reg: Var, value: i32)
        requires
            reg.id < old(self).registers().len(),
        ensures
            final(self).registers() == old(self).registers().update(reg.id as int, value),
            final(self).program() == old(self).program(),
            final(self).function() == old(self).function(),
    {
        self.register_file[reg.get_id()] = value;
    }

    pub fn get_register(&self, reg: Var) -> (value: i32)
        requires
            reg.id < self.registers().len(),
        ensures
            value == self.registers()[reg.id as int],
    {
        self.register_file[reg.get_id()]
    }

    /// Calls `callee` with the values of `args` and stores what it returns
    /// in `dests`. Tells whether the fuel lasted.
    fn call(&mut self, callee: FunctionId, args: &Vec<Var>, dests: &Vec<Var>, fuel: usize) -> (done:
        bool)
        requires
            old(self).well_formed(),
            (InstructionView::Call { function: callee, args: args@, returns: dests@ }).within(
                old(self).registers().len() as int,
            ),
            (InstructionView::Call { function: callee, args: args@, returns: dests@ }).call_fits(
                old(self).program(),
            ),
        ensures
            final(self).program() == old(self).program(),
            final(self).function() == old(self).function(),
            final(self).registers().len() == old(self).registers().len(),
            match run_call(
                old(self).program(),
                callee.id as int,
                read_all(old(self).registers(), args@),
                fuel as nat,
            ) {
                Some(values) => done && final(self).registers() == write_all(
                    old(self).registers(),
                    dests@,
                    values,
                    dests@.len(),
                ),
                None => !done,
            },
        decreases fuel, 1nat, 0nat,
    {
        let ghost inst = InstructionView::Call { function: callee, args: args@, returns: dests@ };
        let ghost program = self.program@;
        let ghost regs = self.register_file@;
        let target = self.program.get_function(callee);
        let ghost function = program.functions[callee.id as int];
        let mut vm = VirtualMachine::new(self.program, callee);
        let params = target.get_params();
        proof {
            assert(function.within());
            assert forall|k: int| 0 <= k < args@.len() implies (#[trigger] args@[k]).id
                < regs.len() by {
                assert(inst.uses()[k] == args@[k]);
            }
            assert forall|k: int| 0 <= k < dests@.len() implies (#[trigger] dests@[k]).id
                < regs.len() by {
                assert(inst.defs()[k] == dests@[k]);
            }
        }
        let mut i: usize = 0;
        while i < params.len()
            invariant
                i <= params.len(),
                params@ == function.params,
                args@.len() == params@.len(),
                function == program.functions[callee.id as int],
                function.within(),
                regs == self.register_file@,
                vm.program@ == program,
                vm.function == callee,
                vm.register_file@.len() == function.variable_count,
                forall|k: int| 0 <= k < args@.len() ==> (#[trigger] args@[k]).id < regs.len(),
                vm.register_file@ == write_all(
                    cleared(function.variable_count as nat),
                    params@,
                    read_all(regs, args@),
                    i as nat,
                ),
            decreases params.len() - i,
        {
            assert(function.params[i as int].id < function.variable_count);
            let value = self.register_file[args[i].get_id()];
            vm.register_file[params[i].get_id()] = value;
            i += 1;
        }
        let done = vm.execute(BlockId::entry(), fuel);
        if !done {
            return false;
        }
        let results = target.get_returns();
        let ghost values = read_all(vm.register_file@, results@);
        let mut j: usize = 0;
        while j < dests.len()
            invariant
                j <= dests.len(),
                results@ == function.returns,
                dests@.len() == results@.len(),
                function.within(),
                vm.register_file@.len() == function.variable_count,
                values == read_all(vm.register_file@, results@),
                self.program@ == program,
                self.function == old(self).function,
                self.register_file@.len() == regs.len(),
                forall|k: int| 0 <= k < dests@.len() ==> (#[trigger] dests@[k]).id < regs.len(),
                self.register_file@ == write_all(regs, dests@, values, j as nat),
            decreases dests.len() - j,
        {
            assert(function.returns[j as int].id < function.variable_count);
            let value = vm.register_file[results[j].get_id()];
            self.register_file[dests[j].get_id()] = value;
            j += 1;
        }
        true
    }

    /// Runs the function from `block` on until it returns, and tells whether
    /// the fuel lasted: every block that is entered, here or in a function
    /// that is called, takes one unit of the fuel of its caller.
    pub fn execute(&mut self, block: BlockId, fuel: usize) -> (done: bool)
        requires
            old(self).well_formed(),
            block.id < old(self).program().functions[old(self).function().id as int].blocks.len(),
        ensures
            final(self).program() == old(self).program(),
            final(self).function() == old(self).function(),
            final(self).registers().len() == old(self).registers().len(),
            match run_block(
                old(self).program(),
                old(self).function().id as int,
                block.id as int,
                old(self).registers(),
                fuel as nat,
            ) {
                Some(regs) => done && final(self).registers() == regs,
                None => !done,
            },
        decreases fuel, 0nat, 0nat,
    {
        if fuel == 0 {
            return false;
        }
        let ghost program = self.program@;
        let ghost start = self.register_file@;
        let current = self.program.get_block(self.function, block);
        let ghost view = program.functions[self.function.id as int].blocks[block.id as int];
        proof {
            assert(program.functions[self.function.id as int].within());
            assert(program.functions[self.function.id as int].calls_fit(program));
            assert(view.within(
                start.len() as int,
                program.functions[self.function.id as int].blocks.len() as int,
            ));
            assert(view.calls_fit(program));
        }
        let insts = current.get_instructions();
        let mut i: usize = 0;
        while i < insts.len()
            invariant
                i <= insts.len(),
                fuel > 0,
                insts@.len() == view.insts.len(),
                forall|k: int| 0 <= k < insts@.len() ==> (#[trigger] insts@[k])@ == view.insts[k],
                forall|k: int|
                    0 <= k < view.insts.len() ==> (#[trigger] view.insts[k]).within(
                        start.len() as int,
                    ),
                forall|k: int|
                    0 <= k < view.insts.len() ==> (#[trigger] view.insts[k]).call_fits(program),
                self.well_formed(),
                self.program@ == program,
                program == old(self).program(),
                start == old(self).registers(),
                view == program.functions[self.function.id as int].blocks[block.id as int],
                self.function == old(self).function,
                self.register_file@.len() == start.len(),
                run_insts(program, view.insts, i as nat, start, (fuel - 1) as nat) == Some(
                    self.register_file@,
                ),
            decreases insts.len() - i,
        {
            let ghost inst = view.insts[i as int];
            assert(inst.within(start.len() as int));
            assert(inst.call_fits(program));
            assert(insts@[i as int]@ == inst);
            match &insts[i] {
                Instruction::AddInt { dest, a, b } => {
                    assert(inst.defs()[0] == *dest);
                    assert(inst.uses()[0] == *a);
                    assert(inst.uses()[1] == *b);
                    let x = self.get_register(*a);
                    let y = self.get_register(*b);
                    self.set_register(*dest, x.wrapping_add(y));
                },
                Instruction::ConstantInt { dest, constant } => {
                    assert(inst.defs()[0] == *dest);
                    self.set_register(*dest, *constant);
                },
                Instruction::Phi { dest, cond, a, b } => {
                    assert(inst.defs()[0] == *dest);
                    assert(inst.uses()[0] == *cond);
                    assert(inst.uses()[1] == *a);
                    assert(inst.uses()[2] == *b);
                    let value = if self.get_register(*cond) != 0 {
                        self.get_register(*a)
                    } else {
                        self.get_register(*b)
                    };
                    self.set_register(*dest, value);
                },
                Instruction::Call { function, args, returns: dests } => {
                    if !self.call(*function, args, dests, fuel - 1) {
                        proof {
                            lemma_run_insts_stuck(
                                program,
                                view.insts,
                                (i + 1) as nat,
                                view.insts.len(),
                                start,
                                (fuel - 1) as nat,
                            );
                        }
                        return false;
                    }
                },
            }
            i += 1;
        }
        match current.get_exit_instruction() {
            ExitInstruction::Branch { block: target } => self.execute(*target, fuel - 1),
            ExitInstruction::ConditionalBranch { cond, block1, block2 } => {
                if self.get_register(*cond) != 0 {
                    self.execute(*block1, fuel - 1)
                } else {
                    self.execute(*block2, fuel - 1)
                }
            },
            ExitInstruction::Return => true,
        }
    }
}

/// How a value of type `ty` reads when its variables are in the registers
/// `regs`. An integer reads as its decimal text and a truth value as `true`
/// if it is 1 and as `false` if not. A value that may be absent reads as
/// `some(..)` around the value if its tag is not zero, and as `none` if it
/// is. A tuple reads as its parts, one right after the other.
pub open spec fn rendered<'a>(ty: TypeView<'a>, regs: Seq<i32>) -> Seq<char>
    decreases ty,
{
    match ty {
        TypeView::Int(var) => decimal_text(regs[var.id as int] as int),
        TypeView::Bool(var) => if regs[var.id as int] == 1 {
            "true"@
        } else {
            "false"@
        },
        TypeView::Maybe(tag, inner) => if regs[tag.id as int] != 0 {
            "some("@ + rendered(*inner, regs) + ")"@
        } else {
            "none"@
        },
        TypeView::Tuple(types) => rendered_all(types, regs, types.len()),
        TypeView::Func { .. } => Seq::empty(),
    }
}

/// How the first `n` of `types` read, one right after the other.
pub open spec fn rendered_all<'a>(types: Seq<TypeView<'a>>, regs: Seq<i32>, n: nat) -> Seq<char>
    decreases types, n,
{
    if n == 0 || n > types.len() {
        Seq::empty()
    } else {
        rendered_all(types, regs, (n - 1) as nat) + rendered(types[n - 1], regs)
    }
}

impl<'a> VirtualMachine<'a> {
    /// Appends to `out` how a value of type `ty` reads.
    fn write_ty<'b, 'c>(&self, ty: &Type<'b, 'c>, out: &mut String)
        requires
            !ty@.holds_function(),
            ty@.within(self.registers().len() as int),
        ensures
            final(out)@ == old(out)@ + rendered(ty@, self.registers()),
        decreases ty,
    {
        match ty {
            Type::Int(var) => {
                assert(ty@.vars()[0] == *var);
                push_int(out, self.get_register(*var));
            },
            Type::Bool(var) => {
                assert(ty@.vars()[0] == *var);
                if self.get_register(*var) == 1 {
                    out.append("true");
                } else {
                    out.append("false");
                }
            },
            Type::Maybe(tag, inner) => {
                assert(ty@.vars() =~= seq![*tag] + inner@.vars());
                assert(ty@.vars()[0] == *tag);
                if self.get_register(*tag) != 0 {
                    assert forall|k: int| 0 <= k < inner@.vars().len() implies (
                    #[trigger] inner@.vars()[k]).id < self.registers().len() by {
                        assert(ty@.vars()[k + 1] == inner@.vars()[k]);
                    }
                    out.append("some(");
                    self.write_ty(inner, out);
                    out.append(")");
                    assert(out@ =~= old(out)@ + rendered(ty@, self.registers()));
                } else {
                    out.append("none");
                }
            },
            Type::Tuple(types) => {
                let ghost views = Type::models(types@);
                let mut i: usize = 0;
                assert(out@ =~= old(out)@ + rendered_all(views, self.registers(), 0));
                while i < types.len()
                    invariant
                        i <= types.len(),
                        views == Type::models(types@),
                        ty@ == TypeView::Tuple(views),
                        !ty@.holds_function(),
                        ty@.within(self.registers().len() as int),
                        *ty == Type::Tuple(*types),
                        decreases_to!(ty => types),
                        out@ == old(out)@ + rendered_all(views, self.registers(), i as nat),
                    decreases types.len() - i,
                {
                    proof {
                        lemma_part_within(views, i as int, self.registers().len() as int);
                        assert(views[i as int] == types@[i as int]@);
                        if views[i as int].holds_function() {
                            assert(ty@->Tuple_0[i as int].holds_function());
                            assert(ty@.holds_function());
                        }
                    }
                    let ghost before = out@;
                    self.write_ty(&types[i], out);
                    i += 1;
                    assert(out@ =~= old(out)@ + rendered_all(views, self.registers(), i as nat));
                }
            },
            Type::Func { .. } => {
                assert(out@ =~= old(out)@ + rendered(ty@, self.registers()));
            },
        }
    }

    /// How a value of type `ty` reads when its variables are in the
    /// registers of the machine.
    pub fn format_ty<'b, 'c>(&self, ty: &Type<'b, 'c>) -> (text: String)
        requires
            !ty@.holds_function(),
            ty@.within(self.registers().len() as int),
        ensures
            text@ == rendered(ty@, self.registers()),
    {
        let mut text = String::new();
        self.write_ty(ty, &mut text);
        assert(text@ =~= rendered(ty@, self.registers()));
        text
    }
}

/// Once the fuel has run out in an instruction, the block does not finish.
pub proof fn lemma_run_insts_stuck(
    program: ProgramView,
    insts: Seq<InstructionView>,
    n: nat,
    m: nat,
    regs: Seq<i32>,
    fuel: nat,
)
    requires
        n <= m,
        run_insts(program, insts, n, regs, fuel) is None,
    ensures
        run_insts(program, insts, m, regs, fuel) is None,
    decreases m,
{
    if m > n {
        lemma_run_insts_stuck(program, insts, n, (m - 1) as nat, regs, fuel);
    }
}

} // verus!

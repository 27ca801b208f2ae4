//! The intermediate representation: a program is a list of functions, a
//! function a list of basic blocks over its own variables, and a block a run
//! of straight-line instructions closed by one exit.

use vstd::prelude::*;

verus! {

/// A variable of one function. Variables are numbered densely from zero.
#[derive(Debug, Copy, Clone, Hash, PartialEq, Eq, Structural)]
pub struct Var {
    pub id: usize,
}

/// The number of a block within its function.
#[derive(Debug, Copy, Clone, PartialEq, Eq, Structural)]
pub struct BlockId {
    pub id: usize,
}

/// The number of a function within its program.
#[derive(Debug, Copy, Clone, PartialEq, Eq, Structural)]
pub struct FunctionId {
    pub id: usize,
}

#[derive(Debug)]
pub enum Instruction {
    /// `dest = a + b`
    AddInt { dest: Var, a: Var, b: Var },
    /// `dest = constant`
    ConstantInt { dest: Var, constant: i32 },
    /// `dest = if cond != 0 { a } else { b }`
    Phi { dest: Var, cond: Var, a: Var, b: Var },
    /// Calls `function` with the values of `args` and stores what it returns
    /// in `returns`.
    Call { function: FunctionId, args: Vec<Var>, returns: Vec<Var> },
}

#[derive(Debug, Copy, Clone, PartialEq, Eq, Structural)]
pub enum ExitInstruction {
    Branch { block: BlockId },
    ConditionalBranch { cond: Var, block1: BlockId, block2: BlockId },
    Return,
}

#[derive(Debug)]
pub struct Block {
    insts: Vec<Instruction>,
    exit: ExitInstruction,
    id: usize,
    committed: bool,
}

#[derive(Debug)]
pub struct Function {
    params: Vec<Var>,
    returns: Vec<Var>,
    variable_count: usize,
    blocks: Vec<Block>,
}

#[derive(Debug)]
pub struct Program {
    functions: Vec<Function>,
}

/// An instruction as a mathematical value.
pub enum InstructionView {
    AddInt { dest: Var, a: Var, b: Var },
    ConstantInt { dest: Var, constant: i32 },
    Phi { dest: Var, cond: Var, a: Var, b: Var },
    Call { function: FunctionId, args: Seq<Var>, returns: Seq<Var> },
}

/// A block as a mathematical value. `committed` tells whether its exit has
/// been installed.
pub struct BlockView {
    pub insts: Seq<InstructionView>,
    pub exit: ExitInstruction,
    pub id: usize,
    pub committed: bool,
}

/// A function as a mathematical value.
pub struct FunctionView {
    pub params: Seq<Var>,
    pub returns: Seq<Var>,
    pub variable_count: usize,
    pub blocks: Seq<BlockView>,
}

/// A program as a mathematical value.
pub struct ProgramView {
    pub functions: Seq<FunctionView>,
}

/// What `Block::call` appends fits the function that it calls: it passes
/// the arguments that it was given, as many as the function has parameters,
/// and takes as many results as the function returns, in the next variables
/// from number `first` on.
pub proof fn lemma_call_law(program: ProgramView, callee: FunctionId, args: Seq<Var>, first: int)
    requires
        callee.id < program.functions.len(),
        args.len() == program.functions[callee.id as int].params.len(),
    ensures
        (InstructionView::Call {
            function: callee,
            args,
            returns: var_range(first, program.functions[callee.id as int].returns.len()),
        }).call_fits(program),
        var_range(first, program.functions[callee.id as int].returns.len()).len()
            == program.functions[callee.id as int].returns.len(),
{
}

/// Installing a block a second time changes nothing: the slot holds what the
/// first time put there.
pub proof fn lemma_overlay_twice(function: FunctionView, block: BlockView)
    requires
        block.id < function.blocks.len(),
    ensures
        function.overlay(block).overlay(block) == function.overlay(block),
{
    assert(function.blocks.update(block.id as int, block).update(block.id as int, block)
        =~= function.blocks.update(block.id as int, block));
}

/// The variables `Var { id: first }`, `Var { id: first + 1 }`, ... , `count`
/// of them.
pub open spec fn var_range(first: int, count: nat) -> Seq<Var> {
    Seq::new(count, |i: int| Var { id: (first + i) as usize })
}

impl InstructionView {
    /// The variables that the instruction writes.
    pub open spec fn defs(self) -> Seq<Var> {
        match self {
            InstructionView::AddInt { dest, .. } => seq![dest],
            InstructionView::ConstantInt { dest, .. } => seq![dest],
            InstructionView::Phi { dest, .. } => seq![dest],
            InstructionView::Call { returns: written, .. } => written,
        }
    }

    /// The variables that the instruction reads.
    pub open spec fn uses(self) -> Seq<Var> {
        match self {
            InstructionView::AddInt { a, b, .. } => seq![a, b],
            InstructionView::ConstantInt { .. } => seq![],
            InstructionView::Phi { cond, a, b, .. } => seq![cond, a, b],
            InstructionView::Call { args, .. } => args,
        }
    }

    /// Every variable that the instruction names is one of the first `count`.
    pub open spec fn within(self, count: int) -> bool {
        &&& forall|k: int| 0 <= k < self.defs().len() ==> (#[trigger] self.defs()[k]).id < count
        &&& forall|k: int| 0 <= k < self.uses().len() ==> (#[trigger] self.uses()[k]).id < count
    }

    /// A call names a function of `program` and passes and receives as many
    /// values as that function declares.
    pub open spec fn call_fits(self, program: ProgramView) -> bool {
        self matches InstructionView::Call { function, args, returns: written } ==> {
            &&& function.id < program.functions.len()
            &&& args.len() == program.functions[function.id as int].params.len()
            &&& written.len() == program.functions[function.id as int].returns.len()
        }
    }
}

impl ExitInstruction {
    /// The variables that the exit reads.
    pub open spec fn uses(self) -> Seq<Var> {
        match self {
            ExitInstruction::ConditionalBranch { cond, .. } => seq![cond],
            _ => seq![],
        }
    }

    /// The exit reads one of the first `count` variables, if any, and
    /// continues with one of the first `blocks` blocks, if any.
    pub open spec fn within(self, count: int, blocks: int) -> bool {
        match self {
            ExitInstruction::Branch { block } => block.id < blocks,
            ExitInstruction::ConditionalBranch { cond, block1, block2 } => {
                &&& cond.id < count
                &&& block1.id < blocks
                &&& block2.id < blocks
            },
            ExitInstruction::Return => true,
        }
    }
}

impl BlockView {
    /// The block that `new_block` registers under number `id`: no
    /// instructions and no exit installed yet.
    pub open spec fn fresh(id: usize) -> BlockView {
        BlockView { insts: seq![], exit: ExitInstruction::Return, id, committed: false }
    }

    /// The block with one more instruction at its end.
    pub open spec fn with(self, inst: InstructionView) -> BlockView {
        BlockView { insts: self.insts.push(inst), ..self }
    }

    /// The block closed by `exit`.
    pub open spec fn closed_by(self, exit: ExitInstruction) -> BlockView {
        BlockView { exit, committed: true, ..self }
    }

    /// Every variable and block that the block names exists in a function
    /// with `count` variables and `blocks` blocks.
    pub open spec fn within(self, count: int, blocks: int) -> bool {
        &&& forall|i: int| 0 <= i < self.insts.len() ==> (#[trigger] self.insts[i]).within(count)
        &&& self.exit.within(count, blocks)
    }

    /// Every call in the block fits the function it names.
    pub open spec fn calls_fit(self, program: ProgramView) -> bool {
        forall|i: int| 0 <= i < self.insts.len() ==> (#[trigger] self.insts[i]).call_fits(program)
    }
}

impl FunctionView {
    /// A function without parameters, variables or blocks.
    pub open spec fn empty() -> FunctionView {
        FunctionView { params: seq![], returns: seq![], variable_count: 0, blocks: seq![] }
    }

    /// The function after `n` more variables have been handed out.
    pub open spec fn grown(self, n: int) -> FunctionView {
        FunctionView { variable_count: (self.variable_count + n) as usize, ..self }
    }

    /// The function with `block` in the slot of its number.
    pub open spec fn overlay(self, block: BlockView) -> FunctionView {
        FunctionView { blocks: self.blocks.update(block.id as int, block), ..self }
    }

    /// Each block carries the number of its slot.
    pub open spec fn numbered(self) -> bool {
        forall|i: int| 0 <= i < self.blocks.len() ==> (#[trigger] self.blocks[i]).id == i
    }

    /// Every variable and block named anywhere in the function exists.
    pub open spec fn within(self) -> bool {
        &&& forall|k: int|
            0 <= k < self.params.len() ==> (#[trigger] self.params[k]).id < self.variable_count
        &&& forall|k: int|
            0 <= k < self.returns.len() ==> (#[trigger] self.returns[k]).id < self.variable_count
        &&& forall|i: int|
            0 <= i < self.blocks.len() ==> (#[trigger] self.blocks[i]).within(
                self.variable_count as int,
                self.blocks.len() as int,
            )
    }

    /// Every block has its exit installed.
    pub open spec fn closed(self) -> bool {
        forall|i: int| 0 <= i < self.blocks.len() ==> (#[trigger] self.blocks[i]).committed
    }

    /// Every call in the function fits the function of `program` it names.
    pub open spec fn calls_fit(self, program: ProgramView) -> bool {
        forall|i: int| 0 <= i < self.blocks.len() ==> (#[trigger] self.blocks[i]).calls_fit(program)
    }

    /// Whether `(b, i, k)` names a place where a variable is written: the
    /// `k`-th variable written by instruction `i` of block `b`.
    pub open spec fn is_site(self, b: int, i: int, k: int) -> bool {
        &&& 0 <= b < self.blocks.len()
        &&& 0 <= i < self.blocks[b].insts.len()
        &&& 0 <= k < self.blocks[b].insts[i].defs().len()
    }

    /// The variable written at the site `(b, i, k)`.
    pub open spec fn def_at(self, b: int, i: int, k: int) -> Var {
        self.blocks[b].insts[i].defs()[k]
    }

    /// Single assignment: no variable is written at two sites, none is
    /// declared as a parameter twice, and none is both a parameter and
    /// written by an instruction.
    pub open spec fn single_assignment(self) -> bool {
        &&& forall|b1: int, i1: int, k1: int, b2: int, i2: int, k2: int|
            #![trigger self.is_site(b1, i1, k1), self.is_site(b2, i2, k2)]
            self.is_site(b1, i1, k1) && self.is_site(b2, i2, k2) && self.def_at(b1, i1, k1)
                == self.def_at(b2, i2, k2) ==> b1 == b2 && i1 == i2 && k1 == k2
        &&& forall|p: int, q: int|
            #![trigger self.params[p], self.params[q]]
            0 <= p < self.params.len() && 0 <= q < self.params.len() && self.params[p]
                == self.params[q] ==> p == q
        &&& forall|p: int, b: int, i: int, k: int|
            #![trigger self.params[p], self.is_site(b, i, k)]
            0 <= p < self.params.len() && self.is_site(b, i, k) ==> self.params[p] != self.def_at(
                b,
                i,
                k,
            )
    }

    /// Whether no instruction reads a variable that it writes itself or
    /// that a later instruction of its block writes: within a block,
    /// every variable is written before it is read.
    pub open spec fn ordered(self) -> bool {
        forall|b: int, reader: int, j: int, writer: int, k: int|
            #![trigger self.blocks[b].insts[reader].uses()[j], self.is_site(b, writer, k)]
            0 <= reader <= writer && 0 <= j < self.blocks[b].insts[reader].uses().len()
                && self.is_site(b, writer, k) ==> self.blocks[b].insts[reader].uses()[j].id
                < self.def_at(b, writer, k).id
    }

    /// A function as it stands in a finished program: its blocks are
    /// numbered and closed, everything it names exists, and its calls fit.
    pub open spec fn well_formed(self, program: ProgramView) -> bool {
        &&& self.blocks.len() > 0
        &&& self.numbered()
        &&& self.within()
        &&& self.closed()
        &&& self.calls_fit(program)
    }
}

impl ProgramView {
    /// Every function of the program is well formed.
    pub open spec fn well_formed(self) -> bool {
        forall|f: int| 0 <= f < self.functions.len() ==> (#[trigger] self.functions[f]).well_formed(self)
    }

    /// Every function of the program is in single-assignment form.
    pub open spec fn single_assignment(self) -> bool {
        forall|f: int|
            0 <= f < self.functions.len() ==> (#[trigger] self.functions[f]).single_assignment()
    }

    /// In every function of the program, every variable is written
    /// before it is read within a block.
    pub open spec fn ordered(self) -> bool {
        forall|f: int| 0 <= f < self.functions.len() ==> (#[trigger] self.functions[f]).ordered()
    }

    /// The program with one more function at its end.
    pub open spec fn with(self, function: FunctionView) -> ProgramView {
        ProgramView { functions: self.functions.push(function) }
    }

    /// Whether `self` is `other` followed by further functions.
    pub open spec fn extends(self, other: ProgramView) -> bool {
        other.functions.is_prefix_of(self.functions)
    }
}

impl View for Instruction {
    type V = InstructionView;

    open spec fn view(&self) -> InstructionView {
        match self {
            Instruction::AddInt { dest, a, b } => InstructionView::AddInt {
                dest: *dest,
                a: *a,
                b: *b,
            },
            Instruction::ConstantInt { dest, constant } => InstructionView::ConstantInt {
                dest: *dest,
                constant: *constant,
            },
            Instruction::Phi { dest, cond, a, b } => InstructionView::Phi {
                dest: *dest,
                cond: *cond,
                a: *a,
                b: *b,
            },
            Instruction::Call { function, args, returns: written } => InstructionView::Call {
                function: *function,
                args: args@,
                returns: written@,
            },
        }
    }
}

impl View for Block {
    type V = BlockView;

    closed spec fn view(&self) -> BlockView {
        BlockView {
            insts: self.insts@.map_values(|inst: Instruction| inst@),
            exit: self.exit,
            id: self.id,
            committed: self.committed,
        }
    }
}

impl View for Function {
    type V = FunctionView;

    closed spec fn view(&self) -> FunctionView {
        FunctionView {
            params: self.params@,
            returns: self.returns@,
            variable_count: self.variable_count,
            blocks: self.blocks@.map_values(|block: Block| block@),
        }
    }
}

impl View for Program {
    type V = ProgramView;

    closed spec fn view(&self) -> ProgramView {
        ProgramView { functions: self.functions@.map_values(|function: Function| function@) }
    }
}

/// A copy of a list of variables.
pub fn copy_vars(vars: &Vec<Var>) -> (copy: Vec<Var>)
    ensures
        copy@ == vars@,
{
    let mut copy: Vec<Var> = Vec::new();
    let mut i: usize = 0;
    while i < vars.len()
        invariant
            i <= vars.len(),
            copy@ == vars@.subrange(0, i as int),
        decreases vars.len() - i,
    {
        copy.push(vars[i]);
        i += 1;
        assert(copy@ =~= vars@.subrange(0, i as int));
    }
    assert(vars@.subrange(0, vars.len() as int) =~= vars@);
    copy
}

impl Clone for Instruction {
    fn clone(&self) -> (copy: Instruction)
        ensures
            copy@ == self@,
    {
        match self {
            Instruction::AddInt { dest, a, b } => Instruction::AddInt { dest: *dest, a: *a, b: *b },
            Instruction::ConstantInt { dest, constant } => Instruction::ConstantInt {
                dest: *dest,
                constant: *constant,
            },
            Instruction::Phi { dest, cond, a, b } => Instruction::Phi {
                dest: *dest,
                cond: *cond,
                a: *a,
                b: *b,
            },
            Instruction::Call { function, args, returns: written } => Instruction::Call {
                function: *function,
                args: copy_vars(args),
                returns: copy_vars(written),
            },
        }
    }
}

impl Clone for Block {
    fn clone(&self) -> (copy: Block)
        ensures
            copy@ == self@,
    {
        let mut insts: Vec<Instruction> = Vec::new();
        let mut i: usize = 0;
        while i < self.insts.len()
            invariant
                i <= self.insts.len(),
                insts@.len() == i,
                forall|j: int| 0 <= j < i ==> (#[trigger] insts@[j])@ == self.insts@[j]@,
            decreases self.insts.len() - i,
        {
            insts.push(self.insts[i].clone());
            i += 1;
        }
        let copy = Block { insts, exit: self.exit, id: self.id, committed: self.committed };
        assert(copy@.insts =~= self@.insts);
        copy
    }
}

impl Var {
    pub fn get_id(&self) -> (id: usize)
        ensures
            id == self.id,
    {
        self.id
    }
}

impl BlockId {
    /// The block at which every function starts.
    pub fn entry() -> (id: BlockId)
        ensures
            id.id == 0,
    {
        BlockId { id: 0 }
    }

    pub fn get_id(&self) -> (id: usize)
        ensures
            id == self.id,
    {
        self.id
    }
}

impl FunctionId {
    pub fn get_id(&self) -> (id: usize)
        ensures
            id == self.id,
    {
        self.id
    }
}

impl Program {
    /// A program without functions.
    pub fn new() -> (program: Program)
        ensures
            program@.functions.len() == 0,
    {
        let program = Program { functions: Vec::new() };
        assert(program@.functions =~= Seq::empty());
        program
    }

    /// Appends a finished function and tells its number.
    pub fn add_function(&mut self, function: Function) -> (id: FunctionId)
        ensures
            id.id == old(self)@.functions.len(),
            final(self)@ == old(self)@.with(function@),
    {
        let id = FunctionId { id: self.functions.len() };
        self.functions.push(function);
        assert(self@.functions =~= old(self)@.functions.push(function@));
        id
    }

    pub fn get_function(&self, id: FunctionId) -> (function: &Function)
        requires
            id.id < self@.functions.len(),
        ensures
            function@ == self@.functions[id.id as int],
    {
        &self.functions[id.id]
    }

    /// The block `block` of the function `function`.
    pub fn get_block(&self, function: FunctionId, block: BlockId) -> (found: &Block)
        requires
            function.id < self@.functions.len(),
            block.id < self@.functions[function.id as int].blocks.len(),
        ensures
            found@ == self@.functions[function.id as int].blocks[block.id as int],
    {
        self.get_function(function).get_block(block)
    }

    /// The number of variables of the function `function`.
    pub fn get_variable_count(&self, function: FunctionId) -> (count: usize)
        requires
            function.id < self@.functions.len(),
        ensures
            count == self@.functions[function.id as int].variable_count,
    {
        self.get_function(function).get_variable_count()
    }

    /// The number of functions.
    pub fn len(&self) -> (n: usize)
        ensures
            n == self@.functions.len(),
    {
        self.functions.len()
    }

    pub fn get_functions(&self) -> (functions: &Vec<Function>)
        ensures
            functions@.len() == self@.functions.len(),
            forall|f: int| 0 <= f < functions@.len() ==> (#[trigger] functions@[f])@ == self@.functions[f],
    {
        &self.functions
    }
}

impl Function {
    /// A function without parameters, variables or blocks.
    pub fn new() -> (function: Function)
        ensures
            function@ == FunctionView::empty(),
    {
        let function = Function {
            params: Vec::new(),
            returns: Vec::new(),
            variable_count: 0,
            blocks: Vec::new(),
        };
        assert(function@.blocks =~= Seq::empty());
        function
    }

    /// Hands out the next variable.
    pub fn new_variable(&mut self) -> (variable: Var)
        requires
            old(self)@.variable_count < usize::MAX,
        ensures
            variable.id == old(self)@.variable_count,
            final(self)@ == old(self)@.grown(1),
    {
        let variable = Var { id: self.variable_count };
        self.variable_count += 1;
        variable
    }

    pub fn get_variable_count(&self) -> (count: usize)
        ensures
            count == self@.variable_count,
    {
        self.variable_count
    }

    /// Tells whether the function has room for `n` more variables, as the
    /// functions that hand out variables ask for.
    pub fn has_room(&self, n: usize) -> (room: bool)
        ensures
            room == (self@.variable_count + n <= usize::MAX),
    {
        usize::MAX - self.variable_count >= n
    }

    /// Registers a slot for a new block and returns the block, open and
    /// empty.
    pub fn new_block(&mut self) -> (block: Block)
        ensures
            block@ == BlockView::fresh(old(self)@.blocks.len() as usize),
            final(self)@ == (FunctionView {
                blocks: old(self)@.blocks.push(block@),
                ..old(self)@
            }),
    {
        let id = self.blocks.len();
        let placeholder = Block {
            insts: Vec::new(),
            exit: ExitInstruction::Return,
            id,
            committed: false,
        };
        let block = Block { insts: Vec::new(), exit: ExitInstruction::Return, id, committed: false };
        assert(placeholder@.insts =~= Seq::empty());
        assert(block@.insts =~= Seq::empty());
        self.blocks.push(placeholder);
        assert(self@.blocks =~= old(self)@.blocks.push(block@));
        block
    }

    /// The number of block slots.
    pub fn block_count(&self) -> (n: usize)
        ensures
            n == self@.blocks.len(),
    {
        self.blocks.len()
    }

    pub fn get_block(&self, block: BlockId) -> (found: &Block)
        requires
            block.id < self@.blocks.len(),
        ensures
            found@ == self@.blocks[block.id as int],
    {
        &self.blocks[block.id]
    }

    pub fn get_params(&self) -> (params: &Vec<Var>)
        ensures
            params@ == self@.params,
    {
        &self.params
    }

    pub fn get_returns(&self) -> (vars: &Vec<Var>)
        ensures
            vars@ == self@.returns,
    {
        &self.returns
    }

    /// Hands out the next variable and declares it as the next parameter.
    pub fn add_parameter(&mut self) -> (variable: Var)
        requires
            old(self)@.variable_count < usize::MAX,
        ensures
            variable.id == old(self)@.variable_count,
            final(self)@ == (FunctionView {
                params: old(self)@.params.push(variable),
                ..old(self)@.grown(1)
            }),
    {
        let variable = self.new_variable();
        self.params.push(variable);
        variable
    }

    /// Declares `variable` as the next return variable.
    pub fn add_return(&mut self, variable: Var)
        ensures
            final(self)@ == (FunctionView {
                returns: old(self)@.returns.push(variable),
                ..old(self)@
            }),
    {
        self.returns.push(variable);
    }

    fn submit_block(&mut self, block: Block)
        requires
            block@.id < old(self)@.blocks.len(),
        ensures
            final(self)@ == old(self)@.overlay(block@),
    {
        let id = block.id;
        self.blocks[id] = block;
        assert(self@.blocks =~= old(self)@.blocks.update(id as int, block@));
    }
}

impl Block {
    pub fn get_id(&self) -> (id: BlockId)
        ensures
            id.id == self@.id,
    {
        BlockId { id: self.id }
    }

    fn emit(&mut self, inst: Instruction)
        ensures
            final(self)@ == old(self)@.with(inst@),
    {
        self.insts.push(inst);
        assert(self@.insts =~= old(self)@.insts.push(inst@));
    }

    /// Appends `dest = a + b` for a new variable `dest` of `function`.
    pub fn add(&mut self, a: Var, b: Var, function: &mut Function) -> (dest: Var)
        requires
            old(function)@.variable_count < usize::MAX,
        ensures
            dest.id == old(function)@.variable_count,
            final(function)@ == old(function)@.grown(1),
            final(self)@ == old(self)@.with(InstructionView::AddInt { dest, a, b }),
    {
        let dest = function.new_variable();
        self.emit(Instruction::AddInt { dest, a, b });
        dest
    }

    /// Appends `dest = constant` for a new variable `dest` of `function`.
    pub fn constant(&mut self, constant: i32, function: &mut Function) -> (dest: Var)
        requires
            old(function)@.variable_count < usize::MAX,
        ensures
            dest.id == old(function)@.variable_count,
            final(function)@ == old(function)@.grown(1),
            final(self)@ == old(self)@.with(InstructionView::ConstantInt { dest, constant }),
    {
        let dest = function.new_variable();
        self.emit(Instruction::ConstantInt { dest, constant });
        dest
    }

    /// Appends `dest = phi(cond, a, b)` for a new variable `dest` of
    /// `function`.
    pub fn phi(&mut self, cond: Var, a: Var, b: Var, function: &mut Function) -> (dest: Var)
        requires
            old(function)@.variable_count < usize::MAX,
        ensures
            dest.id == old(function)@.variable_count,
            final(function)@ == old(function)@.grown(1),
            final(self)@ == old(self)@.with(InstructionView::Phi { dest, cond, a, b }),
    {
        let dest = function.new_variable();
        self.emit(Instruction::Phi { dest, cond, a, b });
        dest
    }

    /// Appends a call of `callee`, a function of `program`, with `args`. The
    /// results go to new variables of `function`, one for each return
    /// variable of the callee; they are handed back in order.
    pub fn call(
        &mut self,
        callee: FunctionId,
        args: Vec<Var>,
        program: &Program,
        function: &mut Function,
    ) -> (dests: Vec<Var>)
        requires
            callee.id < program@.functions.len(),
            args@.len() == program@.functions[callee.id as int].params.len(),
            old(function)@.variable_count + program@.functions[callee.id as int].returns.len()
                <= usize::MAX,
        ensures
            dests@ == var_range(
                old(function)@.variable_count as int,
                program@.functions[callee.id as int].returns.len(),
            ),
            final(function)@ == old(function)@.grown(
                program@.functions[callee.id as int].returns.len() as int,
            ),
            final(self)@ == old(self)@.with(
                InstructionView::Call { function: callee, args: args@, returns: dests@ },
            ),
    {
        let count = program.get_function(callee).get_returns().len();
        let mut dests: Vec<Var> = Vec::new();
        let ghost first = function@.variable_count as int;
        let mut i: usize = 0;
        while i < count
            invariant
                i <= count,
                first + count <= usize::MAX,
                function@ == old(function)@.grown(i as int),
                first == old(function)@.variable_count,
                dests@ == var_range(first, i as nat),
            decreases count - i,
        {
            let dest = function.new_variable();
            dests.push(dest);
            i += 1;
            assert(dests@ =~= var_range(first, i as nat));
        }
        let copy = copy_vars(&dests);
        self.emit(Instruction::Call { function: callee, args, returns: copy });
        dests
    }

    /// Closes the block with `return` and installs it in its slot, in place
    /// of what the slot held.
    pub fn ret(self, function: &mut Function)
        requires
            self@.id < old(function)@.blocks.len(),
        ensures
            final(function)@ == old(function)@.overlay(self@.closed_by(ExitInstruction::Return)),
    {
        let mut block = self;
        block.exit = ExitInstruction::Return;
        block.committed = true;
        function.submit_block(block)
    }

    /// Closes the block with a branch on `cond`, to `block1` if it is not
    /// zero and to `block2` if it is, and installs it in its slot, in place
    /// of what the slot held.
    pub fn conditional_branch(
        self,
        cond: Var,
        block1: BlockId,
        block2: BlockId,
        function: &mut Function,
    )
        requires
            self@.id < old(function)@.blocks.len(),
        ensures
            final(function)@ == old(function)@.overlay(
                self@.closed_by(ExitInstruction::ConditionalBranch { cond, block1, block2 }),
            ),
    {
        let mut block = self;
        block.exit = ExitInstruction::ConditionalBranch { cond, block1, block2 };
        block.committed = true;
        function.submit_block(block)
    }

    /// Closes the block with a jump to `block` and installs it in its slot,
    /// in place of what the slot held.
    pub fn branch(self, block: BlockId, function: &mut Function)
        requires
            self@.id < old(function)@.blocks.len(),
        ensures
            final(function)@ == old(function)@.overlay(
                self@.closed_by(ExitInstruction::Branch { block }),
            ),
    {
        let mut closed = self;
        closed.exit = ExitInstruction::Branch { block };
        closed.committed = true;
        function.submit_block(closed)
    }

    pub fn get_instructions(&self) -> (insts: &Vec<Instruction>)
        ensures
            insts@.len() == self@.insts.len(),
            forall|i: int| 0 <= i < insts@.len() ==> (#[trigger] insts@[i])@ == self@.insts[i],
    {
        &self.insts
    }

    pub fn get_exit_instruction(&self) -> (exit: &ExitInstruction)
        ensures
            *exit == self@.exit,
    {
        &self.exit
    }

    /// Whether the exit of the block has been installed.
    pub fn is_committed(&self) -> (committed: bool)
        ensures
            committed == self@.committed,
    {
        self.committed
    }
}

} // verus!

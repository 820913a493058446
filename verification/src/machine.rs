//! The machine collaborator: program counter, register file, flat memory,
//! cycle accounting, a step budget checked by the machine itself, and the
//! running flag -- together with the uncached reference semantics (decode
//! fresh at the program counter on every single step) that the trace cache
//! must be indistinguishable from.

use vstd::prelude::*;

use crate::decoder::decode_at;
use crate::instruction::{
    spec_instruction_length, spec_is_basic_block_end, wf_instruction, Instruction, REGISTER_COUNT,
};

verus! {

/// The error kinds of the execution core. Every error is fatal to the run.
#[derive(Clone, Copy, Debug, PartialEq, Eq, Structural)]
pub enum VmError {
    /// Illegal or out-of-range encoding at a fetched address.
    DecodeFault,
    /// Out-of-bounds memory access.
    MemoryFault,
    /// The cycle budget would be exceeded.
    CycleLimitExceeded,
    /// An environment breakpoint trapped to the host.
    HostCallFault,
}

/// The mathematical state of the machine.
#[verifier::ext_equal]
pub ghost struct MachineView {
    pub pc: int,
    pub regs: Seq<u64>,
    pub mem: Seq<u8>,
    pub cycles: u64,
    pub cycle_limit: u64,
    pub steps: u64,
    pub step_limit: u64,
    pub cost: Option<u64>,
    pub running: bool,
    pub exit_code: u8,
}

/// The machine execution state. Memory is a flat byte-addressed image fixed
/// at construction time; the step budget is the external step limit the
/// machine itself checks, and the optional flat per-instruction cost stands
/// for the externally configured cycle-cost function (absence means cost 0).
pub struct Machine {
    pub pc: usize,
    pub registers: Vec<u64>,
    pub memory: Vec<u8>,
    pub cycles: u64,
    pub cycle_limit: u64,
    pub steps: u64,
    pub step_limit: u64,
    pub cost: Option<u64>,
    pub running: bool,
    pub exit_code: u8,
}

impl View for Machine {
    type V = MachineView;

    open spec fn view(&self) -> MachineView {
        MachineView {
            pc: self.pc as int,
            regs: self.registers@,
            mem: self.memory@,
            cycles: self.cycles,
            cycle_limit: self.cycle_limit,
            steps: self.steps,
            step_limit: self.step_limit,
            cost: self.cost,
            running: self.running,
            exit_code: self.exit_code,
        }
    }
}

/// Structural well-formedness of a machine state.
pub open spec fn machine_wf(m: MachineView) -> bool {
    &&& m.regs.len() == REGISTER_COUNT
    &&& m.cycles <= m.cycle_limit
    &&& m.steps <= m.step_limit
    &&& 0 <= m.pc <= usize::MAX
    &&& m.mem.len() <= usize::MAX
}

/// 64-bit wrapping addition.
pub open spec fn wrap_add64(a: u64, b: u64) -> u64 {
    if a + b > u64::MAX {
        (a + b - 0x1_0000_0000_0000_0000) as u64
    } else {
        (a + b) as u64
    }
}

/// The machine's own step accounting, applied after every executed
/// instruction: one step is consumed, and the machine stops running once the
/// step budget is used up.
pub open spec fn count_step(m: MachineView) -> MachineView {
    if m.steps < m.step_limit {
        let s2 = (m.steps + 1) as u64;
        MachineView { steps: s2, running: m.running && s2 < m.step_limit, ..m }
    } else {
        MachineView { running: false, ..m }
    }
}

/// What executing one instruction does to the machine state: the effect on
/// registers, memory, program counter, running flag and exit code, followed
/// by step accounting. On an error the machine state is unchanged.
pub open spec fn exec_result(m: MachineView, i: Instruction) -> Result<MachineView, VmError> {
    match i {
        Instruction::Li { rd, imm } => Ok(
            count_step(
                MachineView { pc: m.pc + 4, regs: m.regs.update(rd as int, imm as u64), ..m },
            ),
        ),
        Instruction::Add { rd, rs1, rs2 } => Ok(
            count_step(
                MachineView {
                    pc: m.pc + 4,
                    regs: m.regs.update(
                        rd as int,
                        wrap_add64(m.regs[rs1 as int], m.regs[rs2 as int]),
                    ),
                    ..m
                },
            ),
        ),
        Instruction::Sb { rs_addr, rs_val } => {
            let a = m.regs[rs_addr as int] as int;
            if a < m.mem.len() {
                Ok(
                    count_step(
                        MachineView {
                            pc: m.pc + 4,
                            mem: m.mem.update(a, (m.regs[rs_val as int] % 256) as u8),
                            ..m
                        },
                    ),
                )
            } else {
                Err(VmError::MemoryFault)
            }
        },
        Instruction::Lb { rd, rs_addr } => {
            let a = m.regs[rs_addr as int] as int;
            if a < m.mem.len() {
                Ok(
                    count_step(
                        MachineView {
                            pc: m.pc + 4,
                            regs: m.regs.update(rd as int, m.mem[a] as u64),
                            ..m
                        },
                    ),
                )
            } else {
                Err(VmError::MemoryFault)
            }
        },
        Instruction::Cnop => Ok(count_step(MachineView { pc: m.pc + 2, ..m })),
        Instruction::Jmp { target } => Ok(count_step(MachineView { pc: target as int, ..m })),
        Instruction::Beqz { rs, target } => Ok(
            count_step(
                MachineView {
                    pc: if m.regs[rs as int] == 0 {
                        target as int
                    } else {
                        m.pc + 4
                    },
                    ..m
                },
            ),
        ),
        Instruction::Ecall { rs } => Ok(
            count_step(
                MachineView {
                    pc: m.pc + 4,
                    running: false,
                    exit_code: (m.regs[rs as int] % 256) as u8,
                    ..m
                },
            ),
        ),
        Instruction::Ebreak => Err(VmError::HostCallFault),
    }
}

/// The cycle cost of executing one instruction under the configured cost
/// function: absence of a cost function means cost 0.
pub open spec fn cost_of(m: MachineView) -> u64 {
    match m.cost {
        Option::None => 0,
        Option::Some(c) => c,
    }
}

/// Cycle metering, applied per executed instruction: exceeding the cycle
/// budget is a fault that leaves the cycle counter unchanged.
pub open spec fn meter(m: MachineView) -> Result<MachineView, VmError> {
    if m.cycles + cost_of(m) > m.cycle_limit {
        Err(VmError::CycleLimitExceeded)
    } else {
        Ok(MachineView { cycles: (m.cycles + cost_of(m)) as u64, ..m })
    }
}

/// The outcome of some number of uncached steps: either the machine is still
/// mid-run, or the run stopped with a normal exit code or an error.
pub ghost enum StepOutcome {
    Next(MachineView),
    Stop(MachineView, Result<u8, VmError>),
}

/// One step of the uncached reference interpreter: if the machine stopped
/// running, the run ends with the exit code; otherwise decode fresh at the
/// current program counter, execute the decoded instruction, then meter its
/// cycle cost. Any fault stops the run with that error.
pub open spec fn step1(m: MachineView) -> StepOutcome {
    if !m.running {
        StepOutcome::Stop(m, Ok(m.exit_code))
    } else {
        match decode_at(m.mem, m.pc) {
            Option::None => StepOutcome::Stop(m, Err(VmError::DecodeFault)),
            Option::Some(i) => match exec_result(m, i) {
                Result::Err(e) => StepOutcome::Stop(m, Err(e)),
                Result::Ok(m1) => match meter(m1) {
                    Result::Err(e) => StepOutcome::Stop(m1, Err(e)),
                    Result::Ok(m2) => StepOutcome::Next(m2),
                },
            },
        }
    }
}

/// `n` steps of the uncached reference interpreter from state `m`.
pub open spec fn run_n(m: MachineView, n: nat) -> StepOutcome
    decreases n,
{
    if n == 0 {
        StepOutcome::Next(m)
    } else {
        match step1(m) {
            StepOutcome::Next(m2) => run_n(m2, (n - 1) as nat),
            StepOutcome::Stop(m2, r) => StepOutcome::Stop(m2, r),
        }
    }
}

/// Extending an uncached run by one step.
pub proof fn lemma_run_n_snoc(m0: MachineView, n: nat, m1: MachineView)
    requires
        run_n(m0, n) == StepOutcome::Next(m1),
    ensures
        run_n(m0, n + 1) == step1(m1),
    decreases n,
{
    if n == 0 {
        assert(m1 == m0);
        match step1(m0) {
            StepOutcome::Next(m2) => {
                assert(run_n(m0, 1) == run_n(m2, 0));
            },
            StepOutcome::Stop(m2, r) => {
                assert(run_n(m0, 1) == StepOutcome::Stop(m2, r));
            },
        }
    } else {
        match step1(m0) {
            StepOutcome::Next(m2) => {
                lemma_run_n_snoc(m2, (n - 1) as nat, m1);
                assert((n - 1) as nat + 1 == n);
                assert(run_n(m0, n + 1) == run_n(m2, (n + 1 - 1) as nat));
                assert((n + 1 - 1) as nat == (n - 1) as nat + 1);
            },
            StepOutcome::Stop(m2, r) => {
                assert(false);
            },
        }
    }
}

/// Facts about a successful instruction execution: budgets and cycle state
/// are untouched, a step is accounted (strictly, if the machine is still
/// running), memory keeps its size, registers keep their count, and a
/// non-block-ending instruction falls through to the next instruction.
pub proof fn lemma_exec_ok_facts(m: MachineView, i: Instruction)
    requires
        machine_wf(m),
        wf_instruction(i),
        m.pc + spec_instruction_length(i) <= m.mem.len(),
        exec_result(m, i) is Ok,
    ensures
        ({
            let m1 = exec_result(m, i)->Ok_0;
            &&& machine_wf(m1)
            &&& m1.mem.len() == m.mem.len()
            &&& m1.regs.len() == m.regs.len()
            &&& m1.cycles == m.cycles
            &&& m1.cycle_limit == m.cycle_limit
            &&& m1.cost == m.cost
            &&& m1.step_limit == m.step_limit
            &&& m1.steps >= m.steps
            &&& (m1.running ==> m1.steps > m.steps)
            &&& (!spec_is_basic_block_end(i) ==> m1.pc == m.pc + spec_instruction_length(i))
        }),
{
    match i {
        Instruction::Li { rd, imm } => {},
        Instruction::Add { rd, rs1, rs2 } => {},
        Instruction::Sb { rs_addr, rs_val } => {},
        Instruction::Lb { rd, rs_addr } => {},
        Instruction::Cnop => {},
        Instruction::Jmp { target } => {},
        Instruction::Beqz { rs, target } => {},
        Instruction::Ecall { rs } => {},
        Instruction::Ebreak => {},
    }
}

impl Machine {
    /// Build a machine with zeroed registers and memory, program counter 0,
    /// not running, with the given memory size, cycle budget, step budget and
    /// optional flat per-instruction cycle cost.
    pub fn new(memory_size: usize, cycle_limit: u64, step_limit: u64, cost: Option<u64>) -> (m:
        Machine)
        ensures
            machine_wf(m@),
            m@.pc == 0,
            m@.regs == Seq::<u64>::new(REGISTER_COUNT as nat, |j: int| 0u64),
            m@.mem.len() == memory_size,
            forall|k: int| 0 <= k < memory_size ==> m@.mem[k] == 0u8,
            m@.cycles == 0,
            m@.cycle_limit == cycle_limit,
            m@.steps == 0,
            m@.step_limit == step_limit,
            m@.cost == cost,
            !m@.running,
            m@.exit_code == 0,
    {
        let mut registers: Vec<u64> = Vec::new();
        while registers.len() < REGISTER_COUNT
            invariant
                registers@ == Seq::<u64>::new(registers@.len(), |j: int| 0u64),
                registers@.len() <= REGISTER_COUNT,
            decreases REGISTER_COUNT - registers.len(),
        {
            registers.push(0);
            proof {
                assert(registers@ =~= Seq::<u64>::new(registers@.len(), |j: int| 0u64));
            }
        }
        let mut memory: Vec<u8> = Vec::new();
        while memory.len() < memory_size
            invariant
                memory@.len() <= memory_size,
                forall|k: int| 0 <= k < memory@.len() ==> memory@[k] == 0u8,
            decreases memory_size - memory.len(),
        {
            memory.push(0);
        }
        Machine {
            pc: 0,
            registers,
            memory,
            cycles: 0,
            cycle_limit,
            steps: 0,
            step_limit,
            cost,
            running: false,
            exit_code: 0,
        }
    }

    /// The current program counter.
    pub fn pc(&self) -> (r: usize)
        ensures
            r == self@.pc,
    {
        self.pc
    }

    /// Set the program counter.
    pub fn set_pc(&mut self, pc: usize)
        ensures
            final(self)@ == (MachineView { pc: pc as int, ..old(self)@ }),
    {
        self.pc = pc;
    }

    /// Read one register.
    pub fn register(&self, idx: usize) -> (r: u64)
        requires
            idx < self@.regs.len(),
        ensures
            r == self@.regs[idx as int],
    {
        self.registers[idx]
    }

    /// Write one register.
    pub fn set_register(&mut self, idx: usize, value: u64)
        requires
            idx < old(self)@.regs.len(),
        ensures
            final(self)@ == (MachineView {
                regs: old(self)@.regs.update(idx as int, value),
                ..old(self)@
            }),
    {
        self.registers.set(idx, value);
    }

    /// The running flag.
    pub fn running(&self) -> (r: bool)
        ensures
            r == self@.running,
    {
        self.running
    }

    /// Set the running flag.
    pub fn set_running(&mut self, running: bool)
        ensures
            final(self)@ == (MachineView { running, ..old(self)@ }),
    {
        self.running = running;
    }

    /// Set the exit code reported on a normal halt.
    pub fn set_exit_code(&mut self, code: u8)
        ensures
            final(self)@ == (MachineView { exit_code: code, ..old(self)@ }),
    {
        self.exit_code = code;
    }

    /// The exit code reported on a normal halt.
    pub fn exit_code(&self) -> (r: u8)
        ensures
            r == self@.exit_code,
    {
        self.exit_code
    }

    /// Accumulated cycles.
    pub fn cycles(&self) -> (r: u64)
        ensures
            r == self@.cycles,
    {
        self.cycles
    }

    /// Executed instruction count.
    pub fn steps(&self) -> (r: u64)
        ensures
            r == self@.steps,
    {
        self.steps
    }

    /// The size of the memory image in bytes.
    pub fn memory_size(&self) -> (r: usize)
        ensures
            r == self@.mem.len(),
    {
        self.memory.len()
    }

    /// Read one memory byte.
    pub(crate) fn read_byte(&self, addr: usize) -> (b: u8)
        requires
            addr < self@.mem.len(),
        ensures
            b == self@.mem[addr as int],
    {
        self.memory[addr]
    }

    /// Write one memory byte. Callers inside the core must follow this with
    /// trace invalidation over the written range.
    pub(crate) fn write_byte(&mut self, addr: usize, b: u8)
        requires
            addr < old(self)@.mem.len(),
        ensures
            final(self)@ == (MachineView { mem: old(self)@.mem.update(addr as int, b), ..old(self)@ }),
    {
        self.memory.set(addr, b);
    }

    /// Apply the machine's step accounting.
    pub(crate) fn count_step(&mut self)
        ensures
            final(self)@ == count_step(old(self)@),
    {
        if self.steps < self.step_limit {
            self.steps = self.steps + 1;
            if !(self.steps < self.step_limit) {
                self.running = false;
            }
        } else {
            self.running = false;
        }
        proof {
            assert(self@ =~= count_step(old(self)@));
        }
    }

    /// Add cycles to the cycle counter, faulting if the budget would be
    /// exceeded and leaving the counter unchanged in that case.
    pub fn add_cycles(&mut self, n: u64) -> (r: Result<(), VmError>)
        requires
            old(self)@.cycles <= old(self)@.cycle_limit,
        ensures
            old(self)@.cycles + n > old(self)@.cycle_limit ==> r == Err::<(), VmError>(
                VmError::CycleLimitExceeded,
            ) && final(self)@ == old(self)@,
            old(self)@.cycles + n <= old(self)@.cycle_limit ==> r == Ok::<(), VmError>(())
                && final(self)@ == (MachineView {
                cycles: (old(self)@.cycles + n) as u64,
                ..old(self)@
            }),
    {
        if n > self.cycle_limit - self.cycles {
            Err(VmError::CycleLimitExceeded)
        } else {
            self.cycles = self.cycles + n;
            proof {
                assert(self@ =~= (MachineView {
                    cycles: (old(self)@.cycles + n) as u64,
                    ..old(self)@
                }));
            }
            Ok(())
        }
    }

    /// The configured flat per-instruction cycle cost.
    pub fn cost_value(&self) -> (r: u64)
        ensures
            r == cost_of(self@),
    {
        match self.cost {
            Option::None => 0,
            Option::Some(c) => c,
        }
    }
}

} // verus!

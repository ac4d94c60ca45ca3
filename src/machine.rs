//! The processor: memory, registers, I/O queues and the
//! fetch-decode-execute step, with its abstract semantics.
use std::collections::VecDeque;
use vstd::prelude::*;

use crate::decode::{mode_of, opcode_of, Instruction, Opcode, ParamMode, VmError};

verus! {

/// The abstract state of a processor.
pub struct MachineState {
    /// Instruction pointer.
    pub ip: int,
    /// Relative base register.
    pub rb: int,
    /// Memory cells, indexed from 0; the length is the capacity.
    pub mem: Seq<i64>,
    pub halted: bool,
    /// The most recent value written to the output queue (0 before any).
    pub last_output: i64,
    /// Pending inputs, oldest first.
    pub input: Seq<i64>,
    /// Produced outputs not yet taken, oldest first.
    pub output: Seq<i64>,
}

/// What one step did.
#[derive(Debug, Clone, Copy, PartialEq, Eq, Structural)]
pub enum StepStatus {
    /// An instruction was executed and the processor may go on.
    Advanced,
    /// An input instruction found the queue empty: nothing changed.
    AwaitingInput,
    /// The processor is halted (now or before).
    Halted,
}

/// Why a run stopped.
#[derive(Debug, Clone, Copy, PartialEq, Eq, Structural)]
pub enum RunOutcome {
    Halted,
    AwaitingInput,
    /// The step budget ran out while the processor could still go on.
    StepLimit,
}

/// The value of memory cell `a`, or a fault when `a` is outside memory.
pub open spec fn cell(mem: Seq<i64>, a: int) -> Result<i64, VmError> {
    if 0 <= a < mem.len() {
        Ok(mem[a])
    } else {
        Err(VmError::MemoryFault)
    }
}

/// A fresh processor over a program image.
pub open spec fn initial_state(program: Seq<i64>) -> MachineState {
    MachineState {
        ip: 0,
        rb: 0,
        mem: program,
        halted: false,
        last_output: 0,
        input: Seq::empty(),
        output: Seq::empty(),
    }
}

/// The value that parameter `i` of instruction word `v` reads.
pub open spec fn operand(s: MachineState, v: i64, i: nat) -> Result<i64, VmError> {
    match mode_of(v, i) {
        Err(e) => Err(e),
        Ok(m) => match cell(s.mem, s.ip + i) {
            Err(e) => Err(e),
            Ok(raw) => match m {
                ParamMode::Immediate => Ok(raw),
                ParamMode::Position => cell(s.mem, raw as int),
                ParamMode::Relative => cell(s.mem, s.rb + raw),
            },
        },
    }
}

/// The address that parameter `i` of instruction word `v` writes to.
pub open spec fn target(s: MachineState, v: i64, i: nat) -> Result<int, VmError> {
    match mode_of(v, i) {
        Err(e) => Err(e),
        Ok(m) => if m == ParamMode::Immediate {
            Err(VmError::InvalidWriteTarget)
        } else {
            match cell(s.mem, s.ip + i) {
                Err(e) => Err(e),
                Ok(raw) => {
                    let a = if m == ParamMode::Position {
                        raw as int
                    } else {
                        s.rb + raw
                    };
                    if 0 <= a < s.mem.len() {
                        Ok(a)
                    } else {
                        Err(VmError::MemoryFault)
                    }
                },
            }
        },
    }
}

/// Whether `x` fits in a memory cell.
pub open spec fn fits_cell(x: int) -> bool {
    i64::MIN <= x <= i64::MAX
}

/// Store `val` through parameter `i` and advance the instruction pointer by `width`.
pub open spec fn store(s: MachineState, v: i64, i: nat, val: int, width: int) -> Result<
    (MachineState, StepStatus),
    VmError,
> {
    if !fits_cell(val) {
        Err(VmError::Overflow)
    } else {
        match target(s, v, i) {
            Err(e) => Err(e),
            Ok(a) => Ok(
                (
                    MachineState { mem: s.mem.update(a, val as i64), ip: s.ip + width, ..s },
                    StepStatus::Advanced,
                ),
            ),
        }
    }
}

/// The three-operand opcodes: `dst = f(read(1), read(2))`.
pub open spec fn binary_result(op: Opcode, a: i64, b: i64) -> int {
    match op {
        Opcode::Add => a + b,
        Opcode::Mul => a * b,
        Opcode::LessThan => if a < b {
            1
        } else {
            0
        },
        _ => if a == b {
            1
        } else {
            0
        },
    }
}

/// A conditional jump: to `dest` when `taken`, else past the instruction.
pub open spec fn jump(s: MachineState, taken: bool, dest: i64) -> Result<
    (MachineState, StepStatus),
    VmError,
> {
    if !taken {
        Ok((MachineState { ip: s.ip + 3, ..s }, StepStatus::Advanced))
    } else if 0 <= dest < s.mem.len() {
        Ok((MachineState { ip: dest as int, ..s }, StepStatus::Advanced))
    } else {
        Err(VmError::MemoryFault)
    }
}

/// The effect of executing opcode `op` of instruction word `v`.
pub open spec fn exec_op(s: MachineState, v: i64, op: Opcode) -> Result<
    (MachineState, StepStatus),
    VmError,
> {
    match op {
        Opcode::Add | Opcode::Mul | Opcode::LessThan | Opcode::Equals => match operand(s, v, 1) {
            Err(e) => Err(e),
            Ok(a) => match operand(s, v, 2) {
                Err(e) => Err(e),
                Ok(b) => store(s, v, 3, binary_result(op, a, b), 4),
            },
        },
        Opcode::Input => if s.input.len() == 0 {
            Ok((s, StepStatus::AwaitingInput))
        } else {
            match target(s, v, 1) {
                Err(e) => Err(e),
                Ok(a) => Ok(
                    (
                        MachineState {
                            mem: s.mem.update(a, s.input[0]),
                            input: s.input.drop_first(),
                            ip: s.ip + 2,
                            ..s
                        },
                        StepStatus::Advanced,
                    ),
                ),
            }
        },
        Opcode::Output => match operand(s, v, 1) {
            Err(e) => Err(e),
            Ok(a) => Ok(
                (
                    MachineState { output: s.output.push(a), last_output: a, ip: s.ip + 2, ..s },
                    StepStatus::Advanced,
                ),
            ),
        },
        Opcode::JumpIfTrue | Opcode::JumpIfFalse => match operand(s, v, 1) {
            Err(e) => Err(e),
            Ok(a) => match operand(s, v, 2) {
                Err(e) => Err(e),
                Ok(b) => jump(s, (a != 0) == (op == Opcode::JumpIfTrue), b),
            },
        },
        Opcode::RelativeBase => match operand(s, v, 1) {
            Err(e) => Err(e),
            Ok(a) => if fits_cell(s.rb + a) {
                Ok((MachineState { rb: s.rb + a, ip: s.ip + 2, ..s }, StepStatus::Advanced))
            } else {
                Err(VmError::Overflow)
            },
        },
        Opcode::Halt => Ok((MachineState { halted: true, ..s }, StepStatus::Halted)),
    }
}

/// One fetch-decode-execute step. A halted processor fetches nothing.
pub open spec fn step(s: MachineState) -> Result<(MachineState, StepStatus), VmError> {
    if s.halted {
        Ok((s, StepStatus::Halted))
    } else {
        match cell(s.mem, s.ip) {
            Err(e) => Err(e),
            Ok(v) => match opcode_of(v) {
                Err(e) => Err(e),
                Ok(op) => exec_op(s, v, op),
            },
        }
    }
}

/// Steps until the processor halts or waits for input, for at most `fuel` steps.
pub open spec fn run_steps(s: MachineState, fuel: nat) -> Result<(MachineState, RunOutcome), VmError>
    decreases fuel,
{
    if s.halted {
        Ok((s, RunOutcome::Halted))
    } else if fuel == 0 {
        Ok((s, RunOutcome::StepLimit))
    } else {
        match step(s) {
            Err(e) => Err(e),
            Ok((s2, st)) => if st == StepStatus::AwaitingInput {
                Ok((s2, RunOutcome::AwaitingInput))
            } else {
                run_steps(s2, (fuel - 1) as nat)
            },
        }
    }
}


/// Steps never change the size of memory.
pub proof fn lemma_step_keeps_memory_size(s: MachineState)
    ensures
        step(s) matches Ok((t, _)) ==> t.mem.len() == s.mem.len(),
{
}

/// Runs never change the size of memory.
pub proof fn lemma_run_keeps_memory_size(s: MachineState, fuel: nat)
    ensures
        run_steps(s, fuel) matches Ok((t, _)) ==> t.mem.len() == s.mem.len(),
    decreases fuel,
{
    lemma_step_keeps_memory_size(s);
    if !s.halted && fuel > 0 {
        if let Ok((s2, _)) = step(s) {
            lemma_run_keeps_memory_size(s2, (fuel - 1) as nat);
        }
    }
}

/// A parameter that resolves lies in memory, past the instruction pointer's parameter cell.
proof fn lemma_target_in_bounds(s: MachineState, v: i64, i: nat)
    ensures
        target(s, v, i) is Ok ==> 0 <= s.ip + i < s.mem.len(),
        operand(s, v, i) is Ok ==> 0 <= s.ip + i < s.mem.len(),
{
}

/// A processor: one program's memory, its registers and its I/O queues.
pub struct Computer {
    ip: usize,
    rb: i64,
    mem: Vec<i64>,
    halted: bool,
    last_output: i64,
    input_queue: VecDeque<i64>,
    output_queue: VecDeque<i64>,
}

impl View for Computer {
    type V = MachineState;

    closed spec fn view(&self) -> MachineState {
        MachineState {
            ip: self.ip as int,
            rb: self.rb as int,
            mem: self.mem@,
            halted: self.halted,
            last_output: self.last_output,
            input: self.input_queue@,
            output: self.output_queue@,
        }
    }
}

impl Computer {
    /// A processor over `mem`, with empty queues, at address 0.
    pub fn new(mem: Vec<i64>) -> (r: Computer)
        ensures
            r@ == initial_state(mem@),
    {
        let r = Computer {
            ip: 0,
            rb: 0,
            mem,
            halted: false,
            last_output: 0,
            input_queue: VecDeque::new(),
            output_queue: VecDeque::new(),
        };
        assert(r@.input =~= Seq::<i64>::empty());
        assert(r@.output =~= Seq::<i64>::empty());
        r
    }

    /// The cell at address `a`, where `a` may be any integer.
    fn cell_at(&self, a: i128) -> (r: Result<i64, VmError>)
        ensures
            r == cell(self@.mem, a as int),
    {
        if a >= 0 && a < self.mem.len() as i128 {
            Ok(self.mem[a as usize])
        } else {
            Err(VmError::MemoryFault)
        }
    }

    /// The cell at address `pos`.
    pub fn read_mem(&self, pos: usize) -> (r: Result<i64, VmError>)
        ensures
            r == cell(self@.mem, pos as int),
    {
        self.cell_at(pos as i128)
    }

    /// Overwrites the cell at address `pos`.
    pub fn write_mem(&mut self, pos: usize, val: i64) -> (r: Result<(), VmError>)
        ensures
            pos < old(self)@.mem.len() ==> (r is Ok) && final(self)@ == (MachineState {
                mem: old(self)@.mem.update(pos as int, val),
                ..old(self)@
            }),
            pos >= old(self)@.mem.len() ==> r == Err::<(), VmError>(VmError::MemoryFault)
                && final(self)@ == old(self)@,
    {
        if pos < self.mem.len() {
            self.mem.set(pos, val);
            Ok(())
        } else {
            Err(VmError::MemoryFault)
        }
    }

    /// The instruction at the instruction pointer.
    pub fn instruction(&self) -> (r: Result<Instruction, VmError>)
        ensures
            match r {
                Ok(inst) => cell(self@.mem, self@.ip) == Ok::<i64, VmError>(inst.v),
                Err(e) => cell(self@.mem, self@.ip) == Err::<i64, VmError>(e),
            },
    {
        match self.cell_at(self.ip as i128) {
            Ok(v) => Ok(Instruction { v }),
            Err(e) => Err(e),
        }
    }

    /// The raw value of parameter `i` of the current instruction.
    pub fn raw_param(&self, i: u32) -> (r: Result<i64, VmError>)
        ensures
            r == cell(self@.mem, self@.ip + i),
    {
        self.cell_at(self.ip as i128 + i as i128)
    }

    /// The cell that parameter `i` names in position mode.
    pub fn indirect_param(&self, i: u32) -> (r: Result<i64, VmError>)
        ensures
            r == match cell(self@.mem, self@.ip + i) {
                Ok(raw) => cell(self@.mem, raw as int),
                Err(e) => Err(e),
            },
    {
        match self.raw_param(i) {
            Ok(raw) => self.cell_at(raw as i128),
            Err(e) => Err(e),
        }
    }

    /// The value that parameter `i` of `inst` reads.
    pub fn param(&self, inst: &Instruction, i: u32) -> (r: Result<i64, VmError>)
        requires
            1 <= i <= 3,
        ensures
            r == operand(self@, inst.v, i as nat),
    {
        match inst.param_mode(i) {
            Err(e) => Err(e),
            Ok(ParamMode::Immediate) => self.raw_param(i),
            Ok(ParamMode::Position) => self.indirect_param(i),
            Ok(ParamMode::Relative) => match self.raw_param(i) {
                Ok(raw) => self.cell_at(self.rb as i128 + raw as i128),
                Err(e) => Err(e),
            },
        }
    }

    /// The address that parameter `i` of `inst` writes to.
    fn write_address(&self, inst: &Instruction, i: u32) -> (r: Result<usize, VmError>)
        requires
            1 <= i <= 3,
        ensures
            match target(self@, inst.v, i as nat) {
                Ok(a) => r == Ok::<usize, VmError>(a as usize) && a == r->Ok_0,
                Err(e) => r == Err::<usize, VmError>(e),
            },
    {
        let m = match inst.param_mode(i) {
            Err(e) => return Err(e),
            Ok(m) => m,
        };
        if m == ParamMode::Immediate {
            return Err(VmError::InvalidWriteTarget);
        }
        let raw = match self.raw_param(i) {
            Err(e) => return Err(e),
            Ok(raw) => raw,
        };
        let a: i128 = if m == ParamMode::Position {
            raw as i128
        } else {
            self.rb as i128 + raw as i128
        };
        if a >= 0 && a < self.mem.len() as i128 {
            Ok(a as usize)
        } else {
            Err(VmError::MemoryFault)
        }
    }

    /// Stores `v` through parameter `i` of `inst`.
    pub fn write_param(&mut self, inst: &Instruction, i: u32, v: i64) -> (r: Result<(), VmError>)
        requires
            1 <= i <= 3,
        ensures
            match target(old(self)@, inst.v, i as nat) {
                Ok(a) => (r is Ok) && final(self)@ == (MachineState {
                    mem: old(self)@.mem.update(a, v),
                    ..old(self)@
                }),
                Err(e) => r == Err::<(), VmError>(e) && final(self)@ == old(self)@,
            },
    {
        match self.write_address(inst, i) {
            Ok(a) => {
                self.mem.set(a, v);
                Ok(())
            },
            Err(e) => Err(e),
        }
    }

    /// Appends `v` to the input queue.
    pub fn inject_input(&mut self, v: i64)
        ensures
            final(self)@ == (MachineState { input: old(self)@.input.push(v), ..old(self)@ }),
    {
        self.input_queue.push_back(v);
    }

    /// Takes the oldest pending input.
    pub fn read_input(&mut self) -> (r: Option<i64>)
        ensures
            old(self)@.input.len() == 0 ==> (r is None) && final(self)@ == old(self)@,
            old(self)@.input.len() > 0 ==> r == Some(old(self)@.input[0]) && final(self)@
                == (MachineState { input: old(self)@.input.drop_first(), ..old(self)@ }),
    {
        self.input_queue.pop_front()
    }

    /// Appends `v` to the output queue and records it as the last output.
    pub fn write_output(&mut self, v: i64)
        ensures
            final(self)@ == (MachineState {
                output: old(self)@.output.push(v),
                last_output: v,
                ..old(self)@
            }),
    {
        self.last_output = v;
        self.output_queue.push_back(v);
    }

    /// Takes the oldest output not yet taken.
    pub fn read_output(&mut self) -> (r: Option<i64>)
        ensures
            old(self)@.output.len() == 0 ==> (r is None) && final(self)@ == old(self)@,
            old(self)@.output.len() > 0 ==> r == Some(old(self)@.output[0]) && final(self)@
                == (MachineState { output: old(self)@.output.drop_first(), ..old(self)@ }),
    {
        self.output_queue.pop_front()
    }

    /// Executes one instruction; on an error nothing changes.
    pub fn exec_instruction(&mut self) -> (r: Result<StepStatus, VmError>)
        ensures
            match step(old(self)@) {
                Ok((s, st)) => r == Ok::<StepStatus, VmError>(st) && final(self)@ == s,
                Err(e) => r == Err::<StepStatus, VmError>(e) && final(self)@ == old(self)@,
            },
    {
        if self.halted {
            return Ok(StepStatus::Halted);
        }
        let inst = match self.instruction() {
            Ok(inst) => inst,
            Err(e) => return Err(e),
        };
        let op = match inst.opcode() {
            Ok(op) => op,
            Err(e) => return Err(e),
        };
        match op {
            Opcode::Add | Opcode::Mul | Opcode::LessThan | Opcode::Equals => {
                let a = match self.param(&inst, 1) {
                    Ok(a) => a,
                    Err(e) => return Err(e),
                };
                let b = match self.param(&inst, 2) {
                    Ok(b) => b,
                    Err(e) => return Err(e),
                };
                let value = match op {
                    Opcode::Add => a.checked_add(b),
                    Opcode::Mul => a.checked_mul(b),
                    Opcode::LessThan => Some(if a < b { 1i64 } else { 0i64 }),
                    _ => Some(if a == b { 1i64 } else { 0i64 }),
                };
                let value = match value {
                    Some(x) => x,
                    None => return Err(VmError::Overflow),
                };
                proof {
                    lemma_target_in_bounds(self@, inst.v, 3);
                }
                match self.write_param(&inst, 3, value) {
                    Ok(()) => {},
                    Err(e) => return Err(e),
                }
                assert(self.ip + 3 < self.mem.len());
                self.ip = self.ip + 4;
                Ok(StepStatus::Advanced)
            },
            Opcode::Input => {
                if self.input_queue.len() == 0 {
                    return Ok(StepStatus::AwaitingInput);
                }
                proof {
                    lemma_target_in_bounds(self@, inst.v, 1);
                }
                let a = match self.write_address(&inst, 1) {
                    Ok(a) => a,
                    Err(e) => return Err(e),
                };
                assert(self.ip + 1 < self.mem.len());
                match self.read_input() {
                    Some(v) => {
                        self.mem.set(a, v);
                    },
                    None => {},
                }
                self.ip = self.ip + 2;
                Ok(StepStatus::Advanced)
            },
            Opcode::Output => {
                let a = match self.param(&inst, 1) {
                    Ok(a) => a,
                    Err(e) => return Err(e),
                };
                proof {
                    lemma_target_in_bounds(old(self)@, inst.v, 1);
                }
                assert(self.ip + 1 < self.mem.len());
                self.write_output(a);
                self.ip = self.ip + 2;
                Ok(StepStatus::Advanced)
            },
            Opcode::JumpIfTrue | Opcode::JumpIfFalse => {
                let a = match self.param(&inst, 1) {
                    Ok(a) => a,
                    Err(e) => return Err(e),
                };
                let b = match self.param(&inst, 2) {
                    Ok(b) => b,
                    Err(e) => return Err(e),
                };
                proof {
                    lemma_target_in_bounds(old(self)@, inst.v, 2);
                }
                assert(self.ip + 2 < self.mem.len());
                let taken = (a != 0) == (op == Opcode::JumpIfTrue);
                if !taken {
                    self.ip = self.ip + 3;
                } else if b >= 0 && (b as i128) < self.mem.len() as i128 {
                    self.ip = b as usize;
                } else {
                    return Err(VmError::MemoryFault);
                }
                Ok(StepStatus::Advanced)
            },
            Opcode::RelativeBase => {
                let a = match self.param(&inst, 1) {
                    Ok(a) => a,
                    Err(e) => return Err(e),
                };
                proof {
                    lemma_target_in_bounds(old(self)@, inst.v, 1);
                }
                assert(self.ip + 1 < self.mem.len());
                match self.rb.checked_add(a) {
                    Some(rb) => {
                        self.rb = rb;
                    },
                    None => return Err(VmError::Overflow),
                }
                self.ip = self.ip + 2;
                Ok(StepStatus::Advanced)
            },
            Opcode::Halt => {
                self.halted = true;
                Ok(StepStatus::Halted)
            },
        }
    }

    /// Steps until the processor halts or waits for input, at most `max_steps` times.
    pub fn run(&mut self, max_steps: u64) -> (r: Result<RunOutcome, VmError>)
        ensures
            match run_steps(old(self)@, max_steps as nat) {
                Ok((s, o)) => r == Ok::<RunOutcome, VmError>(o) && final(self)@ == s,
                Err(e) => r == Err::<RunOutcome, VmError>(e),
            },
    {
        let ghost start = self@;
        let mut fuel: u64 = max_steps;
        loop
            invariant
                start == old(self)@,
                run_steps(self@, fuel as nat) == run_steps(start, max_steps as nat),
            decreases fuel,
        {
            if self.halted {
                return Ok(RunOutcome::Halted);
            }
            if fuel == 0 {
                return Ok(RunOutcome::StepLimit);
            }
            match self.exec_instruction() {
                Err(e) => return Err(e),
                Ok(StepStatus::AwaitingInput) => return Ok(RunOutcome::AwaitingInput),
                Ok(_) => {},
            }
            fuel = fuel - 1;
        }
    }

    /// Runs the processor as `run` does and hands it back.
    pub fn exec(self, max_steps: u64) -> (r: Result<Computer, VmError>)
        ensures
            match run_steps(self@, max_steps as nat) {
                Ok((s, o)) => (r is Ok) && r->Ok_0@ == s,
                Err(e) => r == Err::<Computer, VmError>(e),
            },
    {
        let mut c = self;
        match c.run(max_steps) {
            Ok(_) => Ok(c),
            Err(e) => Err(e),
        }
    }

    /// Takes every output not yet taken, oldest first.
    pub fn drain_output(&mut self) -> (r: Vec<i64>)
        ensures
            r@ == old(self)@.output,
            final(self)@ == (MachineState { output: Seq::empty(), ..old(self)@ }),
    {
        let ghost start = self@;
        let mut r: Vec<i64> = Vec::new();
        while self.output_queue.len() > 0
            invariant
                start == old(self)@,
                r@ + self@.output == start.output,
                self@ == (MachineState { output: self@.output, ..start }),
            decreases self@.output.len(),
        {
            let ghost before = self@.output;
            match self.output_queue.pop_front() {
                Some(v) => {
                    r.push(v);
                    assert(r@ + self@.output =~= start.output) by {
                        assert(before =~= seq![v] + self@.output);
                    }
                },
                None => {},
            }
        }
        assert(r@ =~= start.output);
        assert(self@.output =~= Seq::<i64>::empty());
        r
    }

    /// The memory cells.
    pub fn memory(&self) -> (r: &Vec<i64>)
        ensures
            r@ == self@.mem,
    {
        &self.mem
    }

    pub fn is_halted(&self) -> (r: bool)
        ensures
            r == self@.halted,
    {
        self.halted
    }

    /// The most recent output (0 before any).
    pub fn last_output(&self) -> (r: i64)
        ensures
            r == self@.last_output,
    {
        self.last_output
    }

    pub fn instruction_pointer(&self) -> (r: usize)
        ensures
            r == self@.ip,
    {
        self.ip
    }

    pub fn relative_base(&self) -> (r: i64)
        ensures
            r == self@.rb,
    {
        self.rb
    }
}

} // verus!

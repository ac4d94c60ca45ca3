//! Decoding of instruction words: opcodes and parameter addressing modes.
use vstd::prelude::*;

verus! {

/// The operations of the machine.
#[derive(Debug, Clone, Copy, PartialEq, Eq, Structural)]
pub enum Opcode {
    Add,
    Mul,
    Input,
    Output,
    JumpIfTrue,
    JumpIfFalse,
    LessThan,
    Equals,
    RelativeBase,
    Halt,
}

/// How a parameter's raw value is interpreted.
#[derive(Debug, Clone, Copy, PartialEq, Eq, Structural)]
pub enum ParamMode {
    /// The raw value is an address.
    Position,
    /// The raw value is the operand itself; never a write target.
    Immediate,
    /// The raw value is an offset from the relative base.
    Relative,
}

/// The fatal conditions that abort a machine.
#[derive(Debug, Clone, Copy, PartialEq, Eq, Structural)]
pub enum VmError {
    /// The instruction word (carried) does not name a known opcode.
    InvalidOpcode(i64),
    /// The instruction word (carried) holds a mode digit outside {0, 1, 2}.
    InvalidParameterMode(i64),
    /// An immediate-mode parameter was used as a write destination.
    InvalidWriteTarget,
    /// An address lies outside memory (negative or past its capacity).
    MemoryFault,
    /// An addition, a multiplication or a relative-base update left the
    /// range of a 64-bit cell.
    Overflow,
}

/// `10` to the power `n`.
pub open spec fn pow10(n: nat) -> int
    decreases n,
{
    if n == 0 {
        1
    } else {
        10 * pow10((n - 1) as nat)
    }
}

/// The opcode that an instruction word names: its two low decimal digits.
pub open spec fn opcode_of(v: i64) -> Result<Opcode, VmError> {
    if v < 0 {
        Err(VmError::InvalidOpcode(v))
    } else {
        let c = v % 100;
        if c == 1 {
            Ok(Opcode::Add)
        } else if c == 2 {
            Ok(Opcode::Mul)
        } else if c == 3 {
            Ok(Opcode::Input)
        } else if c == 4 {
            Ok(Opcode::Output)
        } else if c == 5 {
            Ok(Opcode::JumpIfTrue)
        } else if c == 6 {
            Ok(Opcode::JumpIfFalse)
        } else if c == 7 {
            Ok(Opcode::LessThan)
        } else if c == 8 {
            Ok(Opcode::Equals)
        } else if c == 9 {
            Ok(Opcode::RelativeBase)
        } else if c == 99 {
            Ok(Opcode::Halt)
        } else {
            Err(VmError::InvalidOpcode(v))
        }
    }
}

/// The mode digit of parameter `i`: `(v / 10^(i+1)) % 10`, with the
/// quotient and remainder truncated toward zero as machine arithmetic does.
pub open spec fn mode_digit(v: int, i: nat) -> int {
    if v >= 0 {
        (v / pow10(i + 1)) % 10
    } else {
        -((-v / pow10(i + 1)) % 10)
    }
}

/// The addressing mode of parameter `i` of instruction word `v`.
pub open spec fn mode_of(v: i64, i: nat) -> Result<ParamMode, VmError> {
    let d = mode_digit(v as int, i);
    if d == 0 {
        Ok(ParamMode::Position)
    } else if d == 1 {
        Ok(ParamMode::Immediate)
    } else if d == 2 {
        Ok(ParamMode::Relative)
    } else {
        Err(VmError::InvalidParameterMode(v))
    }
}

/// A decoded view of one memory cell.
pub struct Instruction {
    pub v: i64,
}

impl Instruction {
    pub fn opcode(&self) -> (r: Result<Opcode, VmError>)
        ensures
            r == opcode_of(self.v),
    {
        if self.v < 0 {
            return Err(VmError::InvalidOpcode(self.v));
        }
        match self.v % 100 {
            1 => Ok(Opcode::Add),
            2 => Ok(Opcode::Mul),
            3 => Ok(Opcode::Input),
            4 => Ok(Opcode::Output),
            5 => Ok(Opcode::JumpIfTrue),
            6 => Ok(Opcode::JumpIfFalse),
            7 => Ok(Opcode::LessThan),
            8 => Ok(Opcode::Equals),
            9 => Ok(Opcode::RelativeBase),
            99 => Ok(Opcode::Halt),
            _ => Err(VmError::InvalidOpcode(self.v)),
        }
    }

    pub fn param_mode(&self, param_index: u32) -> (r: Result<ParamMode, VmError>)
        requires
            1 <= param_index <= 3,
        ensures
            r == mode_of(self.v, param_index as nat),
    {
        let divisor: u64 = if param_index == 1 {
            100
        } else if param_index == 2 {
            1000
        } else {
            10000
        };
        proof {
            reveal_with_fuel(pow10, 5);
        }
        let magnitude: u64 = if self.v >= 0 {
            self.v as u64
        } else {
            ((-(self.v + 1)) as u64) + 1
        };
        let digit: u64 = (magnitude / divisor) % 10;
        if digit == 0 {
            Ok(ParamMode::Position)
        } else if self.v < 0 {
            Err(VmError::InvalidParameterMode(self.v))
        } else if digit == 1 {
            Ok(ParamMode::Immediate)
        } else if digit == 2 {
            Ok(ParamMode::Relative)
        } else {
            Err(VmError::InvalidParameterMode(self.v))
        }
    }
}

} // verus!

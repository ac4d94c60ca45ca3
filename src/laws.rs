//! General facts about the machine's semantics.
use vstd::prelude::*;

use crate::decode::{mode_of, opcode_of, pow10, Opcode, ParamMode, VmError};
use crate::machine::{cell, initial_state, run_steps, step, MachineState, RunOutcome, StepStatus};
use crate::network::{run_network, NetworkState};

verus! {

/// `s` with its input queue replaced by `input`.
pub open spec fn with_input(s: MachineState, input: Seq<i64>) -> MachineState {
    MachineState { input, ..s }
}

/// Whether the next step of `s` fetches an input instruction.
pub open spec fn reads_input_next(s: MachineState) -> bool {
    !s.halted && (cell(s.mem, s.ip) matches Ok(v) && opcode_of(v) == Ok::<Opcode, VmError>(
        Opcode::Input,
    ))
}

/// Whether a run of at most `fuel` steps from `s` fetches no input instruction.
pub open spec fn input_free(s: MachineState, fuel: nat) -> bool
    decreases fuel,
{
    if s.halted || fuel == 0 {
        true
    } else {
        !reads_input_next(s) && match step(s) {
            Ok((s2, _)) => input_free(s2, (fuel - 1) as nat),
            Err(_) => true,
        }
    }
}

/// Halting is final: a halted processor neither fetches nor changes, however
/// long it runs.
pub proof fn lemma_halted_is_terminal(s: MachineState, fuel: nat)
    requires
        s.halted,
    ensures
        step(s) == Ok::<(MachineState, StepStatus), VmError>((s, StepStatus::Halted)),
        run_steps(s, fuel) == Ok::<(MachineState, RunOutcome), VmError>((s, RunOutcome::Halted)),
{
}

/// A processor waiting for input stays exactly as it was until a value is
/// injected.
pub proof fn lemma_waiting_changes_nothing(s: MachineState)
    ensures
        step(s) matches Ok((t, st)) ==> (st == StepStatus::AwaitingInput ==> t == s
            && s.input.len() == 0 && reads_input_next(s)),
{
}

/// A step that fetches no input instruction does not look at the input queue.
pub proof fn lemma_step_ignores_input(s: MachineState, input: Seq<i64>)
    requires
        !reads_input_next(s),
    ensures
        step(with_input(s, input)) == match step(s) {
            Ok((t, st)) => Ok::<(MachineState, StepStatus), VmError>((with_input(t, input), st)),
            Err(e) => Err(e),
        },
{
}

/// A run that fetches no input instruction ends in the same memory,
/// registers and outputs whatever the input queue holds, and leaves the
/// queue as it was.
pub proof fn lemma_run_ignores_input(s: MachineState, input: Seq<i64>, fuel: nat)
    requires
        input_free(s, fuel),
    ensures
        run_steps(with_input(s, input), fuel) == match run_steps(s, fuel) {
            Ok((t, o)) => Ok::<(MachineState, RunOutcome), VmError>((with_input(t, input), o)),
            Err(e) => Err(e),
        },
        run_steps(s, fuel) matches Ok((t, _)) ==> t.input == s.input,
    decreases fuel,
{
    if !s.halted && fuel > 0 {
        lemma_step_ignores_input(s, input);
        match step(s) {
            Ok((s2, st)) => {
                assert(st != StepStatus::AwaitingInput);
                lemma_run_ignores_input(s2, input, (fuel - 1) as nat);
                assert(with_input(with_input(s2, input), input) == with_input(s2, input));
            },
            Err(_) => {},
        }
    } else {
        assert(with_input(s, input).halted == s.halted);
    }
}

/// A comparison instruction writes only 0 or 1, and to one cell at most.
pub proof fn lemma_comparison_writes_flag(s: MachineState)
    requires
        !s.halted,
        cell(s.mem, s.ip) matches Ok(v) && (opcode_of(v) == Ok::<Opcode, VmError>(
            Opcode::LessThan,
        ) || opcode_of(v) == Ok::<Opcode, VmError>(Opcode::Equals)),
    ensures
        step(s) matches Ok((t, _)) ==> {
            &&& t.mem.len() == s.mem.len()
            &&& forall|i: int|
                0 <= i < s.mem.len() && #[trigger] t.mem[i] != s.mem[i] ==> t.mem[i] == 0
                    || t.mem[i] == 1
            &&& forall|i: int, j: int|
                0 <= i < j < s.mem.len() && #[trigger] t.mem[i] != s.mem[i] ==> #[trigger] t.mem[j]
                    == s.mem[j]
        },
{
}

/// Runs are determined by the state they start from: running equal states
/// for equal budgets gives equal outputs, memory and outcome.
pub proof fn lemma_run_deterministic(s1: MachineState, s2: MachineState, fuel: nat)
    requires
        s1 == s2,
    ensures
        run_steps(s1, fuel) == run_steps(s2, fuel),
{
}

/// Network runs are determined by the state they start from.
pub proof fn lemma_network_deterministic(n1: NetworkState, n2: NetworkState, fuel: nat)
    requires
        n1 == n2,
    ensures
        run_network(n1, fuel) == run_network(n2, fuel),
{
}

/// A word below 100 reads every parameter in position mode.
pub proof fn lemma_small_word_modes(v: i64)
    requires
        0 <= v < 100,
    ensures
        mode_of(v, 1) == Ok::<ParamMode, VmError>(ParamMode::Position),
        mode_of(v, 2) == Ok::<ParamMode, VmError>(ParamMode::Position),
        mode_of(v, 3) == Ok::<ParamMode, VmError>(ParamMode::Position),
{
    reveal_with_fuel(pow10, 5);
    assert(pow10(2) == 100);
    assert(pow10(3) == 1000);
    assert(pow10(4) == 10000);
    assert(v / 100 == 0);
    assert(v / 1000 == 0);
    assert(v / 10000 == 0);
}

/// The program `3,9,8,9,10,9,4,9,99,-1,8` reads one number and writes 1 when
/// it equals 8 and 0 otherwise, whatever the number.
pub proof fn lemma_equals_eight_program(x: i64)
    ensures
        ({
            let program = seq![3i64, 9, 8, 9, 10, 9, 4, 9, 99, -1i64, 8];
            let s = MachineState { input: seq![x], ..initial_state(program) };
            run_steps(s, 10) matches Ok((t, o)) && o == RunOutcome::Halted && t.output == seq![
                if x == 8 {
                    1i64
                } else {
                    0i64
                },
            ]
        }),
{
    let program = seq![3i64, 9, 8, 9, 10, 9, 4, 9, 99, -1i64, 8];
    let s0 = MachineState { input: seq![x], ..initial_state(program) };
    lemma_small_word_modes(3);
    lemma_small_word_modes(8);
    lemma_small_word_modes(4);
    lemma_small_word_modes(99);
    let flag: i64 = if x == 8 {
        1
    } else {
        0
    };
    let s1 = MachineState { mem: program.update(9, x), input: seq![], ip: 2, ..s0 };
    assert(s0.input.drop_first() =~= Seq::<i64>::empty());
    assert(step(s0) == Ok::<(MachineState, StepStatus), VmError>((s1, StepStatus::Advanced)));
    let s2 = MachineState { mem: s1.mem.update(9, flag), ip: 6, ..s1 };
    assert(step(s1) == Ok::<(MachineState, StepStatus), VmError>((s2, StepStatus::Advanced)));
    let s3 = MachineState { output: seq![flag], last_output: flag, ip: 8, ..s2 };
    assert(s2.output.push(flag) =~= seq![flag]);
    assert(step(s2) == Ok::<(MachineState, StepStatus), VmError>((s3, StepStatus::Advanced)));
    let s4 = MachineState { halted: true, ..s3 };
    assert(step(s3) == Ok::<(MachineState, StepStatus), VmError>((s4, StepStatus::Halted)));
    reveal_with_fuel(run_steps, 5);
}

} // verus!

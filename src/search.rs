//! Searching for the noun and verb that make a program produce a value.
use vstd::prelude::*;

use crate::decode::VmError;
use crate::machine::{initial_state, lemma_run_keeps_memory_size, run_steps, Computer, RunOutcome};

verus! {

/// Nouns and verbs both range over `0..LIMIT`.
pub const NOUN_VERB_LIMIT: i64 = 99;

/// The run of `program` with `noun` at address 1 and `verb` at address 2.
pub open spec fn run_with(program: Seq<i64>, noun: i64, verb: i64, fuel: nat) -> Result<
    (crate::machine::MachineState, RunOutcome),
    VmError,
> {
    run_steps(initial_state(program.update(1, noun).update(2, verb)), fuel)
}

/// Trying the pairs in order from pair `idx` on (noun `idx / 99`, verb
/// `idx % 99`): the first whose run halts with `target` at address 0.
pub open spec fn search_from(program: Seq<i64>, target: i64, fuel: nat, idx: int) -> Result<
    Option<(i64, i64)>,
    VmError,
>
    decreases 99 * 99 - idx,
{
    if idx < 0 || idx >= 99 * 99 {
        Ok(None)
    } else {
        let noun = (idx / 99) as i64;
        let verb = (idx % 99) as i64;
        match run_with(program, noun, verb, fuel) {
            Err(e) => Err(e),
            Ok((s, o)) => if o == RunOutcome::Halted && s.mem[0] == target {
                Ok(Some((noun, verb)))
            } else {
                search_from(program, target, fuel, idx + 1)
            },
        }
    }
}

/// The first noun and verb, nouns outermost, for which `program` halts
/// within `max_steps` steps with `target` at address 0.
pub fn find_noun_verb(program: &Vec<i64>, target: i64, max_steps: u64) -> (r: Result<
    Option<(i64, i64)>,
    VmError,
>)
    requires
        program@.len() > 2,
    ensures
        r == search_from(program@, target, max_steps as nat, 0),
{
    let mut noun: i64 = 0;
    while noun < NOUN_VERB_LIMIT
        invariant
            0 <= noun <= 99,
            program@.len() > 2,
            search_from(program@, target, max_steps as nat, 0) == search_from(
                program@,
                target,
                max_steps as nat,
                noun * 99,
            ),
        decreases 99 - noun,
    {
        let mut verb: i64 = 0;
        while verb < NOUN_VERB_LIMIT
            invariant
                0 <= noun < 99,
                0 <= verb <= 99,
                program@.len() > 2,
                search_from(program@, target, max_steps as nat, 0) == search_from(
                    program@,
                    target,
                    max_steps as nat,
                    noun * 99 + verb,
                ),
            decreases 99 - verb,
        {
            let ghost idx = noun * 99 + verb;
            assert(idx / 99 == noun && idx % 99 == verb && 0 <= idx < 99 * 99) by (nonlinear_arith)
                requires
                    idx == noun * 99 + verb,
                    0 <= verb < 99,
                    0 <= noun < 99,
            ;
            let mut computer = Computer::new(program.clone());
            assert(computer@.mem =~= program@);
            let _ = computer.write_mem(1, noun);
            let _ = computer.write_mem(2, verb);
            assert(computer@ == initial_state(program@.update(1, noun).update(2, verb)));
            proof {
                lemma_run_keeps_memory_size(computer@, max_steps as nat);
            }
            match computer.run(max_steps) {
                Err(e) => return Err(e),
                Ok(outcome) => {
                    let matched = match computer.read_mem(0) {
                        Ok(value) => value == target,
                        Err(_) => false,
                    };
                    if outcome == RunOutcome::Halted && matched {
                        return Ok(Some((noun, verb)));
                    }
                },
            }
            verb = verb + 1;
        }
        noun = noun + 1;
    }
    Ok(None)
}

} // verus!

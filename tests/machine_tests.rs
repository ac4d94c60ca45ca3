use intcode::decode::{Instruction, Opcode, ParamMode, VmError};
use intcode::machine::{Computer, RunOutcome, StepStatus};
use intcode::network::{maximise_thruster_power, run_thruster_amps, AmplifierNetwork, NetworkError};
use intcode::program::{load_program, parse_program, MEM_SIZE};
use intcode::search::find_noun_verb;
use intcode::text::ParseError;

const BUDGET: u64 = 10_000_000;

fn run_outputs(code: &str, inputs: &[i64]) -> (Vec<i64>, Computer) {
    let mut c = Computer::new(parse_program(code).unwrap());
    for v in inputs {
        c.inject_input(*v);
    }
    assert_eq!(c.run(BUDGET), Ok(RunOutcome::Halted));
    (c.drain_output(), c)
}

#[test]
fn test_cpu() {
    let test_data = [
        ("1,0,0,0,99", "2,0,0,0,99"),
        ("2,3,0,3,99", "2,3,0,6,99"),
        ("2,4,4,5,99,0", "2,4,4,5,99,9801"),
        ("1,1,1,4,99,5,6,0,99", "30,1,1,4,2,5,6,0,99"),
    ];
    for (start_state, end_state) in &test_data {
        let c = Computer::new(load_program(start_state).unwrap()).exec(BUDGET).unwrap();
        assert_eq!(c.memory(), &load_program(end_state).unwrap());
    }
}

#[test]
fn main_test_cpu() {
    let test_data = [
        ("109,1,204,-1,1001,100,1,100,1008,100,16,101,1006,101,0,99",),
        ("1102,34915192,34915192,7,4,7,99,0",),
        ("104,1125899906842624,99",),
    ];
    for (code,) in &test_data {
        let program = load_program(code).unwrap();
        let mut c = Computer::new(program);
        assert_eq!(c.run(BUDGET), Ok(RunOutcome::Halted));
    }
}

#[test]
fn amplifier_search_serial_programs() {
    let test_data = [
        ("3,15,3,16,1002,16,10,16,1,16,15,15,4,15,99,0,0", 43210_i64),
        (
            "3,23,3,24,1002,24,10,24,1002,23,-1,23,101,5,23,23,1,24,23,23,4,23,99,0,0",
            54321_i64,
        ),
        (
            "3,31,3,32,1002,32,10,32,1001,31,-2,31,1007,31,0,33,1002,33,7,33,1,33,31,31,1,32,31,31,4,31,99,0,0,0",
            65210,
        ),
    ];
    for (code, expected_power) in &test_data {
        let program = parse_program(code).unwrap();
        let (max_power, _phases) = maximise_thruster_power(&program, &vec![0, 1, 2, 3, 4], BUDGET).unwrap();
        assert_eq!(max_power, *expected_power);
    }
}

#[test]
fn amplifier_search_feedback_programs() {
    let test_data = [
        ("3,26,1001,26,-4,26,3,27,1002,27,2,27,1,27,26,27,4,27,1001,28,-1,28,1005,28,6,99,0,0,5", 139629729_i64),
        ("3,52,1001,52,-5,52,3,53,1,52,56,54,1007,54,5,55,1005,55,26,1001,54,-5,54,1105,1,12,1,53,54,53,1008,54,0,55,1001,55,1,55,2,53,55,53,4,53,1001,56,-1,56,1005,56,6,99,0,0,0,0,10", 18216),
    ];
    for (code, expected_power) in &test_data {
        let program = parse_program(code).unwrap();
        let (max_power, _phases) = maximise_thruster_power(&program, &vec![5, 6, 7, 8, 9], BUDGET).unwrap();
        assert_eq!(max_power, *expected_power);
    }
}

#[test]
fn test_param_mode() {
    assert_eq!(Instruction { v: 100 }.param_mode(1), Ok(ParamMode::Immediate));
    assert_eq!(Instruction { v: 100 }.param_mode(2), Ok(ParamMode::Position));
    assert_eq!(Instruction { v: 100 }.param_mode(3), Ok(ParamMode::Position));
    assert_eq!(Instruction { v: 1000 }.param_mode(1), Ok(ParamMode::Position));
    assert_eq!(Instruction { v: 1100 }.param_mode(2), Ok(ParamMode::Immediate));
    assert_eq!(Instruction { v: 1100 }.param_mode(3), Ok(ParamMode::Position));
}

#[test]
fn main_test_param_mode() {
    assert_eq!(Instruction { v: 100 }.param_mode(1), Ok(ParamMode::Immediate));
    assert_eq!(Instruction { v: 100 }.param_mode(2), Ok(ParamMode::Position));
    assert_eq!(Instruction { v: 100 }.param_mode(3), Ok(ParamMode::Position));
    assert_eq!(Instruction { v: 1000 }.param_mode(1), Ok(ParamMode::Position));
    assert_eq!(Instruction { v: 1100 }.param_mode(2), Ok(ParamMode::Immediate));
    assert_eq!(Instruction { v: 1100 }.param_mode(3), Ok(ParamMode::Position));
}

#[test]
fn decodes_mixed_modes() {
    let inst = Instruction { v: 1002 };
    assert_eq!(inst.opcode(), Ok(Opcode::Mul));
    assert_eq!(inst.param_mode(1), Ok(ParamMode::Position));
    assert_eq!(inst.param_mode(2), Ok(ParamMode::Immediate));
    assert_eq!(inst.param_mode(3), Ok(ParamMode::Position));
    assert_eq!(Instruction { v: 21209 }.param_mode(1), Ok(ParamMode::Relative));
    assert_eq!(Instruction { v: 21209 }.param_mode(3), Ok(ParamMode::Relative));
    assert_eq!(Instruction { v: 399 }.param_mode(1), Err(VmError::InvalidParameterMode(399)));
    assert_eq!(Instruction { v: 42 }.opcode(), Err(VmError::InvalidOpcode(42)));
    assert_eq!(Instruction { v: -1 }.opcode(), Err(VmError::InvalidOpcode(-1)));
    assert_eq!(Instruction { v: 99 }.opcode(), Ok(Opcode::Halt));
    assert_eq!(Instruction { v: 209 }.opcode(), Ok(Opcode::RelativeBase));
}

#[test]
fn golden_memory_vectors() {
    let cases = [
        ("1,0,0,0,99", vec![2, 0, 0, 0, 99]),
        ("2,3,0,3,99", vec![2, 3, 0, 6, 99]),
        ("1,1,1,4,99,5,6,0,99", vec![30, 1, 1, 4, 2, 5, 6, 0, 99]),
    ];
    for (code, expected) in cases.iter() {
        let mut c = Computer::new(parse_program(code).unwrap());
        assert_eq!(c.run(100), Ok(RunOutcome::Halted));
        assert!(c.is_halted());
        assert_eq!(c.memory(), expected);
    }
}

#[test]
fn comparison_outputs_are_flags() {
    let equal_8_position = "3,9,8,9,10,9,4,9,99,-1,8";
    let less_8_position = "3,9,7,9,10,9,4,9,99,-1,8";
    let equal_8_immediate = "3,3,1108,-1,8,3,4,3,99";
    let less_8_immediate = "3,3,1107,-1,8,3,4,3,99";
    for x in [-1000000i64, -8, 0, 7, 8, 9, 1 << 40] {
        let expect_eq = if x == 8 { 1 } else { 0 };
        let expect_lt = if x < 8 { 1 } else { 0 };
        assert_eq!(run_outputs(equal_8_position, &[x]).0, vec![expect_eq]);
        assert_eq!(run_outputs(equal_8_immediate, &[x]).0, vec![expect_eq]);
        assert_eq!(run_outputs(less_8_position, &[x]).0, vec![expect_lt]);
        assert_eq!(run_outputs(less_8_immediate, &[x]).0, vec![expect_lt]);
    }
}

#[test]
fn jumps_follow_their_condition() {
    let position = "3,12,6,12,15,1,13,14,13,4,13,99,-1,0,1,9";
    let immediate = "3,3,1105,-1,9,1101,0,0,12,4,12,99,1";
    for x in [0i64, 5, -3] {
        let expected = if x == 0 { 0 } else { 1 };
        assert_eq!(run_outputs(position, &[x]).0, vec![expected]);
        assert_eq!(run_outputs(immediate, &[x]).0, vec![expected]);
    }
}

#[test]
fn relative_mode_quine_reproduces_itself() {
    let code = "109,1,204,-1,1001,100,1,100,1008,100,16,101,1006,101,0,99";
    let mut c = Computer::new(load_program(code).unwrap());
    assert_eq!(c.run(BUDGET), Ok(RunOutcome::Halted));
    assert_eq!(c.drain_output(), parse_program(code).unwrap());
    assert_eq!(c.relative_base(), 16);
}

#[test]
fn large_numbers() {
    let (out, _) = run_outputs("1102,34915192,34915192,7,4,7,99,0", &[]);
    assert_eq!(out, vec![1219070632396864]);
    let (out, c) = run_outputs("104,1125899906842624,99", &[]);
    assert_eq!(out, vec![1125899906842624]);
    assert_eq!(c.last_output(), 1125899906842624);
}

#[test]
fn feedback_network_output() {
    let program = parse_program(
        "3,26,1001,26,-4,26,3,27,1002,27,2,27,1,27,26,27,4,27,1001,28,-1,28,1005,28,6,99,0,0,5",
    )
    .unwrap();
    assert_eq!(run_thruster_amps(&program, &vec![9, 8, 7, 6, 5], BUDGET), Ok(139629729));
    let mut network = AmplifierNetwork::new(&program, &vec![9, 8, 7, 6, 5]);
    assert_eq!(network.run(BUDGET), Ok(Some(139629729)));
    assert_eq!(network.output(), 139629729);
    assert_eq!(run_thruster_amps(&program, &vec![9, 8, 7, 6, 5], 2), Err(NetworkError::PassLimit));
}

#[test]
fn search_is_repeatable() {
    let program = parse_program(
        "3,52,1001,52,-5,52,3,53,1,52,56,54,1007,54,5,55,1005,55,26,1001,54,-5,54,1105,1,12,1,53,54,53,1008,54,0,55,1001,55,1,55,2,53,55,53,4,53,1001,56,-1,56,1005,56,6,99,0,0,0,0,10",
    )
    .unwrap();
    let first = maximise_thruster_power(&program, &vec![5, 6, 7, 8, 9], BUDGET).unwrap();
    let second = maximise_thruster_power(&program, &vec![5, 6, 7, 8, 9], BUDGET).unwrap();
    assert_eq!(first, second);
    assert_eq!(first, (18216, vec![9, 7, 8, 5, 6]));
    assert_eq!(run_thruster_amps(&program, &first.1, BUDGET), Ok(18216));
}

#[test]
fn runs_are_repeatable() {
    let code = "3,9,8,9,10,9,4,9,99,-1,8";
    let (out1, c1) = run_outputs(code, &[8]);
    let (out2, c2) = run_outputs(code, &[8]);
    assert_eq!(out1, out2);
    assert_eq!(c1.memory(), c2.memory());
}

#[test]
fn input_free_program_ignores_inputs() {
    let code = "1,1,1,4,99,5,6,0,99";
    let mut a = Computer::new(parse_program(code).unwrap());
    let mut b = Computer::new(parse_program(code).unwrap());
    b.inject_input(7);
    b.inject_input(-3);
    assert_eq!(a.run(100), Ok(RunOutcome::Halted));
    assert_eq!(b.run(100), Ok(RunOutcome::Halted));
    assert_eq!(a.memory(), b.memory());
    assert_eq!(b.read_input(), Some(7));
}

#[test]
fn input_blocks_until_injected() {
    let mut c = Computer::new(parse_program("3,0,4,0,99").unwrap());
    assert_eq!(c.exec_instruction(), Ok(StepStatus::AwaitingInput));
    assert_eq!(c.instruction_pointer(), 0);
    assert_eq!(c.run(100), Ok(RunOutcome::AwaitingInput));
    c.inject_input(42);
    assert_eq!(c.exec_instruction(), Ok(StepStatus::Advanced));
    assert_eq!(c.instruction_pointer(), 2);
    assert_eq!(c.exec_instruction(), Ok(StepStatus::Advanced));
    assert_eq!(c.read_output(), Some(42));
    assert_eq!(c.read_output(), None);
    assert_eq!(c.exec_instruction(), Ok(StepStatus::Halted));
    assert_eq!(c.exec_instruction(), Ok(StepStatus::Halted));
    assert!(c.is_halted());
}

#[test]
fn step_limit_stops_a_loop() {
    let mut c = Computer::new(parse_program("1105,1,0").unwrap());
    assert_eq!(c.run(1000), Ok(RunOutcome::StepLimit));
    assert!(!c.is_halted());
}

#[test]
fn fatal_errors() {
    let mut c = Computer::new(parse_program("42,0,0,0").unwrap());
    assert_eq!(c.exec_instruction(), Err(VmError::InvalidOpcode(42)));
    let mut c = Computer::new(parse_program("301,0,0,0,99").unwrap());
    assert_eq!(c.exec_instruction(), Err(VmError::InvalidParameterMode(301)));
    let mut c = Computer::new(parse_program("11101,0,0,0,99").unwrap());
    assert_eq!(c.exec_instruction(), Err(VmError::InvalidWriteTarget));
    let mut c = Computer::new(parse_program("1,100,0,0,99").unwrap());
    assert_eq!(c.exec_instruction(), Err(VmError::MemoryFault));
    assert_eq!(c.memory(), &vec![1, 100, 0, 0, 99]);
    let mut c = Computer::new(parse_program("1,0,0,-1,99").unwrap());
    assert_eq!(c.exec_instruction(), Err(VmError::MemoryFault));
    let mut c = Computer::new(parse_program("1002,5,2,0,99,4611686018427387904").unwrap());
    assert_eq!(c.exec_instruction(), Err(VmError::Overflow));
    let mut c = Computer::new(parse_program("99").unwrap());
    assert_eq!(c.exec_instruction(), Ok(StepStatus::Halted));
    let mut c = Computer::new(parse_program("1105,1,7,99").unwrap());
    assert_eq!(c.exec_instruction(), Err(VmError::MemoryFault));
    assert_eq!(c.read_mem(9), Err(VmError::MemoryFault));
    assert_eq!(c.write_mem(1, 5), Ok(()));
    assert_eq!(c.read_mem(1), Ok(5));
}

#[test]
fn program_text() {
    assert_eq!(parse_program("1,-2,+3,0"), Ok(vec![1, -2, 3, 0]));
    assert_eq!(parse_program("-9223372036854775808,9223372036854775807"), Ok(vec![i64::MIN, i64::MAX]));
    assert_eq!(parse_program("9223372036854775808"), Err(ParseError::InvalidInteger));
    assert_eq!(parse_program("1,x,3"), Err(ParseError::InvalidInteger));
    assert_eq!(parse_program("1,,3"), Err(ParseError::InvalidInteger));
    assert_eq!(parse_program(""), Err(ParseError::InvalidInteger));
    assert_eq!(parse_program("1,2\n"), Err(ParseError::InvalidInteger));
    let mem = load_program("1,2,3").unwrap();
    assert_eq!(mem.len(), MEM_SIZE);
    assert_eq!(&mem[0..4], &[1, 2, 3, 0]);
}

#[test]
fn noun_verb_search() {
    let mut program = vec![1i64, 0, 0, 0, 99];
    for i in 5..105 {
        program.push(i);
    }
    assert_eq!(find_noun_verb(&program, 30, 100), Ok(Some((0, 29))));
    assert_eq!(find_noun_verb(&program, 1000, 100), Ok(None));
    let looping = vec![1105i64, 1, 0];
    assert_eq!(find_noun_verb(&looping, 0, 10), Err(VmError::MemoryFault));
}

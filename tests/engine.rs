use lmc_assembly::{assemble, parse, run, ExecutionState, Output, ScriptedIO};

fn script(inputs: Vec<i16>) -> ScriptedIO {
    ScriptedIO::new(inputs)
}

fn machine(acc: i16, words: &[i16]) -> ExecutionState {
    let mut ram = [0; 100];
    for (i, w) in words.iter().enumerate() {
        ram[i] = *w;
    }
    ExecutionState {
        pc: 0,
        cir: 0,
        mar: 0,
        mdr: 0,
        acc,
        ram,
    }
}

fn image(code: &str) -> [i16; 100] {
    assemble(parse(code).unwrap()).unwrap()
}

#[test]
fn add_past_top_wraps_to_bottom() {
    let mut state = machine(999, &[101, 2]);
    assert_eq!(state.execute(0), Ok(None));
    assert_eq!(state.acc, -998);
    assert_eq!(state.mar, 1);
    assert_eq!(state.pc, 1);
}

#[test]
fn sub_past_bottom_wraps_to_top() {
    let mut state = machine(-999, &[201, 2]);
    assert_eq!(state.execute(0), Ok(None));
    assert_eq!(state.acc, 998);
}

#[test]
fn add_below_bottom_wraps_to_top() {
    let mut state = machine(-999, &[101, -1]);
    assert_eq!(state.execute(0), Ok(None));
    assert_eq!(state.acc, 999);
}

#[test]
fn sub_above_top_wraps_to_bottom() {
    let mut state = machine(999, &[201, -1]);
    assert_eq!(state.execute(0), Ok(None));
    assert_eq!(state.acc, -999);
}

#[test]
fn add_within_range_is_plain() {
    let mut state = machine(500, &[101, 499]);
    assert_eq!(state.execute(0), Ok(None));
    assert_eq!(state.acc, 999);
}

#[test]
fn sum_round_trip_outputs_seven() {
    let program = image("INP\nSTA 99\nINP\nADD 99\nOUT\nHLT");
    let mut io = script(vec![3, 4]);
    assert_eq!(run(program, &mut io, 1000), Ok(Some(6)));
    assert_eq!(io.outputs, vec![Output::Int(7)]);
}

#[test]
fn hlt_alone_halts_after_one_step() {
    let program = image("HLT");
    let mut io = script(vec![]);
    assert_eq!(run(program, &mut io, 1000), Ok(Some(1)));
    assert!(io.outputs.is_empty());

    let mut state = machine(0, &program);
    assert_eq!(state.step(&mut io), Ok(()));
    assert_eq!(state.pc, -1);
    assert!(state.is_halted());
}

#[test]
fn hundred_instructions_fall_off_memory() {
    let code = vec!["LDA 0"; 100].join("\n");
    let program = image(&code);
    let mut io = script(vec![]);
    assert_eq!(run(program, &mut io, 1000), Ok(Some(100)));
    assert!(io.outputs.is_empty());
}

#[test]
fn hundred_outputs_fall_off_memory() {
    let code = vec!["OUT"; 100].join("\n");
    let program = image(&code);
    let mut io = script(vec![]);
    assert_eq!(run(program, &mut io, 1000), Ok(Some(100)));
    assert_eq!(io.outputs, vec![Output::Int(0); 100]);
}

#[test]
fn input_out_of_range_is_fatal() {
    let program = image("INP\nOUT\nHLT");
    let mut io = script(vec![1000]);
    assert_eq!(
        run(program, &mut io, 1000),
        Err("Number out of range".to_string())
    );
    assert!(io.outputs.is_empty());
    assert_eq!(io.given, vec![1000]);
}

#[test]
fn input_below_range_is_fatal() {
    let mut state = machine(0, &[901]);
    assert_eq!(
        state.execute(-1000),
        Err("Number out of range".to_string())
    );
}

#[test]
fn input_at_range_edges_is_accepted() {
    let mut state = machine(0, &[901, 901]);
    assert_eq!(state.execute(-999), Ok(None));
    assert_eq!(state.acc, -999);
    assert_eq!(state.execute(999), Ok(None));
    assert_eq!(state.acc, 999);
}

#[test]
fn undecodable_word_is_fatal() {
    let mut state = machine(0, &[400]);
    assert_eq!(
        state.execute(0),
        Err("Invalid instruction: 400".to_string())
    );
    let mut state = machine(0, &[-5]);
    assert_eq!(
        state.execute(0),
        Err("Invalid instruction: -5".to_string())
    );
}

#[test]
fn stepping_after_halt_is_an_address_error() {
    let mut state = machine(0, &[0]);
    assert_eq!(state.execute(0), Ok(None));
    assert_eq!(state.pc, -1);
    assert_eq!(
        state.execute(0),
        Err("Invalid address: -1".to_string())
    );
}

#[test]
fn otc_emits_low_byte_as_character() {
    let mut state = machine(65, &[922]);
    assert_eq!(state.execute(0), Ok(Some(Output::Char('A'))));
    let mut state = machine(-191, &[922]);
    assert_eq!(state.execute(0), Ok(Some(Output::Char('A'))));
}

#[test]
fn out_emits_accumulator() {
    let mut state = machine(-42, &[902]);
    assert_eq!(state.execute(0), Ok(Some(Output::Int(-42))));
}

#[test]
fn sta_and_lda_move_words() {
    let mut state = machine(17, &[350, 550]);
    assert_eq!(state.execute(0), Ok(None));
    assert_eq!(state.ram[50], 17);
    state.acc = 0;
    assert_eq!(state.execute(0), Ok(None));
    assert_eq!(state.acc, 17);
    assert_eq!(state.mar, 50);
}

#[test]
fn branches_follow_the_accumulator() {
    let mut state = machine(0, &[742]);
    state.execute(0).unwrap();
    assert_eq!(state.pc, 42);

    let mut state = machine(1, &[742]);
    state.execute(0).unwrap();
    assert_eq!(state.pc, 1);

    let mut state = machine(0, &[842]);
    state.execute(0).unwrap();
    assert_eq!(state.pc, 1);

    let mut state = machine(5, &[842]);
    state.execute(0).unwrap();
    assert_eq!(state.pc, 42);

    let mut state = machine(-5, &[642]);
    state.execute(0).unwrap();
    assert_eq!(state.pc, 42);
    assert_eq!(state.mar, 42);
}

#[test]
fn step_reads_input_only_for_inp() {
    let mut io = script(vec![12]);
    let mut state = machine(0, &[902, 901]);
    assert!(!state.reads_input());
    assert_eq!(state.step(&mut io), Ok(()));
    assert!(io.given.is_empty());
    assert!(state.reads_input());
    assert_eq!(state.step(&mut io), Ok(()));
    assert_eq!(state.acc, 12);
    assert_eq!(io.given, vec![12]);
    assert_eq!(io.outputs, vec![Output::Int(0)]);
}

#[test]
fn run_stops_at_cycle_limit() {
    let program = image("loop BRA loop");
    let mut io = script(vec![]);
    assert_eq!(run(program, &mut io, 50), Ok(None));
}

#[test]
fn output_before_a_fault_is_kept() {
    let mut ram = [0; 100];
    ram[0] = 902;
    ram[1] = 400;
    ram[2] = 902;
    let mut io = script(vec![]);
    assert_eq!(
        run(ram, &mut io, 1000),
        Err("Invalid instruction: 400".to_string())
    );
    assert_eq!(io.outputs, vec![Output::Int(0)]);
}

#[test]
fn scripted_io_gives_zero_when_used_up() {
    let program = image("INP\nOUT\nINP\nOUT\nHLT");
    let mut io = script(vec![5]);
    assert_eq!(run(program, &mut io, 1000), Ok(Some(5)));
    assert_eq!(io.given, vec![5, 0]);
    assert_eq!(io.outputs, vec![Output::Int(5), Output::Int(0)]);
}

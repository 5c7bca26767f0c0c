use lmc_assembly::{self, Output, ScriptedIO};

const SUM: &str = "
// adds two numbers
        INP
        STA first
        INP
        ADD first
        OUT
        HLT
first   DAT
";

const FIBONACCI: &str = "
// prints the Fibonacci numbers up to the input
        INP
        STA limit
loop    LDA limit
        SUB a
        BRP show
        BRZ show
        HLT
show    LDA a
        OUT
        ADD b
        STA next
        LDA b
        STA a
        LDA next
        STA b
        BRA loop
limit   DAT
a       DAT 0
b       DAT 1
next    DAT
";

const COUNTDOWN: &str = "
// counts down from the input to zero
        INP
loop    OUT
        BRZ done
        SUB one
        BRA loop
done    HLT
one     DAT 1
";

const MULTIPLICATION: &str = "
// multiplies two numbers by repeated addition
        INP
        STA x
        INP
        STA y
loop    LDA y
        BRZ done
        SUB one
        STA y
        LDA result
        ADD x
        STA result
        BRA loop
done    LDA result
        OUT
        HLT
x       DAT
y       DAT
result  DAT 0
one     DAT 1
";

fn get_program(code: &str) -> [i16; 100] {
    // parse the code
    let program = lmc_assembly::parse(code).unwrap();

    // assemble the program
    lmc_assembly::assemble(program).unwrap()
}

fn run_program(code: &str, input_buffer: Vec<i16>) -> Vec<Output> {
    let assembled = get_program(code);

    // the inputs are taken from the end of the buffer
    let mut script = input_buffer;
    script.reverse();
    let mut io_handler = ScriptedIO::new(script);

    // run the program
    let halted = lmc_assembly::run(assembled, &mut io_handler, 100_000).unwrap();
    assert!(halted.is_some());

    io_handler.outputs
}

#[test]
fn test_sum_1() {
    let output = run_program(SUM, vec![1, 2]);

    // check the output
    assert_eq!(output, vec![Output::Int(3)]);
}

#[test]
fn test_sum_2() {
    let output = run_program(SUM, vec![3, 4]);

    // check the output
    assert_eq!(output, vec![Output::Int(7)]);
}

#[test]
fn test_fibonacci_1() {
    let output = run_program(FIBONACCI, vec![10]);

    // check the output
    assert_eq!(
        output,
        vec![
            Output::Int(0),
            Output::Int(1),
            Output::Int(1),
            Output::Int(2),
            Output::Int(3),
            Output::Int(5),
            Output::Int(8)
        ]
    );
}

#[test]
fn test_fibonacci_2() {
    let output = run_program(FIBONACCI, vec![30]);

    // check the output
    assert_eq!(
        output,
        vec![
            Output::Int(0),
            Output::Int(1),
            Output::Int(1),
            Output::Int(2),
            Output::Int(3),
            Output::Int(5),
            Output::Int(8),
            Output::Int(13),
            Output::Int(21)
        ]
    );
}

#[test]
fn test_countdown_1() {
    let output = run_program(COUNTDOWN, vec![10]);

    let mut expected = vec![];

    for i in (0..=10).rev() {
        expected.push(Output::Int(i));
    }

    // check the output
    assert_eq!(output, expected);
}

#[test]
fn test_countdown_2() {
    let output = run_program(COUNTDOWN, vec![30]);

    let mut expected = vec![];

    for i in (0..=30).rev() {
        expected.push(Output::Int(i));
    }

    // check the output
    assert_eq!(output, expected);
}

#[test]
fn test_multiplication_1() {
    let output = run_program(MULTIPLICATION, vec![2, 3]);

    // check the output
    assert_eq!(output, vec![Output::Int(6)]);
}

#[test]
fn test_multiplication_2() {
    let output = run_program(MULTIPLICATION, vec![5, 7]);

    // check the output
    assert_eq!(output, vec![Output::Int(35)]);
}

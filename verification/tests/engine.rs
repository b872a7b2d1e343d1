use bfc::ir::{ParseError, ParseErrorKind, IR};
use bfc::ports::{QueueSource, VecSink};
use bfc::vm::TapeBoundsError;
use bfc::{VMOptions, VM};

fn options(size: u32, input: Vec<u8>) -> VMOptions<VecSink, QueueSource> {
    VMOptions { memory_buffer_size: size, out_fn: VecSink::new(), in_fn: QueueSource::new(input) }
}

#[test]
fn test_hello_world() {
    let program = "
>++++++++[<+++++++++>-]<.
>++++[<+++++++>-]<+.
+++++++..
+++.
>>++++++[<+++++++>-]<++.
------------.
>++++++[<+++++++++>-]<+.
<.
+++.
------.
--------.
>>>++++[<++++++++>-]<+.";

    let ir = IR::from_str(program).unwrap();
    let mut vm = VM::from_ir(ir, options(30_000, Vec::new()));
    assert_eq!(vm.run(u64::MAX), Ok(false));
    let output = String::from_utf8(vm.out_fn.data.clone()).unwrap();
    assert_eq!(output, "Hello, World!");
}

#[test]
fn test_greeting_writes_13_bytes_and_reads_none() {
    let program = "
>++++++++[<+++++++++>-]<.
>++++[<+++++++>-]<+.
+++++++..
+++.
>>++++++[<+++++++>-]<++.
------------.
>++++++[<+++++++++>-]<+.
<.
+++.
------.
--------.
>>>++++[<++++++++>-]<+.";

    let mut vm = VM::new(program, options(30_000, Vec::new())).unwrap();
    assert_eq!(vm.run(u64::MAX), Ok(false));
    // The sink was invoked exactly 13 times, producing the greeting in order.
    assert_eq!(vm.out_fn.data.len(), 13);
    assert_eq!(vm.out_fn.data, b"Hello, World!".to_vec());
    // No input instruction ever invoked the source.
    assert_eq!(vm.in_fn.history.len(), 0);
}

#[test]
fn test_wrapping_decrement_zero_becomes_255() {
    let mut vm = VM::new("-", options(1, Vec::new())).unwrap();
    assert_eq!(vm.run(u64::MAX), Ok(false));
    assert_eq!(vm.memory_buffer[0], 255);
}

#[test]
fn test_wrapping_increment_255_becomes_zero() {
    // Load 255 through the input port, then increment once.
    let mut vm = VM::new(",+", options(1, vec![255])).unwrap();
    assert_eq!(vm.run(u64::MAX), Ok(false));
    assert_eq!(vm.memory_buffer[0], 0);
}

#[test]
fn test_halted_step_is_idempotent() {
    let mut vm = VM::new("+.", options(4, Vec::new())).unwrap();
    assert_eq!(vm.run(u64::MAX), Ok(false));
    let tape_before = vm.memory_buffer.clone();
    let output_before = vm.out_fn.data.clone();
    // Further steps report completion and have no observable effect.
    assert_eq!(vm.step(), Ok(false));
    assert_eq!(vm.step(), Ok(false));
    assert_eq!(vm.memory_buffer, tape_before);
    assert_eq!(vm.out_fn.data, output_before);
    assert_eq!(vm.in_fn.history.len(), 0);
}

#[test]
fn test_move_before_first_cell_faults() {
    let mut vm = VM::new("<", options(4, Vec::new())).unwrap();
    assert_eq!(vm.step(), Err(TapeBoundsError));
    // The faulting move changed nothing; stepping again faults again.
    assert_eq!(vm.step(), Err(TapeBoundsError));
    assert_eq!(vm.run(u64::MAX), Err(TapeBoundsError));
}

#[test]
fn test_move_past_tape_end_faults() {
    let mut vm = VM::new(">", options(1, Vec::new())).unwrap();
    assert_eq!(vm.step(), Err(TapeBoundsError));
}

#[test]
fn test_step_reports_remaining_work() {
    let mut vm = VM::new("++", options(1, Vec::new())).unwrap();
    assert_eq!(vm.step(), Ok(true));
    assert_eq!(vm.step(), Ok(false));
    assert_eq!(vm.memory_buffer[0], 2);
}

#[test]
fn test_input_bytes_are_echoed_in_order() {
    let mut vm = VM::new(",.,.", options(2, vec![7, 9])).unwrap();
    assert_eq!(vm.run(u64::MAX), Ok(false));
    assert_eq!(vm.out_fn.data, vec![7, 9]);
    assert_eq!(vm.in_fn.history, vec![7, 9]);
}

#[test]
fn test_loop_skipped_when_cell_is_zero() {
    let mut vm = VM::new("[.]", options(1, Vec::new())).unwrap();
    assert_eq!(vm.run(u64::MAX), Ok(false));
    assert_eq!(vm.out_fn.data.len(), 0);
}

#[test]
fn test_loop_body_repeats_until_zero() {
    // Three iterations, each printing the cell before decrementing it.
    let mut vm = VM::new("+++[.-]", options(1, Vec::new())).unwrap();
    assert_eq!(vm.run(u64::MAX), Ok(false));
    assert_eq!(vm.out_fn.data, vec![3, 2, 1]);
}

#[test]
fn test_run_budget_reports_remaining_work() {
    // An endless loop: the budget runs out while work remains.
    let mut vm = VM::new("+[]", options(1, Vec::new())).unwrap();
    assert_eq!(vm.run(1000), Ok(true));
    // A finished program reports no more work whatever the budget.
    let mut vm = VM::new("+", options(1, Vec::new())).unwrap();
    assert_eq!(vm.run(1000), Ok(false));
}

#[test]
fn test_nested_loops_multiply() {
    // 2 outer iterations, each adding 3 * 2 to the third cell: 12.
    let mut vm = VM::new("++[>+++[>++<-]<-]", options(3, Vec::new())).unwrap();
    assert_eq!(vm.run(u64::MAX), Ok(false));
    assert_eq!(vm.memory_buffer[2], 12);
    assert_eq!(vm.memory_buffer[0], 0);
    assert_eq!(vm.memory_buffer[1], 0);
}

#[test]
fn test_run_zero_budget_does_nothing() {
    let mut vm = VM::new("+", options(1, Vec::new())).unwrap();
    assert_eq!(vm.run(0), Ok(true));
    assert_eq!(vm.memory_buffer[0], 0);
}

#[test]
fn test_vm_new_propagates_parse_error() {
    let err = match VM::new("]", options(1, Vec::new())) {
        Ok(_) => panic!("expected a parse error"),
        Err(err) => err,
    };
    assert_eq!(err, ParseError::new(0, ParseErrorKind::UnexpectedLoopEnd));
}

#[test]
fn test_queue_source_zero_when_exhausted() {
    let mut vm = VM::new(",.", options(1, Vec::new())).unwrap();
    assert_eq!(vm.run(u64::MAX), Ok(false));
    assert_eq!(vm.out_fn.data, vec![0]);
    assert_eq!(vm.in_fn.history, vec![0]);
}

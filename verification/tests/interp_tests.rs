use bfi::interp::{ExecError, Interpreter};
use bfi::preproc::preprocess;
use std::sync::atomic::Ordering;

/// Preprocesses `program`, runs it on a fresh tape of `tape_len` cells with
/// the given raw input lines queued, and returns the engine's result
/// together with the output bytes.
fn run_program(
    program: &str,
    tape_len: usize,
    lines: &[&[u8]],
) -> (Result<(), ExecError>, Vec<u8>) {
    let code = preprocess(&String::from(program)).expect("program should preprocess");
    let mut interpreter = Interpreter::new(code, tape_len, false);
    for line in lines {
        interpreter.push_input_line(line.to_vec());
    }
    let r = interpreter.main_loop();
    (r, interpreter.output)
}

#[test]
fn eight_by_eight_outputs_64() {
    let (r, out) = run_program("++++++++[>++++++++<-]>.", 16, &[]);
    assert_eq!(r, Ok(()));
    assert_eq!(out, vec![64]);
}

#[test]
fn input_line_a_echoes_65() {
    let (r, out) = run_program(",.", 4, &[b"A\n"]);
    assert_eq!(r, Ok(()));
    assert_eq!(out, vec![65]);
}

#[test]
fn input_within_a_line_arrives_reversed() {
    // The cache is consumed from the line's end: 'B' first, then 'A'.
    let (r, out) = run_program(",.,.", 4, &[b"AB\n"]);
    assert_eq!(r, Ok(()));
    assert_eq!(out, vec![66, 65]);
}

#[test]
fn input_lines_are_consumed_in_order() {
    let (r, out) = run_program(",.,.", 4, &[b"A\n", b"B\n"]);
    assert_eq!(r, Ok(()));
    assert_eq!(out, vec![65, 66]);
}

#[test]
fn non_ascii_input_bytes_are_dropped() {
    // 0xC3 0xA9 is a two-byte non-ASCII character; only space and 'A' stay,
    // and 'A' (the line's last kept byte) is read first.
    let (r, out) = run_program(",.", 4, &[&[0xC3, 0xA9, 32, 65, 10]]);
    assert_eq!(r, Ok(()));
    assert_eq!(out, vec![65]);
}

#[test]
fn move_left_of_cell_zero_is_a_tape_bounds_error() {
    let (r, out) = run_program("<", 1, &[]);
    assert_eq!(r, Err(ExecError::TapeBounds));
    assert_eq!(out, vec![]);
}

#[test]
fn move_past_tape_end_is_a_tape_bounds_error() {
    let (r, _) = run_program(">>>>", 2, &[]);
    assert_eq!(r, Err(ExecError::TapeBounds));
}

#[test]
fn input_with_no_lines_is_input_exhaustion() {
    let (r, _) = run_program(",", 4, &[]);
    assert_eq!(r, Err(ExecError::InputExhausted));
}

#[test]
fn input_line_with_no_usable_bytes_is_input_exhaustion() {
    // The lone terminator is stripped, leaving nothing to consume.
    let (r, _) = run_program(",", 4, &[b"\n"]);
    assert_eq!(r, Err(ExecError::InputExhausted));
}

#[test]
fn decrement_of_zero_wraps_to_255() {
    let (r, out) = run_program("-.", 4, &[]);
    assert_eq!(r, Ok(()));
    assert_eq!(out, vec![255]);
}

#[test]
fn increment_of_255_wraps_to_zero() {
    let mut program = "+".repeat(256);
    program.push('.');
    let (r, out) = run_program(&program, 4, &[]);
    assert_eq!(r, Ok(()));
    assert_eq!(out, vec![0]);
}

#[test]
fn loop_over_zero_cell_runs_zero_iterations() {
    // The loop body would move and write; none of it happens, and the cell
    // printed afterwards is untouched.
    let (r, out) = run_program("[+>.]-.", 4, &[]);
    assert_eq!(r, Ok(()));
    assert_eq!(out, vec![255]);
}

#[test]
fn counter_flushes_to_shared_atomic_in_batches() {
    // About 197000 primitive instructions: enough to cross the 100001-entry
    // buffer threshold, so at least one batch lands in the shared counter.
    let code = preprocess(&String::from("-[>-[-]<-]")).unwrap();
    let mut interpreter = Interpreter::new(code, 16, false);
    let handle = interpreter.executed_instr_count.clone();
    assert_eq!(interpreter.main_loop(), Ok(()));
    assert!(handle.load(Ordering::SeqCst) > 100000);
}

/// A naive, unfolded, bracket-scanning reference interpreter over the raw
/// program text, with the same tape, input and error conventions.
fn naive_run(
    program: &str,
    tape_len: usize,
    lines: &[&[u8]],
) -> (Result<(), ExecError>, Vec<u8>) {
    let prog: Vec<char> = program
        .chars()
        .filter(|c| ['>', '<', '+', '-', '.', ',', '[', ']'].contains(c))
        .collect();
    let mut cells = vec![0u8; tape_len];
    let mut ptr = tape_len / 2;
    let mut out: Vec<u8> = Vec::new();
    let mut cache: Vec<u8> = Vec::new();
    let mut next_line = 0usize;
    let mut pc = 0usize;
    while pc < prog.len() {
        match prog[pc] {
            '>' => {
                if ptr + 1 >= tape_len {
                    return (Err(ExecError::TapeBounds), out);
                }
                ptr += 1;
            }
            '<' => {
                if ptr == 0 {
                    return (Err(ExecError::TapeBounds), out);
                }
                ptr -= 1;
            }
            '+' => cells[ptr] = cells[ptr].wrapping_add(1),
            '-' => cells[ptr] = cells[ptr].wrapping_sub(1),
            '.' => out.push(cells[ptr]),
            ',' => {
                if cache.is_empty() {
                    if next_line < lines.len() {
                        let mut line = lines[next_line].to_vec();
                        next_line += 1;
                        if line.last() == Some(&10) {
                            line.pop();
                        }
                        if line.last() == Some(&13) {
                            line.pop();
                        }
                        cache = line.into_iter().filter(|b| *b < 128).collect();
                    }
                }
                match cache.pop() {
                    Some(b) => cells[ptr] = b,
                    None => return (Err(ExecError::InputExhausted), out),
                }
            }
            '[' => {
                if cells[ptr] == 0 {
                    let mut depth = 1;
                    while depth > 0 {
                        pc += 1;
                        match prog[pc] {
                            '[' => depth += 1,
                            ']' => depth -= 1,
                            _ => {}
                        }
                    }
                }
            }
            ']' => {
                if cells[ptr] != 0 {
                    let mut depth = 1;
                    while depth > 0 {
                        pc -= 1;
                        match prog[pc] {
                            ']' => depth += 1,
                            '[' => depth -= 1,
                            _ => {}
                        }
                    }
                }
            }
            _ => unreachable!(),
        }
        pc += 1;
    }
    (Ok(()), out)
}

#[test]
fn folded_execution_agrees_with_naive_unfolded_interpreter() {
    let cases: &[(&str, usize, &[&[u8]])] = &[
        ("++++++++[>++++++++<-]>.", 16, &[]),
        ("+++[->++<]>.", 8, &[]),
        ("++[>++[>++<-]<-]>>.", 8, &[]),
        (",[->+<]>.", 8, &[b"A\n"]),
        (",.,..", 8, &[b"hi\n"]),
        ("--[.-]", 4, &[]),
        ("with comments: +++ . and --- .", 4, &[]),
        (",", 4, &[]),
        ("<", 1, &[]),
    ];
    for (program, tape_len, lines) in cases {
        let (r_folded, out_folded) = run_program(program, *tape_len, lines);
        let (r_naive, out_naive) = naive_run(program, *tape_len, lines);
        assert_eq!(r_folded, r_naive, "result differs on {:?}", program);
        assert_eq!(out_folded, out_naive, "output differs on {:?}", program);
    }
}

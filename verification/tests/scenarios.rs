// Concrete end-to-end scenarios, each checked at every optimization level.

use bf_opt::interpreter::{Interpreter, RunTimeError};
use bf_opt::parser::{
    optimize_o0, optimize_o1, optimize_o2, optimize_o3, OptimizerError, IR,
};
use bf_opt::{run, OptimizationLevel, TestFailure};
use either::Either;

fn levels() -> Vec<OptimizationLevel> {
    vec![
        OptimizationLevel::O0,
        OptimizationLevel::O1,
        OptimizationLevel::O2,
        OptimizationLevel::O3,
    ]
}

const MAX: usize = 1_000_000;

#[test]
fn letter_a() {
    for level in levels() {
        let r = run("++++++++[>++++++++<-]>+.", &vec![], level, MAX);
        assert_eq!(r, Ok(vec![65]));
    }
}

#[test]
fn echo_one_byte() {
    for level in levels() {
        let r = run(",.", &vec![72], level, MAX);
        assert_eq!(r, Ok(vec![72]));
    }
}

#[test]
fn multiply_two_inputs() {
    // Reads two bytes, multiplies them into a fresh cell, prints the
    // product and cleans up after itself: 200 * 100 mod 256 == 32.
    let src = ",>,<[>[>+>+<<-]>>[<<+>>-]<<<-]>[-]>[-<<+>>]<<.[-]<";
    for level in levels() {
        let r = run(src, &vec![200, 100], level, MAX);
        assert_eq!(r, Ok(vec![32]));
    }
}

#[test]
fn diverging_loop_exceeds_budget() {
    for level in levels() {
        let r = run("+[]", &vec![], level, MAX);
        assert_eq!(r, Err(Either::Left(RunTimeError::MaxIterationsExceeded)));
    }
}

#[test]
fn clear_then_three() {
    for level in levels() {
        let r = run("[-]+++.", &vec![], level, MAX);
        assert_eq!(r, Ok(vec![3]));
    }
}

#[test]
fn read_without_input() {
    for level in levels() {
        let r = run(",", &vec![], level, MAX);
        assert_eq!(r, Err(Either::Left(RunTimeError::OutOfInputs)));
        // The partial output up to the failure is empty.
        let program = match level {
            OptimizationLevel::O0 => optimize_o0(","),
            OptimizationLevel::O1 => optimize_o1(","),
            OptimizationLevel::O2 => optimize_o2(","),
            OptimizationLevel::O3 => optimize_o3(","),
        }
        .unwrap();
        let mut interp = Interpreter::from(program, MAX);
        let (err, output) = interp.run(&vec![]);
        assert_eq!(err, Some(RunTimeError::OutOfInputs));
        assert_eq!(output, Vec::<u8>::new());
    }
}

#[test]
fn harness_agrees_on_multiply_program() {
    // The multiply program zeroes every cell it used; its one blemish is
    // the final `<`, which walks the pointer one step left of the start.
    // Every level reports exactly that, and nothing else.
    let src = ",>,<[>[>+>+<<-]>>[<<+>>-]<<<-]>[-]>[-<<+>>]<<.[-]<";
    for level in levels() {
        let failures: Vec<TestFailure> =
            bf_opt::test(src, vec![vec![200, 100]], vec![vec![32]], level, MAX);
        assert_eq!(failures.len(), 1, "{src} at {level:?}: {failures:?}");
        assert_eq!(
            failures[0].typ,
            bf_opt::TestFailureType::NonZeroPointer { pointer: -1 },
            "{level:?}"
        );
    }
}

#[test]
fn harness_reports_no_failures_on_clean_program() {
    // A program that reads a byte, prints it and clears the cell leaves
    // a zero tape and the pointer at the start: no failures at any level.
    for level in levels() {
        let failures: Vec<TestFailure> =
            bf_opt::test(",.[-]", vec![vec![9]], vec![vec![9]], level, MAX);
        assert!(failures.is_empty(), "{level:?}: {failures:?}");
    }
}

#[test]
fn harness_reports_residue() {
    // A program that prints the right byte but leaves the tape dirty and
    // the pointer away from the start draws exactly the two residue
    // failures, and no output failure.
    for level in levels() {
        let failures = bf_opt::test(
            "++++++++[>++++++++<-]>+.",
            vec![vec![]],
            vec![vec![65]],
            level,
            MAX,
        );
        assert_eq!(failures.len(), 2, "{level:?}: {failures:?}");
        assert_eq!(
            failures[0].typ,
            bf_opt::TestFailureType::NonZeroPointer { pointer: 1 },
            "{level:?}"
        );
        assert_eq!(
            failures[1].typ,
            bf_opt::TestFailureType::NonZeroMemory { memory: vec![0, 65] },
            "{level:?}"
        );
    }
    // A clear loop followed by three increments leaves the pointer home
    // but one cell nonzero.
    for level in levels() {
        let failures = bf_opt::test("[-]+++.", vec![vec![]], vec![vec![3]], level, MAX);
        assert_eq!(failures.len(), 1, "{level:?}: {failures:?}");
        assert_eq!(
            failures[0].typ,
            bf_opt::TestFailureType::NonZeroMemory { memory: vec![3] },
            "{level:?}"
        );
    }
}

#[test]
fn unbalanced_brackets_agree() {
    for src in ["[", "]", "+[", "+]+", "[[]"] {
        for level in levels() {
            let r = run(src, &vec![], level, MAX);
            assert_eq!(r, Err(Either::Right(OptimizerError::UnbalancedBrackets)));
        }
    }
}

#[test]
fn harness_reports_parse_failure_per_case() {
    let failures = bf_opt::test(
        "[",
        vec![vec![1], vec![2]],
        vec![vec![], vec![]],
        OptimizationLevel::O3,
        MAX,
    );
    assert_eq!(failures.len(), 2);
    for f in &failures {
        assert_eq!(
            f.typ,
            bf_opt::TestFailureType::OptimizerError(OptimizerError::UnbalancedBrackets)
        );
    }
    assert_eq!(failures[0].input, vec![1]);
    assert_eq!(failures[1].input, vec![2]);
}

#[test]
fn comments_are_ignored() {
    for level in levels() {
        let r = run("hello world! this text has no commands", &vec![], level, MAX);
        assert_eq!(r, Ok(vec![]));
    }
}

#[test]
fn empty_program_runs_clean() {
    for level in levels() {
        let r = run("", &vec![], level, MAX);
        assert_eq!(r, Ok(vec![]));
    }
}

#[test]
fn addition_wraps_modulo_256() {
    let src: String = "+".repeat(300) + ".";
    for level in levels() {
        let r = run(&src, &vec![], level, MAX);
        assert_eq!(r, Ok(vec![44]), "{level:?}");
    }
    for level in levels() {
        let r = run("-.", &vec![], level, MAX);
        assert_eq!(r, Ok(vec![255]), "{level:?}");
    }
}

#[test]
fn access_left_of_tape_is_out_of_bounds() {
    for level in levels() {
        let r = run("<+.", &vec![], level, MAX);
        assert_eq!(r, Err(Either::Left(RunTimeError::OutOfBounds)), "{level:?}");
    }
}

#[test]
fn multiply_loop_copies_value() {
    // Set cell0 to 5, multiply it by 3 into cell1, print cell1.
    let src = "+++++[>+++<-]>.";
    for level in levels() {
        let r = run(src, &vec![], level, MAX);
        assert_eq!(r, Ok(vec![15]), "{level:?}");
    }
}

fn assert_no_zero_ops(program: &[IR]) {
    for i in program {
        match i {
            IR::Add { x, .. } => assert_ne!(*x, 0),
            IR::Move { over } => assert_ne!(*over, 0),
            IR::Loop { instructions, .. } => assert_no_zero_ops(instructions),
            _ => {}
        }
    }
}

#[test]
fn optimizer_output_has_no_zero_ops() {
    let sources = [
        "++--+.",
        "><><>.",
        "+[>+<-]>.",
        ",[->+<]>.",
        "++[-]+.",
        ">++.+[+]+.><[].<",
    ];
    for src in sources {
        assert_no_zero_ops(&optimize_o0(src).unwrap());
        assert_no_zero_ops(&optimize_o1(src).unwrap());
        assert_no_zero_ops(&optimize_o2(src).unwrap());
        assert_no_zero_ops(&optimize_o3(src).unwrap());
    }
}

#[test]
fn optimizer_output_shapes() {
    // Plain parsing neither merges nor reorders.
    assert_eq!(
        optimize_o0("+-"),
        Ok(vec![IR::Add { x: 1, offset: 0 }, IR::Add { x: -1, offset: 0 }])
    );
    // Fusion merges neighbours and deletes a clear idiom at program start.
    assert_eq!(
        optimize_o1("++>"),
        Ok(vec![IR::Add { x: 2, offset: 0 }, IR::Move { over: 1 }])
    );
    assert_eq!(optimize_o1("[-]"), Ok(vec![]));
    // Offset hoisting turns moves into offsets, one trailing move left.
    assert_eq!(
        optimize_o2(">++>+++"),
        Ok(vec![
            IR::Add { x: 2, offset: 1 },
            IR::Add { x: 3, offset: 2 },
            IR::Move { over: 2 },
        ])
    );
    // The multiply pass lowers a recognized loop and clears its counter.
    assert_eq!(
        optimize_o3("+++++[>+++<-]"),
        Ok(vec![
            IR::Add { x: 5, offset: 0 },
            IR::Mul { x: 1, y: 3, offset: 0 },
            IR::Exact { x: 0, offset: 0 },
        ])
    );
}

#[test]
fn loop_exits_with_zero_cell() {
    // After any loop exits, the cell under the pointer is zero: printing
    // it right after the loop emits a zero byte.
    for level in levels() {
        let r = run("++++[-].", &vec![], level, MAX);
        assert_eq!(r, Ok(vec![0]), "{level:?}");
        let r = run(",[-->++<].", &vec![6], level, MAX);
        assert_eq!(r, Ok(vec![0]), "{level:?}");
    }
}

#[test]
fn interpreter_inspection_after_run() {
    let program = optimize_o0("+>++").unwrap();
    let mut interp = Interpreter::from(program, MAX);
    let (err, output) = interp.run(&vec![]);
    assert_eq!(err, None);
    assert_eq!(output, Vec::<u8>::new());
    assert_eq!(interp.get_pointer(), 1);
    assert_eq!(interp.return_shrinked_memory(), vec![1, 2]);
    interp.reset();
    assert_eq!(interp.get_pointer(), 0);
    assert_eq!(interp.return_shrinked_memory(), vec![0]);
}

#[test]
fn run_iter_resumes_input() {
    let program = optimize_o1(",.").unwrap();
    let mut interp = Interpreter::from(program, MAX);
    let inputs = vec![7, 9];
    let mut cursor = 0usize;
    let (err, out) = interp.run_iter(&inputs, &mut cursor);
    assert_eq!(err, None);
    assert_eq!(out, vec![7]);
    assert_eq!(cursor, 1);
    interp.reset();
    let (err2, out2) = interp.run_iter(&inputs, &mut cursor);
    assert_eq!(err2, None);
    assert_eq!(out2, vec![9]);
    assert_eq!(cursor, 2);
}

//! A verified optimizing Brainfuck pipeline: source text is parsed into a
//! typed instruction tree, rewritten by up to three optimization passes,
//! and run by an interpreter over a bounded byte tape.
//!
//! Every pass and the interpreter carry contracts that pin their results
//! down exactly, against spec-level models of the instruction tree
//! (`ir::SpecIr`) and of the running machine (`interpreter::Machine`).

use vstd::prelude::*;

pub mod interpreter;
pub mod ir;
pub mod parser;

use crate::interpreter::{
    last_nonzero, lemma_run_list_shape, spec_run_list, Interpreter, Machine, RunTimeError,
    SpecInterp,
};
use crate::ir::{view_irs, SpecIr, IR};
use crate::parser::{
    optimize_o0, optimize_o1, optimize_o2, optimize_o3, spec_o0, spec_o1, spec_o2, spec_o3,
    OptimizerError,
};

verus! {

/// `either::Either` carries `run`'s two kinds of failure: a runtime error
/// on the left, a parse error on the right.  The declaration lets verified
/// code build and inspect such values; nothing about the type is assumed
/// beyond its two variants.
#[verifier::external_type_specification]
pub struct ExEither<L, R>(either::Either<L, R>);

/// The levels of the optimizing pipeline, each one building on the last:
/// plain parsing, peephole fusion, offset hoisting, multiply-loop
/// lowering.
#[derive(Debug, Clone, Copy, PartialEq, Eq, Structural)]
pub enum OptimizationLevel {
    O0,
    O1,
    O2,
    O3,
}

/// What the chosen level makes of a source text.
pub open spec fn spec_optimize(level: OptimizationLevel, s: Seq<char>) -> Result<
    Seq<SpecIr>,
    OptimizerError,
> {
    match level {
        OptimizationLevel::O0 => spec_o0(s),
        OptimizationLevel::O1 => spec_o1(s),
        OptimizationLevel::O2 => spec_o2(s),
        OptimizationLevel::O3 => spec_o3(s),
    }
}

/// Optimizes a source text at the chosen level.
fn optimize(bf: &str, level: OptimizationLevel) -> (r: Result<Vec<IR>, OptimizerError>)
    ensures
        (match spec_optimize(level, bf@) {
            Result::Ok(p) => r matches Ok(out) && view_irs(out@) == p,
            Result::Err(e) => r matches Err(e2) && e2 == e,
        }),
{
    match level {
        OptimizationLevel::O0 => optimize_o0(bf),
        OptimizationLevel::O1 => optimize_o1(bf),
        OptimizationLevel::O2 => optimize_o2(bf),
        OptimizationLevel::O3 => optimize_o3(bf),
    }
}

/// One way a test case went wrong.
#[derive(Debug, PartialEq)]
pub enum TestFailureType {
    RunTimeError { err: RunTimeError },
    NonZeroPointer { pointer: i32 },
    NonZeroMemory { memory: Vec<u8> },
    IncorrectOutput { output: Vec<u8> },
    OptimizerError(OptimizerError),
}

/// A failed expectation of one test case: what went wrong, on which input,
/// against which expected output.
#[derive(Debug, PartialEq)]
pub struct TestFailure {
    pub typ: TestFailureType,
    pub input: Vec<u8>,
    pub expected_output: Vec<u8>,
}

/// The mathematical shape of one test failure.
pub enum SpecFailureType {
    RunTime(RunTimeError),
    NonZeroPointer(int),
    NonZeroMemory(Seq<u8>),
    IncorrectOutput(Seq<u8>),
    Optimizer(OptimizerError),
}

/// The mathematical shape of one failure record.
#[verifier::ext_equal]
pub struct SpecFailure {
    pub typ: SpecFailureType,
    pub input: Seq<u8>,
    pub expected: Seq<u8>,
}

/// The abstraction of one executable failure type.
pub open spec fn view_failure_type(t: TestFailureType) -> SpecFailureType {
    match t {
        TestFailureType::RunTimeError { err } => SpecFailureType::RunTime(err),
        TestFailureType::NonZeroPointer { pointer } => SpecFailureType::NonZeroPointer(
            pointer as int,
        ),
        TestFailureType::NonZeroMemory { memory } => SpecFailureType::NonZeroMemory(memory@),
        TestFailureType::IncorrectOutput { output } => SpecFailureType::IncorrectOutput(output@),
        TestFailureType::OptimizerError(e) => SpecFailureType::Optimizer(e),
    }
}

impl View for TestFailure {
    type V = SpecFailure;

    open spec fn view(&self) -> SpecFailure {
        SpecFailure {
            typ: view_failure_type(self.typ),
            input: self.input@,
            expected: self.expected_output@,
        }
    }
}

/// The abstraction of a list of failure records.
pub open spec fn view_failures(s: Seq<TestFailure>) -> Seq<SpecFailure> {
    Seq::new(s.len(), |i: int| s[i]@)
}

/// The machine a fresh interpreter starts a run in.
pub open spec fn fresh_machine(input: Seq<u8>) -> Machine {
    Machine {
        mem: crate::interpreter::zero_tape(),
        ptr: 0,
        iters: 0,
        input,
        in_pos: 0,
        out: Seq::empty(),
    }
}

/// Every failure of one test case, in reporting order: the runtime error
/// if the run stopped, the final pointer if it is not back at zero, the
/// residual tape if any cell is left nonzero, and the output if it is not
/// the expected one.  The conditions are not mutually exclusive.
pub open spec fn spec_pair_failures(
    prog: Seq<SpecIr>,
    input: Seq<u8>,
    expected: Seq<u8>,
    max: nat,
) -> Seq<SpecFailure> {
    let res = spec_run_list(prog, fresh_machine(input), max);
    let shrunk = res.0.mem.subrange(0, last_nonzero(res.0.mem) + 1);
    (if res.1 is Some {
        seq![SpecFailure { typ: SpecFailureType::RunTime(res.1->0), input, expected }]
    } else {
        Seq::<SpecFailure>::empty()
    }) + (if res.0.ptr != 0 {
        seq![SpecFailure { typ: SpecFailureType::NonZeroPointer(res.0.ptr), input, expected }]
    } else {
        Seq::<SpecFailure>::empty()
    }) + (if exists|j: int| 0 <= j < shrunk.len() && shrunk[j] != 0 {
        seq![SpecFailure { typ: SpecFailureType::NonZeroMemory(shrunk), input, expected }]
    } else {
        Seq::<SpecFailure>::empty()
    }) + (if res.0.out != expected {
        seq![SpecFailure { typ: SpecFailureType::IncorrectOutput(res.0.out), input, expected }]
    } else {
        Seq::<SpecFailure>::empty()
    })
}

/// The failures of the first `k` test cases, in order.
pub open spec fn spec_cases_failures(
    prog: Seq<SpecIr>,
    inputs: Seq<Seq<u8>>,
    outputs: Seq<Seq<u8>>,
    max: nat,
    k: int,
) -> Seq<SpecFailure>
    decreases k,
{
    if k <= 0 {
        Seq::empty()
    } else {
        spec_cases_failures(prog, inputs, outputs, max, k - 1) + spec_pair_failures(
            prog,
            inputs[k - 1],
            outputs[k - 1],
            max,
        )
    }
}

/// How many test cases run: input and expected-output lists are paired up
/// until the shorter one ends.
pub open spec fn spec_case_count(inputs: Seq<Seq<u8>>, outputs: Seq<Seq<u8>>) -> int {
    if inputs.len() < outputs.len() {
        inputs.len() as int
    } else {
        outputs.len() as int
    }
}

/// What `test` reports for a source text and its paired test cases: one
/// parse failure per case when the text does not parse, and otherwise each
/// case's failures against a freshly reset interpreter.
pub open spec fn spec_test(
    s: Seq<char>,
    inputs: Seq<Seq<u8>>,
    outputs: Seq<Seq<u8>>,
    level: OptimizationLevel,
    max: nat,
) -> Seq<SpecFailure> {
    let count = spec_case_count(inputs, outputs);
    match spec_optimize(level, s) {
        Result::Err(e) => Seq::new(
            count as nat,
            |i: int|
                SpecFailure {
                    typ: SpecFailureType::Optimizer(e),
                    input: inputs[i],
                    expected: outputs[i],
                },
        ),
        Result::Ok(prog) => spec_cases_failures(prog, inputs, outputs, max, count),
    }
}

/// A verified byte-for-byte copy.
fn copy_bytes(v: &Vec<u8>) -> (r: Vec<u8>)
    ensures
        r@ == v@,
{
    let mut r: Vec<u8> = Vec::new();
    let n = v.len();
    for i in 0..n
        invariant
            n == v@.len(),
            r@ == v@.subrange(0, i as int),
    {
        r.push(v[i]);
        proof {
            assert(v@.subrange(0, i + 1) =~= v@.subrange(0, i as int).push(v@[i as int]));
        }
    }
    proof {
        assert(v@.subrange(0, n as int) =~= v@);
    }
    r
}

/// Optimizes a program at the chosen level and checks it against paired
/// inputs and expected outputs, reporting every failed expectation of
/// every case.
pub fn test(
    bf: &str,
    inputs: Vec<Vec<u8>>,
    outputs: Vec<Vec<u8>>,
    optimization_level: OptimizationLevel,
    max_iterations: usize,
) -> (r: Vec<TestFailure>)
    ensures
        view_failures(r@) == spec_test(
            bf@,
            inputs.deep_view(),
            outputs.deep_view(),
            optimization_level,
            max_iterations as nat,
        ),
{
    let ghost insv = inputs.deep_view();
    let ghost outsv = outputs.deep_view();
    let count = if inputs.len() < outputs.len() {
        inputs.len()
    } else {
        outputs.len()
    };
    let mut failures: Vec<TestFailure> = Vec::new();
    let instructions = match optimize(bf, optimization_level) {
        Result::Ok(p) => p,
        Result::Err(e) => {
            for i in 0..count
                invariant
                    count == spec_case_count(insv, outsv),
                    insv == inputs.deep_view(),
                    outsv == outputs.deep_view(),
                    count <= inputs@.len(),
                    count <= outputs@.len(),
                    failures@.len() == i,
                    forall|j: int|
                        0 <= j < i ==> #[trigger] failures@[j]@ == (SpecFailure {
                            typ: SpecFailureType::Optimizer(e),
                            input: insv[j],
                            expected: outsv[j],
                        }),
            {
                proof {
                    assert(inputs@[i as int]@ == insv[i as int]);
                    assert(outputs@[i as int]@ == outsv[i as int]);
                }
                failures.push(
                    TestFailure {
                        typ: TestFailureType::OptimizerError(e),
                        input: copy_bytes(&inputs[i]),
                        expected_output: copy_bytes(&outputs[i]),
                    },
                );
            }
            proof {
                assert(view_failures(failures@) =~= spec_test(
                    bf@,
                    insv,
                    outsv,
                    optimization_level,
                    max_iterations as nat,
                ));
            }
            return failures;
        },
    };
    let ghost prog = view_irs(instructions@);
    let mut interpreter = Interpreter::from(instructions, max_iterations);
    for i in 0..count
        invariant
            count == spec_case_count(insv, outsv),
            insv == inputs.deep_view(),
            outsv == outputs.deep_view(),
            count <= inputs@.len(),
            count <= outputs@.len(),
            interpreter@ == (SpecInterp {
                program: prog,
                memory: crate::interpreter::zero_tape(),
                pointer: 0,
                iterations: 0,
                max_iterations: max_iterations as nat,
            }),
            interpreter.wf(),
            view_failures(failures@) == spec_cases_failures(
                prog,
                insv,
                outsv,
                max_iterations as nat,
                i as int,
            ),
    {
        let ghost res = spec_run_list(prog, fresh_machine(insv[i as int]), max_iterations as nat);
        proof {
            assert(inputs@[i as int]@ == insv[i as int]);
            assert(outputs@[i as int]@ == outsv[i as int]);
            assert(fresh_machine(insv[i as int]) =~= Interpreter::start_machine(
                interpreter@,
                inputs@[i as int]@,
                0,
            ));
            lemma_run_list_shape(prog, fresh_machine(insv[i as int]), max_iterations as nat);
        }
        let ghost f0 = failures@;
        let (err, actual) = interpreter.run(&inputs[i]);
        let pointer = interpreter.get_pointer();
        let memory = interpreter.return_shrinked_memory();
        if let Option::Some(e) = err {
            failures.push(
                TestFailure {
                    typ: TestFailureType::RunTimeError { err: e },
                    input: copy_bytes(&inputs[i]),
                    expected_output: copy_bytes(&outputs[i]),
                },
            );
        }
        if pointer != 0 {
            failures.push(
                TestFailure {
                    typ: TestFailureType::NonZeroPointer { pointer },
                    input: copy_bytes(&inputs[i]),
                    expected_output: copy_bytes(&outputs[i]),
                },
            );
        }
        let mut any_nonzero = false;
        let mn = memory.len();
        for j in 0..mn
            invariant
                mn == memory@.len(),
                any_nonzero == (exists|l: int| 0 <= l < j && memory@[l] != 0),
        {
            if memory[j] != 0 {
                any_nonzero = true;
            }
        }
        if any_nonzero {
            failures.push(
                TestFailure {
                    typ: TestFailureType::NonZeroMemory { memory },
                    input: copy_bytes(&inputs[i]),
                    expected_output: copy_bytes(&outputs[i]),
                },
            );
        }
        let expected = &outputs[i];
        let mut same = actual.len() == expected.len();
        if same {
            let an = actual.len();
            for j in 0..an
                invariant
                    same == (forall|l: int| 0 <= l < j ==> actual@[l] == expected@[l]),
                    an == actual@.len(),
                    an == expected@.len(),
            {
                if actual[j] != expected[j] {
                    same = false;
                }
            }
            proof {
                if same {
                    assert(actual@ =~= expected@);
                }
            }
        }
        if !same {
            failures.push(
                TestFailure {
                    typ: TestFailureType::IncorrectOutput { output: actual },
                    input: copy_bytes(&inputs[i]),
                    expected_output: copy_bytes(&outputs[i]),
                },
            );
        }
        interpreter.reset();
        proof {
            assert(interpreter@ =~= (SpecInterp {
                program: prog,
                memory: crate::interpreter::zero_tape(),
                pointer: 0,
                iterations: 0,
                max_iterations: max_iterations as nat,
            }));
            assert(view_failures(failures@) =~= view_failures(f0) + spec_pair_failures(
                prog,
                insv[i as int],
                outsv[i as int],
                max_iterations as nat,
            ));
            assert(view_failures(failures@) =~= spec_cases_failures(
                prog,
                insv,
                outsv,
                max_iterations as nat,
                i + 1,
            ));
        }
    }
    failures
}

/// Optimizes a source text at the chosen level and runs it once over the
/// given input, under the given iteration budget.  Returns the program's
/// output, or the runtime error on the left, or the parse error on the
/// right.
pub fn run(
    bf: &str,
    input: &Vec<u8>,
    optimization_level: OptimizationLevel,
    max_iterations: usize,
) -> (r: Result<Vec<u8>, either::Either<RunTimeError, OptimizerError>>)
    ensures
        (match spec_optimize(optimization_level, bf@) {
            Result::Err(e) => r matches Err(e2) && e2 == either::Either::<
                RunTimeError,
                OptimizerError,
            >::Right(e),
            Result::Ok(p) => ({
                let res = spec_run_list(p, fresh_machine(input@), max_iterations as nat);
                match res.1 {
                    Option::Some(err) => r matches Err(e2) && e2 == either::Either::<
                        RunTimeError,
                        OptimizerError,
                    >::Left(err),
                    Option::None => r matches Ok(out) && out@ == res.0.out,
                }
            }),
        }),
{
    let instructions = match optimize(bf, optimization_level) {
        Result::Ok(p) => p,
        Result::Err(e) => {
            return Result::Err(either::Either::Right(e));
        },
    };
    let mut interpreter = Interpreter::from(instructions, max_iterations);
    proof {
        assert(fresh_machine(input@) =~= Interpreter::start_machine(interpreter@, input@, 0));
    }
    let (err, output) = interpreter.run(input);
    match err {
        Option::Some(e) => Result::Err(either::Either::Left(e)),
        Option::None => Result::Ok(output),
    }
}

} // verus!

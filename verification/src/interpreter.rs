use vstd::prelude::*;

use crate::ir::{
    lemma_view_irs_index, lemma_view_irs_len, lemma_view_irs_push, view_ir, view_irs,
    wrap_add_i32, SpecIr, IR,
};

verus! {

broadcast use
    lemma_view_irs_len,
    lemma_view_irs_index,
    lemma_view_irs_push;

/// What can go wrong while a program runs: a cell access outside the tape,
/// a read past the end of the input, or more work than the configured
/// iteration budget allows.
#[derive(Debug, Clone, Copy, PartialEq, Eq, Hash, Structural)]
pub enum RunTimeError {
    OutOfBounds,
    OutOfInputs,
    MaxIterationsExceeded,
}

/// The length of the tape.
pub const TAPE_LEN: usize = 65536;

/// The low byte of an integer, as unsigned: how every write to a cell is
/// reduced modulo 256.
pub open spec fn byte_of(x: int) -> u8 {
    (((x % 256) + 256) % 256) as u8
}

/// A cell after adding `x`, wrapping modulo 256.
pub open spec fn byte_add(v: u8, x: int) -> u8 {
    byte_of(v + x)
}

/// The low byte of a 32-bit value.
pub proof fn lemma_trunc_i32(x: i32)
    ensures
        x as u8 == byte_of(x as int),
{
    assert(x as u8 == (((x as int % 256) + 256) % 256) as u8) by (bit_vector);
}

/// The low byte of a 64-bit value.
pub proof fn lemma_trunc_i64(x: i64)
    ensures
        x as u8 == byte_of(x as int),
{
    assert(x as u8 == (((x as int % 256) + 256) % 256) as u8) by (bit_vector);
}

/// Adding the low byte of `x` to a cell with machine wrapping is addition
/// of `x` modulo 256.
pub proof fn lemma_wrap_byte(v: u8, x: int)
    ensures
        vstd::wrapping::u8_specs::wrapping_add(v, byte_of(x)) == byte_add(v, x),
{
    let m = x % 256;
    vstd::arithmetic::div_mod::lemma_mod_bound(x, 256);
    vstd::arithmetic::div_mod::lemma_mod_add_multiples_vanish(m, 256);
    vstd::arithmetic::div_mod::lemma_small_mod(m as nat, 256);
    assert(byte_of(x) as int == m);
    vstd::arithmetic::div_mod::lemma_add_mod_noop(v as int, x, 256);
    vstd::arithmetic::div_mod::lemma_small_mod(v as nat, 256);
    assert((v + x) % 256 == (v + m) % 256);
    vstd::arithmetic::div_mod::lemma_mod_bound(v + x, 256);
    vstd::arithmetic::div_mod::lemma_mod_add_multiples_vanish((v + x) % 256, 256);
    vstd::arithmetic::div_mod::lemma_small_mod(((v + x) % 256) as nat, 256);
    if v + m < 256 {
        vstd::arithmetic::div_mod::lemma_small_mod((v + m) as nat, 256);
    } else {
        vstd::arithmetic::div_mod::lemma_mod_sub_multiples_vanish(v + m, 256);
        vstd::arithmetic::div_mod::lemma_small_mod((v + m - 256) as nat, 256);
    }
}

/// The whole observable state of a running program: the tape, the data
/// pointer, the work done so far, the input stream with its read position,
/// and the output emitted so far.
#[verifier::ext_equal]
pub struct Machine {
    pub mem: Seq<u8>,
    pub ptr: int,
    pub iters: nat,
    pub input: Seq<u8>,
    pub in_pos: nat,
    pub out: Seq<u8>,
}

/// How much more work the budget allows from this state.
pub open spec fn machine_fuel(st: Machine, max: nat) -> nat {
    if st.iters <= max {
        (max + 1 - st.iters) as nat
    } else {
        0
    }
}

/// Runs a list of instructions from a state, under an iteration budget.
///
/// Every instruction costs one iteration before it executes; going over
/// the budget stops the run with `MaxIterationsExceeded` and the output
/// gathered so far.  A cell access outside `[0, mem.len())` stops it with
/// `OutOfBounds`, a read past the end of the input with `OutOfInputs`.
/// All cell arithmetic wraps modulo 256.
pub open spec fn spec_run_list(p: Seq<SpecIr>, st: Machine, max: nat) -> (
    Machine,
    Option<RunTimeError>,
)
    decreases machine_fuel(st, max), 2int,
{
    if p.len() == 0 {
        (st, Option::<RunTimeError>::None)
    } else if st.iters >= max {
        (st, Option::Some(RunTimeError::MaxIterationsExceeded))
    } else {
        let step = spec_run_list_step(p, st, max);
        if step.1 is Some {
            step
        } else if machine_fuel(step.0, max) < machine_fuel(st, max) {
            spec_run_list(p.subrange(1, p.len() as int), step.0, max)
        } else {
            // Unreachable: every step consumes budget.  Needed only so the
            // recursion visibly terminates.
            (step.0, Option::Some(RunTimeError::MaxIterationsExceeded))
        }
    }
}

/// The machine state that a set of executable variables stands for.
pub open spec fn mk_machine(
    mem: Seq<u8>,
    ptr: i32,
    iters: usize,
    input: Seq<u8>,
    in_pos: usize,
    out: Seq<u8>,
) -> Machine {
    Machine {
        mem,
        ptr: ptr as int,
        iters: iters as nat,
        input,
        in_pos: in_pos as nat,
        out,
    }
}

/// The remaining budget as a function of the executable counters.
pub open spec fn fuel_of(iterations: usize, max_iterations: usize) -> nat {
    if iterations <= max_iterations {
        (max_iterations + 1 - iterations) as nat
    } else {
        0
    }
}

/// Runs one loop from a state in which the pre-move has already happened:
/// each turn costs an iteration, checks the cell under the pointer, and
/// either exits or runs the body once more.
pub open spec fn spec_run_loop(body: Seq<SpecIr>, st: Machine, max: nat) -> (
    Machine,
    Option<RunTimeError>,
)
    decreases machine_fuel(st, max), 0int,
{
    if st.iters >= max {
        (st, Option::Some(RunTimeError::MaxIterationsExceeded))
    } else {
        let st1 = Machine { iters: st.iters + 1, ..st };
        if !(0 <= st.ptr < st.mem.len()) {
            (st1, Option::Some(RunTimeError::OutOfBounds))
        } else if st.mem[st.ptr] == 0 {
            (st1, Option::<RunTimeError>::None)
        } else {
            let r = spec_run_list(body, st1, max);
            if r.1 is Some {
                r
            } else if machine_fuel(r.0, max) < machine_fuel(st, max) {
                spec_run_loop(body, r.0, max)
            } else {
                // Unreachable, as in `spec_run_list`.
                (r.0, Option::Some(RunTimeError::MaxIterationsExceeded))
            }
        }
    }
}

/// A run never changes the tape's length or the input stream.
pub proof fn lemma_run_list_shape(p: Seq<SpecIr>, st: Machine, max: nat)
    ensures
        spec_run_list(p, st, max).0.mem.len() == st.mem.len(),
        spec_run_list(p, st, max).0.input == st.input,
    decreases machine_fuel(st, max), 1int,
{
    if p.len() == 0 || st.iters >= max {
    } else {
        let st1 = Machine { iters: st.iters + 1, ..st };
        match p[0] {
            SpecIr::Loop { over, body } => {
                lemma_run_loop_shape(body, Machine { ptr: wrap_add_i32(st1.ptr, over), ..st1 }, max);
            },
            _ => {},
        }
        let step = spec_run_list_step(p, st, max);
        if step.1 is None && machine_fuel(step.0, max) < machine_fuel(st, max) {
            lemma_run_list_shape(p.subrange(1, p.len() as int), step.0, max);
        }
    }
}

/// The step that `spec_run_list` takes for the first instruction.
pub open spec fn spec_run_list_step(p: Seq<SpecIr>, st: Machine, max: nat) -> (
    Machine,
    Option<RunTimeError>,
)
    decreases machine_fuel(st, max), 1int,
{
    let st1 = Machine { iters: st.iters + 1, ..st };
    match p[0] {
        SpecIr::Add { x, offset } => {
            let idx = st.ptr + offset;
            if 0 <= idx < st.mem.len() {
                (
                    Machine { mem: st1.mem.update(idx, byte_add(st1.mem[idx], x)), ..st1 },
                    Option::None,
                )
            } else {
                (st1, Option::Some(RunTimeError::OutOfBounds))
            }
        },
        SpecIr::Move { over } => (
            Machine { ptr: wrap_add_i32(st1.ptr, over), ..st1 },
            Option::None,
        ),
        SpecIr::Print { times, offset } => {
            let idx = st.ptr + offset;
            if 0 <= idx < st.mem.len() {
                (
                    Machine { out: st1.out + Seq::new(times, |k: int| st1.mem[idx]), ..st1 },
                    Option::None,
                )
            } else {
                (st1, Option::Some(RunTimeError::OutOfBounds))
            }
        },
        SpecIr::Read { offset } => {
            let idx = st.ptr + offset;
            if 0 <= idx < st.mem.len() {
                if st.in_pos < st.input.len() {
                    (
                        Machine {
                            mem: st1.mem.update(idx, st1.input[st1.in_pos as int]),
                            in_pos: st1.in_pos + 1,
                            ..st1
                        },
                        Option::None,
                    )
                } else {
                    (st1, Option::Some(RunTimeError::OutOfInputs))
                }
            } else {
                (st1, Option::Some(RunTimeError::OutOfBounds))
            }
        },
        SpecIr::Exact { x, offset } => {
            let idx = st.ptr + offset;
            if 0 <= idx < st.mem.len() {
                (Machine { mem: st1.mem.update(idx, byte_of(x)), ..st1 }, Option::None)
            } else {
                (st1, Option::Some(RunTimeError::OutOfBounds))
            }
        },
        SpecIr::Mul { x, y, offset } => {
            let idx = st.ptr + offset;
            if 0 <= idx < st.mem.len() {
                let delta = st.mem[idx] * y;
                let idx2 = st.ptr + offset + x;
                if 0 <= idx2 < st.mem.len() {
                    (
                        Machine { mem: st1.mem.update(idx2, byte_add(st1.mem[idx2], delta)), ..st1 },
                        Option::None,
                    )
                } else {
                    (st1, Option::Some(RunTimeError::OutOfBounds))
                }
            } else {
                (st1, Option::Some(RunTimeError::OutOfBounds))
            }
        },
        SpecIr::Loop { over, body } => spec_run_loop(
            body,
            Machine { ptr: wrap_add_i32(st1.ptr, over), ..st1 },
            max,
        ),
    }
}

/// A loop never changes the tape's length or the input stream either.
pub proof fn lemma_run_loop_shape(body: Seq<SpecIr>, st: Machine, max: nat)
    ensures
        spec_run_loop(body, st, max).0.mem.len() == st.mem.len(),
        spec_run_loop(body, st, max).0.input == st.input,
    decreases machine_fuel(st, max), 0int,
{
    if st.iters >= max {
    } else {
        let st1 = Machine { iters: st.iters + 1, ..st };
        if 0 <= st.ptr < st.mem.len() && st.mem[st.ptr] != 0 {
            lemma_run_list_shape(body, st1, max);
            let r = spec_run_list(body, st1, max);
            if r.1 is None && machine_fuel(r.0, max) < machine_fuel(st, max) {
                lemma_run_loop_shape(body, r.0, max);
            }
        }
    }
}

/// Wrapping arithmetic of additions: an `Add` of `x` to a cell holding
/// `v` leaves `(v + x) mod 256`, with the remainder taken in `[0, 256)`.
/// Overflow is never an error.
pub proof fn lemma_add_wraps(p: Seq<SpecIr>, st: Machine, max: nat, x: int, offset: int)
    requires
        p.len() >= 1,
        p[0] == (SpecIr::Add { x, offset }),
        0 <= st.ptr + offset < st.mem.len(),
    ensures
        ({
            let step = spec_run_list_step(p, st, max);
            &&& step.1 is None
            &&& step.0.mem[st.ptr + offset] as int == (((st.mem[st.ptr + offset] + x) % 256)
                + 256) % 256
        }),
{
}

/// Wrapping arithmetic of multiplies: a `Mul` adds the low byte of
/// `cell * y` to its target cell, modulo 256.
pub proof fn lemma_mul_wraps(
    p: Seq<SpecIr>,
    st: Machine,
    max: nat,
    x: int,
    y: int,
    offset: int,
)
    requires
        p.len() >= 1,
        p[0] == (SpecIr::Mul { x, y, offset }),
        0 <= st.ptr + offset < st.mem.len(),
        0 <= st.ptr + offset + x < st.mem.len(),
    ensures
        ({
            let step = spec_run_list_step(p, st, max);
            &&& step.1 is None
            &&& step.0.mem[st.ptr + offset + x] as int == (((st.mem[st.ptr + offset + x]
                + st.mem[st.ptr + offset] * y) % 256) + 256) % 256
        }),
{
}

/// The loop-exit invariant: whenever a loop exits normally, the cell that
/// its final condition read — the one under the data pointer at that
/// moment — is zero.
pub proof fn lemma_loop_exit_zero(body: Seq<SpecIr>, st: Machine, max: nat)
    ensures
        ({
            let r = spec_run_loop(body, st, max);
            r.1 is None ==> 0 <= r.0.ptr < r.0.mem.len() && r.0.mem[r.0.ptr] == 0
        }),
    decreases machine_fuel(st, max),
{
    if st.iters >= max {
    } else {
        let st1 = Machine { iters: st.iters + 1, ..st };
        if 0 <= st.ptr < st.mem.len() && st.mem[st.ptr] != 0 {
            let r = spec_run_list(body, st1, max);
            if r.1 is None && machine_fuel(r.0, max) < machine_fuel(st, max) {
                lemma_loop_exit_zero(body, r.0, max);
            }
        }
    }
}

/// The low byte of a value already in byte range is the value itself.
pub proof fn lemma_byte_of_small(x: int)
    requires
        0 <= x < 256,
    ensures
        byte_of(x) as int == x,
{
    vstd::arithmetic::div_mod::lemma_small_mod(x as nat, 256);
    vstd::arithmetic::div_mod::lemma_mod_add_multiples_vanish(x, 256);
}

/// A clear loop, run on its own cell, decrements it to zero: it exits
/// normally after `2 v + 1` iterations, with only that cell changed.
proof fn lemma_clear_loop_runs(st: Machine, max: nat)
    requires
        0 <= st.ptr < st.mem.len(),
        st.iters + 2 * (st.mem[st.ptr] as nat) + 1 <= max,
    ensures
        spec_run_loop(seq![SpecIr::Add { x: -1, offset: 0 }], st, max) == (
            Machine {
                mem: st.mem.update(st.ptr, 0u8),
                iters: (st.iters + 2 * (st.mem[st.ptr] as nat) + 1) as nat,
                ..st
            },
            Option::<RunTimeError>::None,
        ),
    decreases st.mem[st.ptr],
{
    reveal_with_fuel(spec_run_list, 3);
    let body = seq![SpecIr::Add { x: -1, offset: 0 }];
    let v = st.mem[st.ptr];
    let st1 = Machine { iters: st.iters + 1, ..st };
    if v == 0 {
        assert(st.mem.update(st.ptr, 0u8) =~= st.mem);
        assert(spec_run_loop(body, st, max) == (st1, Option::<RunTimeError>::None));
        assert(st1 =~= Machine {
            mem: st.mem.update(st.ptr, 0u8),
            iters: (st.iters + 2 * (st.mem[st.ptr] as nat) + 1) as nat,
            ..st
        });
    } else {
        let step = spec_run_list_step(body, st1, max);
        lemma_byte_of_small(v - 1);
        let st2 = Machine {
            mem: st.mem.update(st.ptr, (v - 1) as u8),
            iters: st.iters + 2,
            ..st
        };
        assert(step.0 =~= st2);
        assert(step.1 is None);
        assert(body.subrange(1, 1) =~= Seq::<SpecIr>::empty());
        assert(spec_run_list(body, st1, max) == (st2, Option::<RunTimeError>::None));
        lemma_clear_loop_runs(st2, max);
        assert(st2.mem.update(st.ptr, 0u8) =~= st.mem.update(st.ptr, 0u8));
        assert(spec_run_loop(body, st2, max) == (
            Machine {
                mem: st.mem.update(st.ptr, 0u8),
                iters: (st.iters + 2 * (st.mem[st.ptr] as nat) + 1) as nat,
                ..st
            },
            Option::<RunTimeError>::None,
        ));
    }
}

/// Soundness of the clear-idiom rewrite, the one place where the fusion
/// pass replaces a loop by a plain write: given enough budget, the loop
/// `[-]` and the instruction `Exact { 0, 0 }` leave the same tape, the
/// same pointer, the same input position and the same output.  They
/// differ only in iterations spent, which is why observable equivalence
/// across levels is stated under a budget that lets every level finish.
pub proof fn lemma_clear_idiom_equiv(st: Machine, max: nat)
    requires
        0 <= st.ptr < st.mem.len(),
        st.ptr <= i32::MAX,
        st.iters + 2 * (st.mem[st.ptr] as nat) + 2 <= max,
    ensures
        ({
            let lp = spec_run_list(
                seq![
                    SpecIr::Loop {
                        over: 0,
                        body: seq![SpecIr::Add { x: -1, offset: 0 }],
                    },
                ],
                st,
                max,
            );
            let ex = spec_run_list(seq![SpecIr::Exact { x: 0, offset: 0 }], st, max);
            &&& lp.1 is None
            &&& ex.1 is None
            &&& lp.0.mem == ex.0.mem
            &&& lp.0.ptr == ex.0.ptr
            &&& lp.0.in_pos == ex.0.in_pos
            &&& lp.0.out == ex.0.out
        }),
{
    reveal_with_fuel(spec_run_list, 3);
    let body = seq![SpecIr::Add { x: -1, offset: 0 }];
    let p = seq![SpecIr::Loop { over: 0, body }];
    let st1 = Machine { iters: st.iters + 1, ..st };
    let step = spec_run_list_step(p, st, max);
    assert(wrap_add_i32(st1.ptr, 0) == st1.ptr);
    assert(Machine { ptr: wrap_add_i32(st1.ptr, 0), ..st1 } =~= st1);
    lemma_clear_loop_runs(st1, max);
    assert(step.1 is None);
    assert(p.subrange(1, 1) =~= Seq::<SpecIr>::empty());
    let q = seq![SpecIr::Exact { x: 0, offset: 0 }];
    let qstep = spec_run_list_step(q, st, max);
    lemma_byte_of_small(0);
    assert(qstep.0.mem =~= st.mem.update(st.ptr, 0u8));
    assert(qstep.1 is None);
    assert(q.subrange(1, 1) =~= Seq::<SpecIr>::empty());
    assert(step.0.mem =~= st.mem.update(st.ptr, 0u8));
}

/// The low byte of a value is its remainder modulo 256.
pub proof fn lemma_byte_of_mod(x: int)
    ensures
        byte_of(x) as int == x % 256,
{
    vstd::arithmetic::div_mod::lemma_mod_bound(x, 256);
    vstd::arithmetic::div_mod::lemma_mod_add_multiples_vanish(x % 256, 256);
    vstd::arithmetic::div_mod::lemma_small_mod((x % 256) as nat, 256);
}

/// Adding `a` and then `b` to a cell is adding `a + b` at once.
pub proof fn lemma_byte_add_compose(v: u8, a: int, b: int)
    ensures
        byte_add(byte_add(v, a), b) == byte_add(v, a + b),
{
    lemma_byte_of_mod(v + a);
    lemma_byte_of_mod(byte_add(v, a) + b);
    lemma_byte_of_mod(v + a + b);
    vstd::arithmetic::div_mod::lemma_add_mod_noop((v + a) as int, b, 256);
    vstd::arithmetic::div_mod::lemma_add_mod_noop(((v + a) % 256) as int, b, 256);
    vstd::arithmetic::div_mod::lemma_mod_twice((v + a) as int, 256);
}

/// Adding with a 32-bit wrapped operand is adding the unwrapped sum: the
/// wrap moves the operand by a multiple of 2^32, which is a multiple of
/// 256 and so invisible modulo 256.
pub proof fn lemma_byte_add_wrap32(v: u8, a: int, b: int)
    requires
        i32::MIN <= a <= i32::MAX,
        i32::MIN <= b <= i32::MAX,
    ensures
        byte_add(v, wrap_add_i32(a, b)) == byte_add(v, a + b),
{
    lemma_byte_of_mod(v + wrap_add_i32(a, b));
    lemma_byte_of_mod(v + a + b);
    if a + b > i32::MAX {
        vstd::arithmetic::div_mod::lemma_mod_multiples_vanish(
            -16777216,
            v + a + b,
            256,
        );
    } else if a + b < i32::MIN {
        vstd::arithmetic::div_mod::lemma_mod_multiples_vanish(16777216, v + a + b, 256);
    }
}

/// Two 32-bit wrapped moves compose into one.
pub proof fn lemma_wrap_add_i32_assoc(p: int, a: int, b: int)
    requires
        i32::MIN <= p <= i32::MAX,
        i32::MIN <= a <= i32::MAX,
        i32::MIN <= b <= i32::MAX,
    ensures
        wrap_add_i32(wrap_add_i32(p, a), b) == wrap_add_i32(p, wrap_add_i32(a, b)),
{
}

/// Soundness of fusing neighbouring additions: adding `a` and then `b` to
/// the current cell leaves the same machine, but for the work counter, as
/// the single fused addition the peephole pass emits.
pub proof fn lemma_fused_add_equiv(st: Machine, max: nat, a: int, b: int)
    requires
        0 <= st.ptr < st.mem.len(),
        i32::MIN <= a <= i32::MAX,
        i32::MIN <= b <= i32::MAX,
        st.iters + 2 <= max,
    ensures
        ({
            let two = spec_run_list(
                seq![SpecIr::Add { x: a, offset: 0 }, SpecIr::Add { x: b, offset: 0 }],
                st,
                max,
            );
            let one = spec_run_list(
                seq![SpecIr::Add { x: wrap_add_i32(a, b), offset: 0 }],
                st,
                max,
            );
            &&& two.1 is None
            &&& one.1 is None
            &&& two.0.mem == one.0.mem
            &&& two.0.ptr == one.0.ptr
            &&& two.0.in_pos == one.0.in_pos
            &&& two.0.out == one.0.out
        }),
{
    reveal_with_fuel(spec_run_list, 4);
    let p2 = seq![SpecIr::Add { x: a, offset: 0 }, SpecIr::Add { x: b, offset: 0 }];
    let p1 = seq![SpecIr::Add { x: wrap_add_i32(a, b), offset: 0 }];
    let v = st.mem[st.ptr];
    lemma_byte_add_compose(v, a, b);
    lemma_byte_add_wrap32(v, a, b);
    let sa = spec_run_list_step(p2, st, max);
    assert(sa.1 is None);
    assert(p2.subrange(1, 2) =~= seq![SpecIr::Add { x: b, offset: 0 }]);
    let sb = spec_run_list_step(p2.subrange(1, 2), sa.0, max);
    assert(sb.1 is None);
    assert(sb.0.mem =~= st.mem.update(st.ptr, byte_add(v, a + b)));
    assert(p2.subrange(1, 2).subrange(1, 1) =~= Seq::<SpecIr>::empty());
    let sc = spec_run_list_step(p1, st, max);
    assert(sc.1 is None);
    assert(sc.0.mem =~= st.mem.update(st.ptr, byte_add(v, a + b)));
    assert(p1.subrange(1, 1) =~= Seq::<SpecIr>::empty());
}

/// Soundness of fusing neighbouring moves: moving by `a` and then by `b`
/// puts the pointer exactly where the single fused move puts it.
pub proof fn lemma_fused_move_equiv(st: Machine, max: nat, a: int, b: int)
    requires
        i32::MIN <= st.ptr <= i32::MAX,
        i32::MIN <= a <= i32::MAX,
        i32::MIN <= b <= i32::MAX,
        st.iters + 2 <= max,
    ensures
        ({
            let two = spec_run_list(
                seq![SpecIr::Move { over: a }, SpecIr::Move { over: b }],
                st,
                max,
            );
            let one = spec_run_list(seq![SpecIr::Move { over: wrap_add_i32(a, b) }], st, max);
            &&& two.1 is None
            &&& one.1 is None
            &&& two.0.mem == one.0.mem
            &&& two.0.ptr == one.0.ptr
            &&& two.0.in_pos == one.0.in_pos
            &&& two.0.out == one.0.out
        }),
{
    reveal_with_fuel(spec_run_list, 4);
    let p2 = seq![SpecIr::Move { over: a }, SpecIr::Move { over: b }];
    let p1 = seq![SpecIr::Move { over: wrap_add_i32(a, b) }];
    lemma_wrap_add_i32_assoc(st.ptr, a, b);
    let sa = spec_run_list_step(p2, st, max);
    assert(sa.1 is None);
    assert(p2.subrange(1, 2) =~= seq![SpecIr::Move { over: b }]);
    let sb = spec_run_list_step(p2.subrange(1, 2), sa.0, max);
    assert(sb.1 is None);
    assert(p2.subrange(1, 2).subrange(1, 1) =~= Seq::<SpecIr>::empty());
    let sc = spec_run_list_step(p1, st, max);
    assert(sc.1 is None);
    assert(p1.subrange(1, 1) =~= Seq::<SpecIr>::empty());
}

/// Soundness of fusing neighbouring prints: printing a cell `a` times and
/// then `b` times emits the same bytes as printing it `a + b` times.
pub proof fn lemma_fused_print_equiv(st: Machine, max: nat, a: nat, b: nat)
    requires
        0 <= st.ptr < st.mem.len(),
        a + b <= usize::MAX,
        st.iters + 2 <= max,
    ensures
        ({
            let two = spec_run_list(
                seq![
                    SpecIr::Print { times: a, offset: 0 },
                    SpecIr::Print { times: b, offset: 0 },
                ],
                st,
                max,
            );
            let one = spec_run_list(seq![SpecIr::Print { times: a + b, offset: 0 }], st, max);
            &&& two.1 is None
            &&& one.1 is None
            &&& two.0.mem == one.0.mem
            &&& two.0.ptr == one.0.ptr
            &&& two.0.in_pos == one.0.in_pos
            &&& two.0.out == one.0.out
        }),
{
    reveal_with_fuel(spec_run_list, 4);
    let p2 = seq![
        SpecIr::Print { times: a, offset: 0 },
        SpecIr::Print { times: b, offset: 0 },
    ];
    let p1 = seq![SpecIr::Print { times: a + b, offset: 0 }];
    let v = st.mem[st.ptr];
    let sa = spec_run_list_step(p2, st, max);
    assert(sa.1 is None);
    assert(p2.subrange(1, 2) =~= seq![SpecIr::Print { times: b, offset: 0 }]);
    let sb = spec_run_list_step(p2.subrange(1, 2), sa.0, max);
    assert(sb.1 is None);
    assert(p2.subrange(1, 2).subrange(1, 1) =~= Seq::<SpecIr>::empty());
    let sc = spec_run_list_step(p1, st, max);
    assert(sc.1 is None);
    assert(p1.subrange(1, 1) =~= Seq::<SpecIr>::empty());
    assert(sb.0.out =~= st.out + Seq::new(a + b, |k: int| v));
    assert(sc.0.out =~= st.out + Seq::new(a + b, |k: int| v));
}

/// Soundness of dropping a write that a read overwrites: adding to a cell
/// and then reading into it leaves the same machine, but for the work
/// counter, as the read alone.  This holds only while input remains: were
/// the read to fail, the dropped addition would still be visible in the
/// residual tape of the unoptimized program.
pub proof fn lemma_add_then_read_equiv(st: Machine, max: nat, x: int)
    requires
        0 <= st.ptr < st.mem.len(),
        st.in_pos < st.input.len(),
        st.iters + 2 <= max,
    ensures
        ({
            let two = spec_run_list(
                seq![SpecIr::Add { x, offset: 0 }, SpecIr::Read { offset: 0 }],
                st,
                max,
            );
            let one = spec_run_list(seq![SpecIr::Read { offset: 0 }], st, max);
            &&& two.1 is None
            &&& one.1 is None
            &&& two.0.mem == one.0.mem
            &&& two.0.ptr == one.0.ptr
            &&& two.0.in_pos == one.0.in_pos
            &&& two.0.out == one.0.out
        }),
{
    reveal_with_fuel(spec_run_list, 4);
    let p2 = seq![SpecIr::Add { x, offset: 0 }, SpecIr::Read { offset: 0 }];
    let p1 = seq![SpecIr::Read { offset: 0 }];
    let sa = spec_run_list_step(p2, st, max);
    assert(sa.1 is None);
    assert(p2.subrange(1, 2) =~= seq![SpecIr::Read { offset: 0 }]);
    let sb = spec_run_list_step(p2.subrange(1, 2), sa.0, max);
    assert(sb.1 is None);
    assert(p2.subrange(1, 2).subrange(1, 1) =~= Seq::<SpecIr>::empty());
    let sc = spec_run_list_step(p1, st, max);
    assert(sc.1 is None);
    assert(p1.subrange(1, 1) =~= Seq::<SpecIr>::empty());
    assert(sb.0.mem =~= st.mem.update(st.ptr, st.input[st.in_pos as int]));
    assert(sc.0.mem =~= st.mem.update(st.ptr, st.input[st.in_pos as int]));
}

/// Soundness of hoisting a move past an addition, the step the offset
/// passes repeat: moving by `d` and then adding at offset `off` touches
/// the same cell as adding at offset `off + d` and then moving, and both
/// orders leave the same machine but for the work counter.  The claim is
/// made for accesses on the tape; a program that reaches off the tape is
/// outside the optimizer's contract, since hoisting changes where along
/// the way such a program traps.
pub proof fn lemma_hoist_move_add(st: Machine, max: nat, d: int, x: int, off: int)
    requires
        i32::MIN <= st.ptr <= i32::MAX,
        i32::MIN <= d <= i32::MAX,
        i32::MIN <= off <= i32::MAX,
        i32::MIN <= st.ptr + d <= i32::MAX,
        i32::MIN <= off + d <= i32::MAX,
        0 <= st.ptr + d + off < st.mem.len(),
        st.iters + 2 <= max,
    ensures
        ({
            let before = spec_run_list(
                seq![SpecIr::Move { over: d }, SpecIr::Add { x, offset: off }],
                st,
                max,
            );
            let after = spec_run_list(
                seq![SpecIr::Add { x, offset: off + d }, SpecIr::Move { over: d }],
                st,
                max,
            );
            &&& before.1 is None
            &&& after.1 is None
            &&& before.0.mem == after.0.mem
            &&& before.0.ptr == after.0.ptr
            &&& before.0.in_pos == after.0.in_pos
            &&& before.0.out == after.0.out
        }),
{
    reveal_with_fuel(spec_run_list, 4);
    let p2 = seq![SpecIr::Move { over: d }, SpecIr::Add { x, offset: off }];
    let p1 = seq![SpecIr::Add { x, offset: off + d }, SpecIr::Move { over: d }];
    assert(wrap_add_i32(st.ptr, d) == st.ptr + d);
    let sa = spec_run_list_step(p2, st, max);
    assert(sa.1 is None);
    assert(p2.subrange(1, 2) =~= seq![SpecIr::Add { x, offset: off }]);
    let sb = spec_run_list_step(p2.subrange(1, 2), sa.0, max);
    assert(p2.subrange(1, 2).subrange(1, 1) =~= Seq::<SpecIr>::empty());
    let sc = spec_run_list_step(p1, st, max);
    assert(p1.subrange(1, 2) =~= seq![SpecIr::Move { over: d }]);
    assert(sb.1 is None);
    assert(sc.1 is None);
    let sd = spec_run_list_step(p1.subrange(1, 2), sc.0, max);
    assert(sd.1 is None);
    assert(p1.subrange(1, 2).subrange(1, 1) =~= Seq::<SpecIr>::empty());
    assert(sb.0.mem =~= st.mem.update(
        st.ptr + d + off,
        byte_add(st.mem[st.ptr + d + off], x),
    ));
    assert(sd.0.mem =~= st.mem.update(
        st.ptr + d + off,
        byte_add(st.mem[st.ptr + d + off], x),
    ));
}

/// Soundness of dropping a clear that a read overwrites, under the same
/// proviso as for a dropped addition: input must remain.
pub proof fn lemma_clear_then_read_equiv(st: Machine, max: nat)
    requires
        0 <= st.ptr < st.mem.len(),
        st.in_pos < st.input.len(),
        st.iters + 2 <= max,
    ensures
        ({
            let two = spec_run_list(
                seq![SpecIr::Exact { x: 0, offset: 0 }, SpecIr::Read { offset: 0 }],
                st,
                max,
            );
            let one = spec_run_list(seq![SpecIr::Read { offset: 0 }], st, max);
            &&& two.1 is None
            &&& one.1 is None
            &&& two.0.mem == one.0.mem
            &&& two.0.ptr == one.0.ptr
            &&& two.0.in_pos == one.0.in_pos
            &&& two.0.out == one.0.out
        }),
{
    reveal_with_fuel(spec_run_list, 4);
    let p2 = seq![SpecIr::Exact { x: 0, offset: 0 }, SpecIr::Read { offset: 0 }];
    let p1 = seq![SpecIr::Read { offset: 0 }];
    let sa = spec_run_list_step(p2, st, max);
    assert(sa.1 is None);
    assert(p2.subrange(1, 2) =~= seq![SpecIr::Read { offset: 0 }]);
    let sb = spec_run_list_step(p2.subrange(1, 2), sa.0, max);
    assert(sb.1 is None);
    assert(p2.subrange(1, 2).subrange(1, 1) =~= Seq::<SpecIr>::empty());
    let sc = spec_run_list_step(p1, st, max);
    assert(sc.1 is None);
    assert(p1.subrange(1, 1) =~= Seq::<SpecIr>::empty());
    assert(sb.0.mem =~= st.mem.update(st.ptr, st.input[st.in_pos as int]));
    assert(sc.0.mem =~= st.mem.update(st.ptr, st.input[st.in_pos as int]));
}

/// Soundness of dropping unreachable loops: a loop whose cell is already
/// zero exits at its first test, changing nothing but the work counter.
/// This is why the fusion pass may delete a loop that directly follows a
/// loop or a clear of the current cell.
pub proof fn lemma_dead_loop_immediate(body: Seq<SpecIr>, st: Machine, max: nat)
    requires
        0 <= st.ptr < st.mem.len(),
        st.mem[st.ptr] == 0,
        st.iters < max,
    ensures
        spec_run_loop(body, st, max) == (
            Machine { iters: st.iters + 1, ..st },
            Option::<RunTimeError>::None,
        ),
{
}

/// Turns a pointer-plus-offset position into a tape index, when it is on
/// the tape.
fn tape_index(t: i64, len: usize) -> (r: Option<usize>)
    ensures
        (match r {
            Option::Some(u) => 0 <= t < len && u as int == t,
            Option::None => !(0 <= t < len),
        }),
{
    if t >= 0 && (t as u64) < (len as u64) {
        Option::Some(t as usize)
    } else {
        Option::None
    }
}

/// The product of a cell and a 32-bit factor stays within 64 bits.
proof fn lemma_mul_range(c: u8, y: i32)
    ensures
        i64::MIN <= c as int * y as int <= i64::MAX,
{
    assert(c as int * y as int <= 255 * 0x7fff_ffff && c as int * y as int >= 255 * (
    -0x8000_0000)) by (nonlinear_arith)
        requires
            0 <= c as int <= 255,
            -0x8000_0000 <= y as int <= 0x7fff_ffff,
    ;
}

/// Runs a list of instructions against the given machine parts, appending
/// whatever the program emits to `output`.  The outcome is exactly what
/// `spec_run_list` says of the starting state.
#[verifier::loop_isolation(false)]
fn exec_list(
    memory: &mut Vec<u8>,
    pointer: &mut i32,
    iterations: &mut usize,
    max_iterations: usize,
    instructions: &Vec<IR>,
    inputs: &Vec<u8>,
    next_input: &mut usize,
    output: &mut Vec<u8>,
) -> (r: Option<RunTimeError>)
    ensures
        ({
            let res = spec_run_list(
                view_irs(instructions@),
                mk_machine(
                    old(memory)@,
                    *old(pointer),
                    *old(iterations),
                    inputs@,
                    *old(next_input),
                    old(output)@,
                ),
                max_iterations as nat,
            );
            &&& mk_machine(
                final(memory)@,
                *final(pointer),
                *final(iterations),
                inputs@,
                *final(next_input),
                final(output)@,
            ) == res.0
            &&& r == res.1
        }),
        *final(iterations) >= *old(iterations),
    decreases fuel_of(*iterations, max_iterations),
{
    let ghost pv = view_irs(instructions@);
    let ghost maxn = max_iterations as nat;
    let ghost st0 = mk_machine(
        old(memory)@,
        *old(pointer),
        *old(iterations),
        inputs@,
        *old(next_input),
        old(output)@,
    );
    let ghost total = spec_run_list(pv, st0, maxn);
    let n = instructions.len();
    proof {
        assert(pv.subrange(0, n as int) =~= pv);
    }
    for idx in 0..n
        invariant
            n == instructions@.len(),
            *iterations >= *old(iterations),
            spec_run_list(
                pv.subrange(idx as int, n as int),
                mk_machine(memory@, *pointer, *iterations, inputs@, *next_input, output@),
                maxn,
            ) == total,
    {
        let ghost stc = mk_machine(memory@, *pointer, *iterations, inputs@, *next_input, output@);
        let ghost suffix = pv.subrange(idx as int, n as int);
        proof {
            assert(suffix[0] == view_ir(instructions@[idx as int]));
            assert(suffix.subrange(1, suffix.len() as int) =~= pv.subrange(idx + 1, n as int));
        }
        if *iterations >= max_iterations {
            return Option::Some(RunTimeError::MaxIterationsExceeded);
        }
        *iterations = *iterations + 1;
        let ghost st1 = Machine { iters: stc.iters + 1, ..stc };
        proof {
            assert(mk_machine(memory@, *pointer, *iterations, inputs@, *next_input, output@)
                =~= st1);
        }
        let cur = &instructions[idx];
        match cur {
            IR::Add { x, offset } => {
                let t: i64 = (*pointer as i64) + (*offset as i64);
                match tape_index(t, memory.len()) {
                    Option::Some(u) => {
                        proof {
                            lemma_trunc_i32(*x);
                        }
                        let b = #[verifier::truncate] (*x as u8);
                        let old_cell = memory[u];
                        proof {
                            lemma_wrap_byte(old_cell, *x as int);
                        }
                        memory[u] = old_cell.wrapping_add(b);
                        proof {
                            assert(memory@ =~= st1.mem.update(
                                stc.ptr + *offset,
                                byte_add(st1.mem[stc.ptr + *offset], *x as int),
                            ));
                        }
                    },
                    Option::None => {
                        proof {
                            let step = spec_run_list_step(suffix, stc, maxn);
                            assert(step == (st1, Option::Some(RunTimeError::OutOfBounds)));
                            assert(spec_run_list(suffix, stc, maxn) == step);
                        }
                        return Option::Some(RunTimeError::OutOfBounds);
                    },
                }
            },
            IR::Move { over } => {
                *pointer = pointer.wrapping_add(*over);
            },
            IR::Print { times, offset } => {
                let t: i64 = (*pointer as i64) + (*offset as i64);
                match tape_index(t, memory.len()) {
                    Option::Some(u) => {
                        let cellv = memory[u];
                        let reps = *times;
                        let ghost out0 = output@;
                        for k in 0..reps
                            invariant
                                output@ == out0 + Seq::new(k as nat, |j: int| cellv),
                        {
                            output.push(cellv);
                            proof {
                                assert(output@ =~= out0 + Seq::new((k + 1) as nat, |j: int| cellv));
                            }
                        }
                        proof {
                            assert(output@ =~= st1.out + Seq::new(
                                *times as nat,
                                |j: int| st1.mem[stc.ptr + *offset],
                            ));
                        }
                    },
                    Option::None => {
                        proof {
                            let step = spec_run_list_step(suffix, stc, maxn);
                            assert(step == (st1, Option::Some(RunTimeError::OutOfBounds)));
                            assert(spec_run_list(suffix, stc, maxn) == step);
                        }
                        return Option::Some(RunTimeError::OutOfBounds);
                    },
                }
            },
            IR::Read { offset } => {
                let t: i64 = (*pointer as i64) + (*offset as i64);
                match tape_index(t, memory.len()) {
                    Option::Some(u) => {
                        if *next_input < inputs.len() {
                            let b = inputs[*next_input];
                            memory[u] = b;
                            *next_input = *next_input + 1;
                            proof {
                                assert(memory@ =~= st1.mem.update(
                                    stc.ptr + *offset,
                                    st1.input[st1.in_pos as int],
                                ));
                            }
                        } else {
                            proof {
                                let step = spec_run_list_step(suffix, stc, maxn);
                                assert(step == (st1, Option::Some(RunTimeError::OutOfInputs)));
                                assert(spec_run_list(suffix, stc, maxn) == step);
                            }
                            return Option::Some(RunTimeError::OutOfInputs);
                        }
                    },
                    Option::None => {
                        proof {
                            let step = spec_run_list_step(suffix, stc, maxn);
                            assert(step == (st1, Option::Some(RunTimeError::OutOfBounds)));
                            assert(spec_run_list(suffix, stc, maxn) == step);
                        }
                        return Option::Some(RunTimeError::OutOfBounds);
                    },
                }
            },
            IR::Exact { x, offset } => {
                let t: i64 = (*pointer as i64) + (*offset as i64);
                match tape_index(t, memory.len()) {
                    Option::Some(u) => {
                        proof {
                            lemma_trunc_i32(*x);
                        }
                        let b = #[verifier::truncate] (*x as u8);
                        memory[u] = b;
                        proof {
                            assert(memory@ =~= st1.mem.update(stc.ptr + *offset, byte_of(*x as int)));
                        }
                    },
                    Option::None => {
                        proof {
                            let step = spec_run_list_step(suffix, stc, maxn);
                            assert(step == (st1, Option::Some(RunTimeError::OutOfBounds)));
                            assert(spec_run_list(suffix, stc, maxn) == step);
                        }
                        return Option::Some(RunTimeError::OutOfBounds);
                    },
                }
            },
            IR::Mul { x, y, offset } => {
                let t1: i64 = (*pointer as i64) + (*offset as i64);
                match tape_index(t1, memory.len()) {
                    Option::Some(u1) => {
                        let cellv = memory[u1];
                        proof {
                            lemma_mul_range(cellv, *y);
                        }
                        let delta: i64 = (cellv as i64) * (*y as i64);
                        let t2: i64 = t1 + (*x as i64);
                        match tape_index(t2, memory.len()) {
                            Option::Some(u2) => {
                                proof {
                                    lemma_trunc_i64(delta);
                                }
                                let b = #[verifier::truncate] (delta as u8);
                                let old_cell = memory[u2];
                                proof {
                                    lemma_wrap_byte(old_cell, delta as int);
                                }
                                memory[u2] = old_cell.wrapping_add(b);
                                proof {
                                    assert(memory@ =~= st1.mem.update(
                                        stc.ptr + *offset + *x,
                                        byte_add(
                                            st1.mem[stc.ptr + *offset + *x],
                                            stc.mem[stc.ptr + *offset] * (*y as int),
                                        ),
                                    ));
                                }
                            },
                            Option::None => {
                                proof {
                                    let step = spec_run_list_step(suffix, stc, maxn);
                                    assert(step == (st1, Option::Some(RunTimeError::OutOfBounds)));
                                    assert(spec_run_list(suffix, stc, maxn) == step);
                                }
                                return Option::Some(RunTimeError::OutOfBounds);
                            },
                        }
                    },
                    Option::None => {
                        proof {
                            let step = spec_run_list_step(suffix, stc, maxn);
                            assert(step == (st1, Option::Some(RunTimeError::OutOfBounds)));
                            assert(spec_run_list(suffix, stc, maxn) == step);
                        }
                        return Option::Some(RunTimeError::OutOfBounds);
                    },
                }
            },
            IR::Loop { over, instructions: body } => {
                proof {
                    crate::ir::lemma_view_ir_loop(*over, *body);
                }
                *pointer = pointer.wrapping_add(*over);
                let ghost bodyv = view_irs(body@);
                let ghost lst0 = mk_machine(
                    memory@,
                    *pointer,
                    *iterations,
                    inputs@,
                    *next_input,
                    output@,
                );
                proof {
                    assert(lst0 =~= Machine { ptr: wrap_add_i32(st1.ptr, *over as int), ..st1 });
                }
                let mut done = false;
                while !done
                    invariant
                        !done ==> *iterations >= lst0.iters && spec_run_loop(
                            bodyv,
                            mk_machine(
                                memory@,
                                *pointer,
                                *iterations,
                                inputs@,
                                *next_input,
                                output@,
                            ),
                            maxn,
                        ) == spec_run_loop(bodyv, lst0, maxn),
                        done ==> *iterations > lst0.iters && spec_run_loop(bodyv, lst0, maxn)
                            == (
                        mk_machine(memory@, *pointer, *iterations, inputs@, *next_input, output@),
                        Option::<RunTimeError>::None,
                        ),
                    decreases fuel_of(*iterations, max_iterations),
                {
                    let ghost lc = mk_machine(
                        memory@,
                        *pointer,
                        *iterations,
                        inputs@,
                        *next_input,
                        output@,
                    );
                    if *iterations >= max_iterations {
                        proof {
                            assert(spec_run_loop(bodyv, lst0, maxn) == (
                                lc,
                                Option::Some(RunTimeError::MaxIterationsExceeded),
                            ));
                            let step = spec_run_list_step(suffix, stc, maxn);
                            assert(step == (lc, Option::Some(RunTimeError::MaxIterationsExceeded)));
                            assert(spec_run_list(suffix, stc, maxn) == step);
                        }
                        return Option::Some(RunTimeError::MaxIterationsExceeded);
                    }
                    *iterations = *iterations + 1;
                    let ghost lc1 = Machine { iters: lc.iters + 1, ..lc };
                    proof {
                        assert(mk_machine(
                            memory@,
                            *pointer,
                            *iterations,
                            inputs@,
                            *next_input,
                            output@,
                        ) =~= lc1);
                    }
                    if *pointer < 0 || (*pointer as usize) >= memory.len() {
                        proof {
                            assert(spec_run_loop(bodyv, lst0, maxn) == (
                                lc1,
                                Option::Some(RunTimeError::OutOfBounds),
                            ));
                            let step = spec_run_list_step(suffix, stc, maxn);
                            assert(step == (lc1, Option::Some(RunTimeError::OutOfBounds)));
                            assert(spec_run_list(suffix, stc, maxn) == step);
                        }
                        return Option::Some(RunTimeError::OutOfBounds);
                    }
                    let c = memory[*pointer as usize];
                    if c == 0 {
                        proof {
                            assert(spec_run_loop(bodyv, lc, maxn) == (lc1, Option::<
                                RunTimeError,
                            >::None));
                        }
                        done = true;
                    } else {
                    let e = exec_list(
                        memory,
                        pointer,
                        iterations,
                        max_iterations,
                        body,
                        inputs,
                        next_input,
                        output,
                    );
                    proof {
                        let lcn = mk_machine(
                            memory@,
                            *pointer,
                            *iterations,
                            inputs@,
                            *next_input,
                            output@,
                        );
                        let r2 = spec_run_list(bodyv, lc1, maxn);
                        assert(r2.0 == lcn);
                        assert(r2.1 == e);
                    }
                    if let Option::Some(err) = e {
                        proof {
                            let lcn = mk_machine(
                                memory@,
                                *pointer,
                                *iterations,
                                inputs@,
                                *next_input,
                                output@,
                            );
                            assert(spec_run_loop(bodyv, lc, maxn) == (lcn, Option::Some(err)));
                            assert(spec_run_loop(bodyv, lst0, maxn) == (lcn, Option::Some(err)));
                            let step = spec_run_list_step(suffix, stc, maxn);
                            assert(step == (lcn, Option::Some(err)));
                            assert(spec_run_list(suffix, stc, maxn) == step);
                        }
                        return Option::Some(err);
                    }
                    proof {
                        let lcn = mk_machine(
                            memory@,
                            *pointer,
                            *iterations,
                            inputs@,
                            *next_input,
                            output@,
                        );
                        assert(machine_fuel(lcn, maxn) < machine_fuel(lc, maxn));
                        assert(spec_run_loop(bodyv, lc, maxn) == spec_run_loop(bodyv, lcn, maxn));
                    }
                    }
                }
            },
        }
        proof {
            let curm = mk_machine(memory@, *pointer, *iterations, inputs@, *next_input, output@);
            let step = spec_run_list_step(suffix, stc, maxn);
            assert(step.0 =~= curm);
            assert(step.1 is None);
            assert(machine_fuel(curm, maxn) < machine_fuel(stc, maxn));
            assert(spec_run_list(suffix, stc, maxn) == spec_run_list(
                pv.subrange(idx + 1, n as int),
                curm,
                maxn,
            ));
        }
    }
    proof {
        assert(pv.subrange(n as int, n as int) =~= Seq::<SpecIr>::empty());
    }
    Option::None
}

/// The all-zero tape of the configured length.
pub open spec fn zero_tape() -> Seq<u8> {
    Seq::new(TAPE_LEN as nat, |j: int| 0u8)
}

/// The highest index holding a nonzero cell, or zero when every cell is
/// zero.
pub open spec fn last_nonzero(mem: Seq<u8>) -> int
    decreases mem.len(),
{
    if mem.len() <= 1 {
        0
    } else if mem[mem.len() - 1] != 0 {
        mem.len() - 1
    } else {
        last_nonzero(mem.subrange(0, mem.len() - 1))
    }
}

/// A fresh tape of zeroes.
fn make_tape() -> (r: Vec<u8>)
    ensures
        r@ == zero_tape(),
{
    let mut tape: Vec<u8> = Vec::new();
    while tape.len() < TAPE_LEN
        invariant
            forall|j: int| 0 <= j < tape@.len() ==> tape@[j] == 0u8,
            tape@.len() <= TAPE_LEN,
        decreases TAPE_LEN - tape@.len(),
    {
        tape.push(0u8);
    }
    proof {
        assert(tape@ =~= zero_tape());
    }
    tape
}

/// The abstract content of an interpreter: its program and the machine
/// parts it owns.
#[verifier::ext_equal]
pub struct SpecInterp {
    pub program: Seq<SpecIr>,
    pub memory: Seq<u8>,
    pub pointer: int,
    pub iterations: nat,
    pub max_iterations: nat,
}

/// An interpreter bound to one program and one iteration budget.  It owns
/// the tape, the data pointer and the work counter; input and output
/// belong to each run.
pub struct Interpreter {
    program: Vec<IR>,
    memory: Vec<u8>,
    pointer: i32,
    iterations: usize,
    max_iterations: usize,
}

impl View for Interpreter {
    type V = SpecInterp;

    closed spec fn view(&self) -> SpecInterp {
        SpecInterp {
            program: view_irs(self.program@),
            memory: self.memory@,
            pointer: self.pointer as int,
            iterations: self.iterations as nat,
            max_iterations: self.max_iterations as nat,
        }
    }
}

impl Interpreter {
    /// The tape has its configured length.
    pub open spec fn wf(&self) -> bool {
        self@.memory.len() == TAPE_LEN
    }

    /// The machine state of this interpreter at the start of a run over
    /// the given input.
    pub open spec fn start_machine(pre: SpecInterp, input: Seq<u8>, in_pos: nat) -> Machine {
        Machine {
            mem: pre.memory,
            ptr: pre.pointer,
            iters: pre.iterations,
            input,
            in_pos,
            out: Seq::empty(),
        }
    }

    /// An interpreter over a fresh zero tape, holding the given program
    /// and iteration budget.
    pub fn from(program: Vec<IR>, max_iterations: usize) -> (r: Interpreter)
        ensures
            r@.program == view_irs(program@),
            r@.memory == zero_tape(),
            r@.pointer == 0,
            r@.iterations == 0,
            r@.max_iterations == max_iterations as nat,
            r.wf(),
    {
        Interpreter {
            program,
            memory: make_tape(),
            pointer: 0,
            iterations: 0,
            max_iterations,
        }
    }

    /// The tape truncated after its last nonzero cell: what a test inspects
    /// as residual memory.
    pub fn return_shrinked_memory(&self) -> (r: Vec<u8>)
        requires
            self.wf(),
        ensures
            r@ == self@.memory.subrange(0, last_nonzero(self@.memory) + 1),
    {
        let mut last: usize = 0;
        let n = self.memory.len();
        proof {
            assert(self.memory@.subrange(0, 0) =~= Seq::<u8>::empty());
        }
        for i in 0..n
            invariant
                n == self.memory@.len(),
                last as int == last_nonzero(self.memory@.subrange(0, i as int)),
                last <= i,
                last < n,
        {
            if self.memory[i] != 0 {
                last = i;
            }
            proof {
                let pre = self.memory@.subrange(0, i as int);
                let post = self.memory@.subrange(0, i + 1);
                assert(post.subrange(0, post.len() - 1) =~= pre);
            }
        }
        let mut r: Vec<u8> = Vec::new();
        let m = last;
        for k in 0..m + 1
            invariant
                m < self.memory@.len(),
                r@ == self.memory@.subrange(0, k as int),
        {
            r.push(self.memory[k]);
            proof {
                assert(self.memory@.subrange(0, k + 1) =~= self.memory@.subrange(
                    0,
                    k as int,
                ).push(self.memory@[k as int]));
            }
        }
        proof {
            assert(self.memory@.subrange(0, n as int) =~= self.memory@);
        }
        r
    }

    /// The data pointer as it stands.
    pub fn get_pointer(&self) -> (r: i32)
        ensures
            r as int == self@.pointer,
    {
        self.pointer
    }

    /// Zeroes the tape, the pointer and the work counter; the program and
    /// the budget stay.
    pub fn reset(&mut self)
        ensures
            final(self)@ == (SpecInterp {
                memory: zero_tape(),
                pointer: 0,
                iterations: 0,
                ..old(self)@
            }),
            final(self).wf(),
    {
        self.memory = make_tape();
        self.pointer = 0;
        self.iterations = 0;
        proof {
            assert(self@ =~= (SpecInterp {
                memory: zero_tape(),
                pointer: 0,
                iterations: 0,
                ..old(self)@
            }));
        }
    }

    /// Runs an arbitrary instruction list against this interpreter's tape,
    /// reading input from `inputs` starting at `*next_input`.  Returns the
    /// error, if any, and the output of this call.
    pub fn run_vec(&mut self, instructions: &Vec<IR>, inputs: &Vec<u8>, next_input: &mut usize)
        -> (r: (Option<RunTimeError>, Vec<u8>))
        ensures
            ({
                let res = spec_run_list(
                    view_irs(instructions@),
                    Self::start_machine(old(self)@, inputs@, *old(next_input) as nat),
                    old(self)@.max_iterations,
                );
                &&& final(self)@ == (SpecInterp {
                    memory: res.0.mem,
                    pointer: res.0.ptr,
                    iterations: res.0.iters,
                    ..old(self)@
                })
                &&& *final(next_input) as nat == res.0.in_pos
                &&& r.1@ == res.0.out
                &&& r.0 == res.1
            }),
    {
        let max = self.max_iterations;
        let mut output: Vec<u8> = Vec::new();
        let e = exec_list(
            &mut self.memory,
            &mut self.pointer,
            &mut self.iterations,
            max,
            instructions,
            inputs,
            next_input,
            &mut output,
        );
        proof {
            assert(self@ =~= (SpecInterp {
                memory: self@.memory,
                pointer: self@.pointer,
                iterations: self@.iterations,
                ..old(self)@
            }));
        }
        (e, output)
    }

    /// Runs this interpreter's program once, reading input from the start
    /// of `inputs`.
    pub fn run(&mut self, inputs: &Vec<u8>) -> (r: (Option<RunTimeError>, Vec<u8>))
        ensures
            ({
                let res = spec_run_list(
                    old(self)@.program,
                    Self::start_machine(old(self)@, inputs@, 0),
                    old(self)@.max_iterations,
                );
                &&& final(self)@ == (SpecInterp {
                    memory: res.0.mem,
                    pointer: res.0.ptr,
                    iterations: res.0.iters,
                    ..old(self)@
                })
                &&& r.1@ == res.0.out
                &&& r.0 == res.1
            }),
    {
        let max = self.max_iterations;
        let mut next_input: usize = 0;
        let mut output: Vec<u8> = Vec::new();
        let e = exec_list(
            &mut self.memory,
            &mut self.pointer,
            &mut self.iterations,
            max,
            &self.program,
            inputs,
            &mut next_input,
            &mut output,
        );
        proof {
            assert(self@ =~= (SpecInterp {
                memory: self@.memory,
                pointer: self@.pointer,
                iterations: self@.iterations,
                ..old(self)@
            }));
        }
        (e, output)
    }

    /// Runs this interpreter's program once against a resumable input
    /// stream: reading starts at `*next_input` and the cursor advances
    /// past whatever was consumed.
    pub fn run_iter(&mut self, inputs: &Vec<u8>, next_input: &mut usize) -> (r: (
        Option<RunTimeError>,
        Vec<u8>,
    ))
        ensures
            ({
                let res = spec_run_list(
                    old(self)@.program,
                    Self::start_machine(old(self)@, inputs@, *old(next_input) as nat),
                    old(self)@.max_iterations,
                );
                &&& final(self)@ == (SpecInterp {
                    memory: res.0.mem,
                    pointer: res.0.ptr,
                    iterations: res.0.iters,
                    ..old(self)@
                })
                &&& *final(next_input) as nat == res.0.in_pos
                &&& r.1@ == res.0.out
                &&& r.0 == res.1
            }),
    {
        let max = self.max_iterations;
        let mut output: Vec<u8> = Vec::new();
        let e = exec_list(
            &mut self.memory,
            &mut self.pointer,
            &mut self.iterations,
            max,
            &self.program,
            inputs,
            next_input,
            &mut output,
        );
        proof {
            assert(self@ =~= (SpecInterp {
                memory: self@.memory,
                pointer: self@.pointer,
                iterations: self@.iterations,
                ..old(self)@
            }));
        }
        (e, output)
    }
}


} // verus!
